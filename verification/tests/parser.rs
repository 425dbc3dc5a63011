use jsonpath_lib::parser::parser::{FilterToken, NodeVisit, NodeVisitor, ParseToken, Parser};

/// A parse token with its number read as `f64`, for comparison.
#[derive(Debug, PartialEq)]
enum Tok {
    Absolute,
    Relative,
    In,
    Leaves,
    All,
    Key(String),
    Keys(Vec<String>),
    Array,
    ArrayEof,
    Filter(FilterToken),
    Range(Option<isize>, Option<isize>, Option<usize>),
    Union(Vec<isize>),
    Number(f64),
    Bool(bool),
    Eof,
}

fn tok(t: &ParseToken) -> Tok {
    match t {
        ParseToken::Absolute => Tok::Absolute,
        ParseToken::Relative => Tok::Relative,
        ParseToken::In => Tok::In,
        ParseToken::Leaves => Tok::Leaves,
        ParseToken::All => Tok::All,
        ParseToken::Key(k) => Tok::Key(k.clone()),
        ParseToken::Keys(k) => Tok::Keys(k.clone()),
        ParseToken::Array => Tok::Array,
        ParseToken::ArrayEof => Tok::ArrayEof,
        ParseToken::Filter(f) => Tok::Filter(*f),
        ParseToken::Range(a, b, c) => Tok::Range(*a, *b, *c),
        ParseToken::Union(u) => Tok::Union(u.clone()),
        ParseToken::Number(n) => Tok::Number(n.parse::<f64>().unwrap()),
        ParseToken::Bool(b) => Tok::Bool(*b),
        ParseToken::Eof => Tok::Eof,
    }
}

struct NodeVisitorTestImpl {
    stack: Vec<Tok>,
}

impl NodeVisitor for NodeVisitorTestImpl {
    fn visit_token(&mut self, token: &ParseToken) {
        self.stack.push(tok(token));
    }

    fn end_term(&mut self) {}
}

fn run(input: &str) -> Result<Vec<Tok>, String> {
    let node = Parser::compile(input)?;
    let mut v = NodeVisitorTestImpl { stack: Vec::new() };
    v.visit(&node);
    Ok(v.stack)
}

fn key(s: &str) -> Tok {
    Tok::Key(s.to_string())
}

#[test]
fn mod_parse_error() {
    fn invalid(path: &str) {
        assert!(run(path).is_err(), "{}", path);
    }

    invalid("$[]");
    invalid("$[a]");
    invalid("$[?($.a)]");
    invalid("$[?(@.a > @.b]");
    invalid("$[?(@.a < @.b&&(@.c < @.d)]");
    invalid("@.");
    invalid("$..[?(a <= @.a)]");
    invalid("$['a', b]");
    invalid("$[0, >=]");
    invalid("$[a:]");
    invalid("$[:a]");
    invalid("$[::a]");
    invalid("$[:>]");
    invalid("$[1:>]");
    invalid("$[1,,]");
    invalid("$[?]");
    invalid("$[?(1 = 1)]");
    invalid("$[?(1 = >)]");
}

#[test]
fn mod_parse_path() {
    assert_eq!(run("$.aa"), Ok(vec![Tok::Absolute, Tok::In, key("aa")]));

    assert_eq!(
        run("$.00.a"),
        Ok(vec![Tok::Absolute, Tok::In, key("00"), Tok::In, key("a")])
    );

    assert_eq!(
        run("$.00.韓창.seok"),
        Ok(vec![
            Tok::Absolute,
            Tok::In,
            key("00"),
            Tok::In,
            key("韓창"),
            Tok::In,
            key("seok")
        ])
    );

    assert_eq!(run("$.*"), Ok(vec![Tok::Absolute, Tok::In, Tok::All]));

    assert_eq!(run("$..*"), Ok(vec![Tok::Absolute, Tok::Leaves, Tok::All]));

    assert_eq!(
        run("$..[0]"),
        Ok(vec![
            Tok::Absolute,
            Tok::Leaves,
            Tok::Array,
            Tok::Number(0.0),
            Tok::ArrayEof
        ])
    );

    assert_eq!(run("$.$a"), Ok(vec![Tok::Absolute, Tok::In, key("$a")]));

    assert_eq!(
        run("$.['$a']"),
        Ok(vec![Tok::Absolute, Tok::Array, key("$a"), Tok::ArrayEof])
    );

    if run("$.").is_ok() {
        panic!();
    }

    if run("$..").is_ok() {
        panic!();
    }

    if run("$. a").is_ok() {
        panic!();
    }
}

#[test]
fn mod_parse_array_syntax() {
    assert_eq!(
        run("$.book[?(@.isbn)]"),
        Ok(vec![
            Tok::Absolute,
            Tok::In,
            key("book"),
            Tok::Array,
            Tok::Relative,
            Tok::In,
            key("isbn"),
            Tok::ArrayEof
        ])
    );

    assert_eq!(
        run("$.[*]"),
        Ok(vec![Tok::Absolute, Tok::Array, Tok::All, Tok::ArrayEof])
    );

    assert_eq!(
        run("$.a[*]"),
        Ok(vec![
            Tok::Absolute,
            Tok::In,
            key("a"),
            Tok::Array,
            Tok::All,
            Tok::ArrayEof
        ])
    );

    assert_eq!(
        run("$.a[*].가"),
        Ok(vec![
            Tok::Absolute,
            Tok::In,
            key("a"),
            Tok::Array,
            Tok::All,
            Tok::ArrayEof,
            Tok::In,
            key("가")
        ])
    );

    assert_eq!(
        run("$.a[0][1]"),
        Ok(vec![
            Tok::Absolute,
            Tok::In,
            key("a"),
            Tok::Array,
            Tok::Number(0_f64),
            Tok::ArrayEof,
            Tok::Array,
            Tok::Number(1_f64),
            Tok::ArrayEof
        ])
    );

    assert_eq!(
        run("$.a[1,2]"),
        Ok(vec![
            Tok::Absolute,
            Tok::In,
            key("a"),
            Tok::Array,
            Tok::Union(vec![1, 2]),
            Tok::ArrayEof
        ])
    );

    assert_eq!(
        run("$.a[10:]"),
        Ok(vec![
            Tok::Absolute,
            Tok::In,
            key("a"),
            Tok::Array,
            Tok::Range(Some(10), None, None),
            Tok::ArrayEof
        ])
    );

    assert_eq!(
        run("$.a[:11]"),
        Ok(vec![
            Tok::Absolute,
            Tok::In,
            key("a"),
            Tok::Array,
            Tok::Range(None, Some(11), None),
            Tok::ArrayEof
        ])
    );

    assert_eq!(
        run("$.a[-12:13]"),
        Ok(vec![
            Tok::Absolute,
            Tok::In,
            key("a"),
            Tok::Array,
            Tok::Range(Some(-12), Some(13), None),
            Tok::ArrayEof
        ])
    );

    assert_eq!(
        run(r#"$[0:3:2]"#),
        Ok(vec![
            Tok::Absolute,
            Tok::Array,
            Tok::Range(Some(0), Some(3), Some(2)),
            Tok::ArrayEof
        ])
    );

    assert_eq!(
        run(r#"$[:3:2]"#),
        Ok(vec![
            Tok::Absolute,
            Tok::Array,
            Tok::Range(None, Some(3), Some(2)),
            Tok::ArrayEof
        ])
    );

    assert_eq!(
        run(r#"$[:]"#),
        Ok(vec![
            Tok::Absolute,
            Tok::Array,
            Tok::Range(None, None, None),
            Tok::ArrayEof
        ])
    );

    assert_eq!(
        run(r#"$[::]"#),
        Ok(vec![
            Tok::Absolute,
            Tok::Array,
            Tok::Range(None, None, None),
            Tok::ArrayEof
        ])
    );

    assert_eq!(
        run(r#"$[::2]"#),
        Ok(vec![
            Tok::Absolute,
            Tok::Array,
            Tok::Range(None, None, Some(2)),
            Tok::ArrayEof
        ])
    );

    assert_eq!(
        run(r#"$["a", 'b']"#),
        Ok(vec![
            Tok::Absolute,
            Tok::Array,
            Tok::Keys(vec!["a".to_string(), "b".to_string()]),
            Tok::ArrayEof
        ])
    );

    assert_eq!(
        run("$.a[?(1>2)]"),
        Ok(vec![
            Tok::Absolute,
            Tok::In,
            key("a"),
            Tok::Array,
            Tok::Number(1_f64),
            Tok::Number(2_f64),
            Tok::Filter(FilterToken::Greater),
            Tok::ArrayEof
        ])
    );

    assert_eq!(
        run("$.a[?($.b>3)]"),
        Ok(vec![
            Tok::Absolute,
            Tok::In,
            key("a"),
            Tok::Array,
            Tok::Absolute,
            Tok::In,
            key("b"),
            Tok::Number(3_f64),
            Tok::Filter(FilterToken::Greater),
            Tok::ArrayEof
        ])
    );

    assert_eq!(
        run("$[?($.c>@.d && 1==2)]"),
        Ok(vec![
            Tok::Absolute,
            Tok::Array,
            Tok::Absolute,
            Tok::In,
            key("c"),
            Tok::Relative,
            Tok::In,
            key("d"),
            Tok::Filter(FilterToken::Greater),
            Tok::Number(1_f64),
            Tok::Number(2_f64),
            Tok::Filter(FilterToken::Equal),
            Tok::Filter(FilterToken::And),
            Tok::ArrayEof
        ])
    );

    assert_eq!(
        run("$[?($.c>@.d&&(1==2||3>=4))]"),
        Ok(vec![
            Tok::Absolute,
            Tok::Array,
            Tok::Absolute,
            Tok::In,
            key("c"),
            Tok::Relative,
            Tok::In,
            key("d"),
            Tok::Filter(FilterToken::Greater),
            Tok::Number(1_f64),
            Tok::Number(2_f64),
            Tok::Filter(FilterToken::Equal),
            Tok::Number(3_f64),
            Tok::Number(4_f64),
            Tok::Filter(FilterToken::GreaterOrEqual),
            Tok::Filter(FilterToken::Or),
            Tok::Filter(FilterToken::And),
            Tok::ArrayEof
        ])
    );

    assert_eq!(
        run("$[?(@.a<@.b)]"),
        Ok(vec![
            Tok::Absolute,
            Tok::Array,
            Tok::Relative,
            Tok::In,
            key("a"),
            Tok::Relative,
            Tok::In,
            key("b"),
            Tok::Filter(FilterToken::Little),
            Tok::ArrayEof
        ])
    );

    assert_eq!(
        run("$[*][*][*]"),
        Ok(vec![
            Tok::Absolute,
            Tok::Array,
            Tok::All,
            Tok::ArrayEof,
            Tok::Array,
            Tok::All,
            Tok::ArrayEof,
            Tok::Array,
            Tok::All,
            Tok::ArrayEof
        ])
    );

    assert_eq!(
        run("$['a']['bb']"),
        Ok(vec![
            Tok::Absolute,
            Tok::Array,
            key("a"),
            Tok::ArrayEof,
            Tok::Array,
            key("bb"),
            Tok::ArrayEof
        ])
    );

    assert_eq!(
        run("$.a[?(@.e==true)]"),
        Ok(vec![
            Tok::Absolute,
            Tok::In,
            key("a"),
            Tok::Array,
            Tok::Relative,
            Tok::In,
            key("e"),
            Tok::Bool(true),
            Tok::Filter(FilterToken::Equal),
            Tok::ArrayEof
        ])
    );

    assert_eq!(
        run(r#"$[?(@ > 1)]"#),
        Ok(vec![
            Tok::Absolute,
            Tok::Array,
            Tok::Relative,
            Tok::Number(1_f64),
            Tok::Filter(FilterToken::Greater),
            Tok::ArrayEof
        ])
    );

    assert_eq!(
        run("$[:]"),
        Ok(vec![
            Tok::Absolute,
            Tok::Array,
            Tok::Range(None, None, None),
            Tok::ArrayEof
        ])
    );

    assert_eq!(
        run(r#"$['single\'quote']"#),
        Ok(vec![
            Tok::Absolute,
            Tok::Array,
            key("single'quote"),
            Tok::ArrayEof
        ])
    );

    assert_eq!(
        run(r#"$["single\"quote"]"#),
        Ok(vec![
            Tok::Absolute,
            Tok::Array,
            key(r#"single"quote"#),
            Tok::ArrayEof
        ])
    );
}

#[test]
fn mod_parse_array_float() {
    assert_eq!(
        run("$[?(1.1<2.1)]"),
        Ok(vec![
            Tok::Absolute,
            Tok::Array,
            Tok::Number(1.1),
            Tok::Number(2.1),
            Tok::Filter(FilterToken::Little),
            Tok::ArrayEof
        ])
    );

    if run("$[1.1]").is_ok() {
        panic!();
    }

    if run("$[?(1.1<.2)]").is_ok() {
        panic!();
    }

    if run("$[?(1.1<2.)]").is_ok() {
        panic!();
    }

    if run("$[?(1.1<2.a)]").is_ok() {
        panic!();
    }
}

#[test]
fn parse_error_message_carries_position() {
    let err = Parser::compile("$.a[").unwrap_err();
    assert!(err.starts_with("$.a[\n"), "{}", err);
    assert!(err.ends_with('^'), "{}", err);
    let ok = Parser::compile("$..book[?(@.price<10 && @.name == \"x\" || @.total > 100 )]");
    assert!(ok.is_ok());
}

struct EventRecorder {
    events: Vec<String>,
}

impl NodeVisitor for EventRecorder {
    fn visit_token(&mut self, token: &ParseToken) {
        self.events.push(format!("{:?}", token));
    }

    fn end_term(&mut self) {
        self.events.push("|".to_string());
    }
}

#[test]
fn visitor_marks_the_end_of_each_operand() {
    let node = Parser::compile("$[?(@.a<1 && 2==@.b)]").unwrap();
    let mut v = EventRecorder { events: Vec::new() };
    v.visit(&node);
    let expected: Vec<String> = vec![
        "Absolute", "Array", "Relative", "In", "Key(\"a\")", "|", "Number(\"1\")", "|",
        "Filter(Little)", "Number(\"2\")", "|", "Relative", "In", "Key(\"b\")", "|",
        "Filter(Equal)", "Filter(And)", "ArrayEof",
    ]
    .into_iter()
    .map(|s| s.to_string())
    .collect();
    assert_eq!(v.events, expected);
}
