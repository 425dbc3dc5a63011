use jsonpath_lib::jsonpath::parser::{
    ArrayValue, Context, Filter, FilterOp, FilterPath, FilterValue, Parser,
};
use jsonpath_lib::jsonpath::tokenizer::Token;

fn run(input: &str, expected: Vec<Context>, err: Option<String>) {
    let mut parser = Parser::new(input);
    match parser.parse() {
        Ok(vec) => assert_eq!(vec, expected, "\"{}\"", input),
        Err(e) => {
            if err.is_some() {
                assert_eq!(e, err.unwrap());
            } else {
                panic!("Error: {:?}", e);
            }
        }
    }
}

fn parse(input: &str) -> Result<Vec<Context>, String> {
    Parser::new(input).parse()
}

#[test]
fn filter() {
    run(
        "$..book[?(@.price<10)]",
        vec![
            Context::Absolute,
            Context::Relatives,
            Context::Key("book".to_owned()),
            Context::FilterGroup(vec![Filter::And(
                FilterValue::Path(vec![FilterPath::Relative, FilterPath::Key("price".to_owned())]),
                FilterOp::Little,
                FilterValue::NumValue(10),
            )]),
        ],
        None,
    );

    run(
        "$..book[?(@.price<)]",
        vec![],
        Some(format!("Parse error. position:'{}'", 17)),
    );

    run(
        "$..book[?(@.price<10 && @.name == \"한\" || @.total > 100 )]",
        vec![
            Context::Absolute,
            Context::Relatives,
            Context::Key("book".to_owned()),
            Context::FilterGroup(vec![
                Filter::And(
                    FilterValue::Path(vec![
                        FilterPath::Relative,
                        FilterPath::Key("price".to_owned()),
                    ]),
                    FilterOp::Little,
                    FilterValue::NumValue(10),
                ),
                Filter::And(
                    FilterValue::Path(vec![
                        FilterPath::Relative,
                        FilterPath::Key("name".to_owned()),
                    ]),
                    FilterOp::Equal,
                    FilterValue::StrValue("한".to_owned()),
                ),
                Filter::Or(
                    FilterValue::Path(vec![
                        FilterPath::Relative,
                        FilterPath::Key("total".to_owned()),
                    ]),
                    FilterOp::Grater,
                    FilterValue::NumValue(100),
                ),
            ]),
        ],
        None,
    );
}

#[test]
fn jsonpath_parser_unions_and_ranges() {
    assert_eq!(
        parse("$.a[1,2]"),
        Ok(vec![
            Context::Absolute,
            Context::Relative,
            Context::Key("a".to_string()),
            Context::Array(ArrayValue::UnionNum(vec![1, 2])),
        ])
    );
    assert_eq!(
        parse("$['a','b']"),
        Ok(vec![
            Context::Absolute,
            Context::Array(ArrayValue::UnionString(vec!["a".to_string(), "b".to_string()])),
        ])
    );
    assert_eq!(
        parse("$[1:2]"),
        Ok(vec![Context::Absolute, Context::Array(ArrayValue::Split(Some(1), Some(2)))])
    );
    assert_eq!(
        parse("$[:2]"),
        Ok(vec![Context::Absolute, Context::Array(ArrayValue::Split(None, Some(2)))])
    );
    assert_eq!(
        parse("$[1:]"),
        Ok(vec![
            Context::Absolute,
            Context::Token(Token::OpenArray(1)),
            Context::Array(ArrayValue::Split(Some(1), None)),
        ])
    );
    assert_eq!(parse("$.*"), Ok(vec![Context::Absolute, Context::RelativeValues]));
    assert_eq!(parse("$..*"), Ok(vec![Context::Absolute, Context::AllValues]));
}

#[test]
fn jsonpath_parser_errors() {
    assert_eq!(parse("$[a,1]"), Err("vec_to_number: ['a']".to_string()));
    assert_eq!(
        parse("$.a[1,,2]"),
        Err("parse_union number: invalid syntax. comma: 2, values: 2".to_string())
    );
    assert_eq!(
        parse("$['a',,'b']"),
        Err("parse_union string: invalid syntax. comma: 2, values: 2".to_string())
    );
    assert_eq!(parse("$]"), Err("parse_close_array: invalid syntax. Absolute".to_string()));
    assert_eq!(parse("$..ab"), Err("Parse error. position:'5'".to_string()));
    assert_eq!(parse("$[?()]"), Err("parse_filter: invalid syntax.".to_string()));
}

#[test]
fn jsonpath_context_alias_and_position() {
    assert!(Context::Relative.alias_of("Relative"));
    assert!(!Context::Relatives.alias_of("Relative"));
    assert!(Context::Token(Token::Comma(3)).alias_of("Token"));
    assert!(Context::Key("k".to_string()).alias_of("Key"));
    let p = Parser::new("$");
    assert_eq!(p.token_position(&Token::Key(7, vec!['a'])), 7);
    assert_eq!(p.token_position(&Token::Whitespace(2)), 2);
}

#[test]
fn context_names() {
    assert!(Context::Relatives.alias_of("Relatives"));
    assert!(!Context::Relatives.alias_of("Relative"));
    assert!(Context::Relative.alias_of("Relative"));
    assert!(Context::Key("x".to_string()).alias_of("Key"));
    assert!(Context::Token(Token::At(0)).alias_of("Token"));
    assert!(!Context::Token(Token::Key(0, vec![])).alias_of("Key"));
}

#[test]
fn try_parse_tells_meaningless_paths_apart() {
    assert_eq!(Parser::new("$(1)").try_parse(), None);
    assert_eq!(
        Parser::new("$.a").try_parse(),
        Some(Ok(vec![
            Context::Absolute,
            Context::Relative,
            Context::Token(Token::Key(2, vec!['a'])),
        ]))
    );
    assert_eq!(Parser::new("$.a").try_parse(), Some(parse("$.a")));
}

#[test]
fn close_array_consumes_its_bracket() {
    assert_eq!(parse("$[]"), Ok(vec![Context::Absolute]));
    assert_eq!(parse("$..[]"), Ok(vec![Context::Absolute, Context::Relatives]));
}
