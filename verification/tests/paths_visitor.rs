use jsonpath_lib::paths::path_parser::ParserNode;
use jsonpath_lib::paths::tokens::{FilterToken, ParseToken};
use jsonpath_lib::paths::{ParserNodeVisitor, ParserTokenHandler, StrRange};

struct Recorder {
    seen: Vec<String>,
}

impl<'a> ParserTokenHandler<'a> for Recorder {
    fn handle<F>(&mut self, token: &ParseToken, parse_value_reader: &F)
    where
        F: Fn(&StrRange) -> &'a str,
    {
        match token {
            ParseToken::Key(r) => self.seen.push(format!("Key({})", parse_value_reader(r))),
            t => self.seen.push(format!("{:?}", t)),
        }
    }
}

struct Walker;

impl<'a> ParserNodeVisitor<'a> for Walker {}

fn leaf(token: ParseToken) -> Option<Box<ParserNode>> {
    Some(Box::new(ParserNode { left: None, right: None, token }))
}

fn node(token: ParseToken, left: Option<Box<ParserNode>>, right: Option<Box<ParserNode>>) -> Option<Box<ParserNode>> {
    Some(Box::new(ParserNode { left, right, token }))
}

#[test]
fn parser_node_visitor_walks_in_order() {
    // $.a[?(@.b > 1 && true)]
    let path = "$.a[?(@.b > 1 && true)]";
    let cmp = node(
        ParseToken::Filter(FilterToken::Greater),
        node(ParseToken::In, leaf(ParseToken::Relative), leaf(ParseToken::Key(StrRange::new(8, 1)))),
        leaf(ParseToken::Number("1".to_string())),
    );
    let and = node(ParseToken::Filter(FilterToken::And), cmp, leaf(ParseToken::Bool(true)));
    let dot = node(ParseToken::In, leaf(ParseToken::Absolute), leaf(ParseToken::Key(StrRange::new(2, 1))));
    let root = *node(ParseToken::Array, dot, and).unwrap();

    let mut h = Recorder { seen: Vec::new() };
    let reader = |r: &StrRange| &path[r.pos..r.pos + r.offset];
    Walker.visit(&root, &mut h, &reader);
    let expected: Vec<String> = vec![
        "Absolute", "In", "Key(a)", "Array", "Relative", "In", "Key(b)", "Number(\"1\")",
        "Filter(Greater)", "Bool(true)", "Filter(And)", "ArrayEof",
    ]
    .into_iter()
    .map(|s| s.to_string())
    .collect();
    assert_eq!(h.seen, expected);
}

#[test]
fn parser_node_visitor_skips_end_tokens() {
    let root = ParserNode { left: None, right: None, token: ParseToken::Eof };
    let mut h = Recorder { seen: Vec::new() };
    let reader = |_: &StrRange| "";
    Walker.visit(&root, &mut h, &reader);
    assert!(h.seen.is_empty());
}
