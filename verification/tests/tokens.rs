use jsonpath_lib::jsonpath_parser::tokenizer::TokenError as ParserTokenError;
use jsonpath_lib::jsonpath_parser::{ParserToken, Token, TokenType};
use jsonpath_lib::paths::tokenizer::TokenError;
use jsonpath_lib::paths::tokens::{FilterToken, _ParserToken, _Token, _TokenType};
use jsonpath_lib::paths::StrRange;
use jsonpath_lib::ref_value::serde_error::SerdeError;
use jsonpath_lib::select::select_value::SelectValueType;
use jsonpath_lib::select::{FilterKey, JsonPathError};

#[test]
fn token_new_and_replace_range() {
    let mut t = Token::new("$", StrRange::new(0, 1));
    assert_eq!(t.key, "$");
    assert_eq!(t.range, StrRange { pos: 0, offset: 1 });
    let u = t.replace_range(StrRange::new(3, 2));
    assert_eq!(u.key, "$");
    assert_eq!(u.range, StrRange::new(3, 2));
    assert_eq!(t.range, StrRange::new(0, 1));
    assert!(t.is_type_matched(&u));
    assert!(!t.is_type_matched(&Token::new(".", StrRange::new(0, 1))));
}

#[test]
fn parser_token_constructors() {
    let p = ParserToken::new("Absolute");
    assert_eq!(p.key, "Absolute");
    assert_eq!(p.token_type, None);
    let p = ParserToken::new_with_type("Key", TokenType::String(StrRange::new(2, 3)));
    assert_eq!(p.token_type, Some(vec![TokenType::String(StrRange::new(2, 3))]));
    let p = ParserToken::new_with_types(
        "Union",
        vec![TokenType::Int(StrRange::new(1, 1)), TokenType::Int(StrRange::new(3, 1))],
    );
    assert_eq!(p.token_type.unwrap().len(), 2);
    assert_ne!(ParserTokenError::Eof, ParserTokenError::Unknown);
}

#[test]
fn paths_token_constructors() {
    let mut t = _Token::new("[", StrRange::new(1, 1));
    let u = t.replace_range(StrRange::new(5, 1));
    assert!(u.is_type_matched(&t));
    assert_eq!(u.range.pos, 5);
    let p = _ParserToken::new_with_type("Bool", _TokenType::Bool(StrRange::new(0, 4)));
    assert_eq!(p.key, "Bool");
    assert_eq!(p.token_type, Some(vec![_TokenType::Bool(StrRange::new(0, 4))]));
    let p = _ParserToken::new_with_types("Keys", vec![]);
    assert_eq!(p.token_type, Some(vec![]));
    assert_eq!(_ParserToken::new("In").token_type, None);
    assert_ne!(FilterToken::And, FilterToken::Or);
    assert_eq!(TokenError::Position(3), TokenError::Position(3));
}

#[test]
fn json_path_error_text() {
    assert_eq!(JsonPathError::EmptyPath.to_string(), "path not set");
    assert_eq!(JsonPathError::EmptyValue.to_string(), "json value not set");
    assert_eq!(
        JsonPathError::Path("$.a[".to_string()).to_string(),
        "path error: \n$.a[\n"
    );
    assert_eq!(
        JsonPathError::Serde("bad".to_string()).to_string(),
        "serde error: \nbad\n"
    );
    assert_eq!(FilterKey::String("a".to_string()), FilterKey::String("a".to_string()));
    assert_ne!(SelectValueType::Long, SelectValueType::Double);
}

#[test]
fn serde_error_message() {
    assert_eq!(SerdeError::new("oops".to_string()).to_string(), "oops");
    assert_eq!(SerdeError::from_str("bad key").to_string(), "bad key");
}

#[test]
fn token_type_validates_its_text() {
    let r = StrRange::new(4, 3);
    assert_eq!(TokenType::String(r).validate_token_type("anything"), Ok(()));
    assert_eq!(TokenType::Int(r).validate_token_type("-12"), Ok(()));
    assert_eq!(TokenType::Int(r).validate_token_type("+7"), Ok(()));
    assert_eq!(TokenType::Int(r).validate_token_type("1.5"), Err(r));
    assert_eq!(TokenType::Int(r).validate_token_type("99999999999999999999"), Err(r));
    assert_eq!(TokenType::Float(r).validate_token_type("1.5"), Ok(()));
    assert_eq!(TokenType::Float(r).validate_token_type("2."), Ok(()));
    assert_eq!(TokenType::Float(r).validate_token_type("1e3"), Ok(()));
    assert_eq!(TokenType::Float(r).validate_token_type("2.a"), Err(r));
    assert_eq!(TokenType::Bool(r).validate_token_type("TRUE"), Ok(()));
    assert_eq!(TokenType::Bool(r).validate_token_type("fAlSe"), Ok(()));
    assert_eq!(TokenType::Bool(r).validate_token_type("tru"), Err(r));
    assert_eq!(TokenType::Bool(r).validate_token_type("yes"), Err(r));
}

#[test]
fn paths_token_type_validates_its_text() {
    let r = StrRange::new(0, 5);
    assert_eq!(_TokenType::String(r).validate_token_type(""), Ok(()));
    assert_eq!(_TokenType::Int(r).validate_token_type("42"), Ok(()));
    assert_eq!(_TokenType::Int(r).validate_token_type("4a"), Err(r));
    assert_eq!(_TokenType::Float(r).validate_token_type("-0.25"), Ok(()));
    assert_eq!(_TokenType::Float(r).validate_token_type("."), Err(r));
    assert_eq!(_TokenType::Bool(r).validate_token_type("False"), Ok(()));
    assert_eq!(_TokenType::Bool(r).validate_token_type("falsey"), Err(r));
}
