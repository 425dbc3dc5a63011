use vstd::prelude::*;

use super::str_reader::StrRange;
use crate::parser::tokenizer::str_equal;
use crate::parser::utils::{
    bool_literal, is_bool_literal, is_f64_literal, parse_f64_accepts, parse_isize, parse_isize_str,
};

verus! {

/// A token of the path grammar: the name of its kind and the span it covers.
#[derive(Debug, PartialEq)]
pub struct _Token<'a> {
    pub key: &'a str,
    pub range: StrRange,
}

impl<'a> _Token<'a> {
    pub fn new(key: &'a str, range: StrRange) -> (t: Self)
        ensures
            t.key == key,
            t.range == range,
    {
        _Token { key, range }
    }

    /// A token of the same kind over `range`; `self` is left as it is.
    pub fn replace_range(&mut self, range: StrRange) -> (t: Self)
        ensures
            *final(self) == *old(self),
            t.key == old(self).key,
            t.range == range,
    {
        _Token { key: self.key, range }
    }

    /// Whether the two tokens are of one kind.
    pub fn is_type_matched(&self, other: &_Token) -> (r: bool)
        ensures
            r == (self.key@ == other.key@),
    {
        str_equal(self.key, other.key)
    }
}

/// The kind of value that a span of the path holds.
#[derive(Debug, PartialEq, Clone, Copy)]
pub enum _TokenType {
    String(StrRange),
    Int(StrRange),
    Float(StrRange),
    Bool(StrRange),
}

impl _TokenType {
    /// The span of the path that the value stands in.
    pub open spec fn span(self) -> StrRange {
        match self {
            _TokenType::String(r) => r,
            _TokenType::Int(r) => r,
            _TokenType::Float(r) => r,
            _TokenType::Bool(r) => r,
        }
    }

    /// `value` reads as a value of the kind that `self` names: any text as a
    /// string, what `isize` or `f64` parsing accepts as a number, `true` or
    /// `false` in any case as a boolean.
    pub open spec fn accepts(self, value: Seq<char>) -> bool {
        match self {
            _TokenType::String(_) => true,
            _TokenType::Int(_) => parse_isize(value) is Some,
            _TokenType::Float(_) => parse_f64_accepts(value),
            _TokenType::Bool(_) => bool_literal(value),
        }
    }

    /// Checks `value`, the text of the span that `self` covers, against the
    /// kind of value that `self` names; a refusal gives back the span.
    pub fn validate_token_type(&self, value: &str) -> (res: Result<(), StrRange>)
        requires
            self is Bool ==> value@.len() > 0,
        ensures
            res is Ok <==> self.accepts(value@),
            res matches Err(r) ==> r == self.span(),
    {
        match self {
            _TokenType::String(_) => Ok(()),
            _TokenType::Float(r) => {
                if is_f64_literal(value) {
                    Ok(())
                } else {
                    Err(*r)
                }
            },
            _TokenType::Int(r) => {
                if parse_isize_str(value).is_some() {
                    Ok(())
                } else {
                    Err(*r)
                }
            },
            _TokenType::Bool(r) => {
                if is_bool_literal(value) {
                    Ok(())
                } else {
                    Err(*r)
                }
            },
        }
    }
}

/// A token of the parse tree: the name of its kind and the values it
/// carries, if any.
#[derive(Debug, PartialEq)]
pub struct _ParserToken<'a> {
    pub key: &'a str,
    pub token_type: Option<Vec<_TokenType>>,
}

impl<'a> _ParserToken<'a> {
    pub fn new(key: &'a str) -> (t: Self)
        ensures
            t.key == key,
            t.token_type is None,
    {
        _ParserToken { key, token_type: None }
    }

    pub fn new_with_type(key: &'a str, token_type: _TokenType) -> (t: Self)
        ensures
            t.key == key,
            t.token_type matches Some(v) && v@ == seq![token_type],
    {
        _ParserToken { key, token_type: Some(vec![token_type]) }
    }

    pub fn new_with_types(key: &'a str, data_type: Vec<_TokenType>) -> (t: Self)
        ensures
            t.key == key,
            t.token_type == Some(data_type),
    {
        _ParserToken { key, token_type: Some(data_type) }
    }
}

/// A token of a parsed path. Keys are spans of the path; a number holds the
/// text of its literal.
#[derive(Debug, PartialEq)]
pub enum ParseToken {
    // '$'
    Absolute,
    // '@'
    Relative,
    // '.'
    In,
    // '..'
    Leaves,
    // '*'
    All,
    Key(StrRange),
    Keys(Vec<StrRange>),
    // []
    Array,
    // end of an array's content, sent by the visitor
    ArrayEof,
    // ?( filter )
    Filter(FilterToken),
    // 1 : 2
    Range(Option<isize>, Option<isize>, Option<usize>),
    // 1, 2, 3
    Union(Vec<isize>),
    Number(String),
    Bool(bool),
    Eof,
}

#[derive(Debug, PartialEq, Eq, Clone, Copy)]
pub enum FilterToken {
    Equal,
    NotEqual,
    Little,
    LittleOrEqual,
    Greater,
    GreaterOrEqual,
    And,
    Or,
}

} // verus!
