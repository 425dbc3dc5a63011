pub mod tokenizer;

use vstd::prelude::*;

use crate::parser::tokenizer::str_equal;
use crate::parser::utils::{
    bool_literal, is_bool_literal, is_f64_literal, parse_f64_accepts, parse_isize, parse_isize_str,
};
use crate::paths::StrRange;

verus! {

/// A token of the path grammar: the name of its kind and the span it covers.
#[derive(Debug, PartialEq)]
pub struct Token<'a> {
    pub key: &'a str,
    pub range: StrRange,
}

impl<'a> Token<'a> {
    pub fn new(key: &'a str, range: StrRange) -> (t: Self)
        ensures
            t.key == key,
            t.range == range,
    {
        Token { key, range }
    }

    /// A token of the same kind over `range`; `self` is left as it is.
    pub fn replace_range(&mut self, range: StrRange) -> (t: Self)
        ensures
            *final(self) == *old(self),
            t.key == old(self).key,
            t.range == range,
    {
        Token { key: self.key, range }
    }

    /// Whether the two tokens are of one kind.
    pub fn is_type_matched(&self, other: &Token) -> (r: bool)
        ensures
            r == (self.key@ == other.key@),
    {
        str_equal(self.key, other.key)
    }
}

/// The kind of value that a span of the path holds.
#[derive(Debug, PartialEq, Clone, Copy)]
pub enum TokenType {
    String(StrRange),
    Int(StrRange),
    Float(StrRange),
    Bool(StrRange),
}

impl TokenType {
    /// The span of the path that the value stands in.
    pub open spec fn span(self) -> StrRange {
        match self {
            TokenType::String(r) => r,
            TokenType::Int(r) => r,
            TokenType::Float(r) => r,
            TokenType::Bool(r) => r,
        }
    }

    /// `value` reads as a value of the kind that `self` names: any text as a
    /// string, what `isize` or `f64` parsing accepts as a number, `true` or
    /// `false` in any case as a boolean.
    pub open spec fn accepts(self, value: Seq<char>) -> bool {
        match self {
            TokenType::String(_) => true,
            TokenType::Int(_) => parse_isize(value) is Some,
            TokenType::Float(_) => parse_f64_accepts(value),
            TokenType::Bool(_) => bool_literal(value),
        }
    }

    /// Checks `value`, the text of the span that `self` covers, against the
    /// kind of value that `self` names; a refusal gives back the span.
    pub fn validate_token_type(&self, value: &str) -> (res: Result<(), StrRange>)
        requires
            self is Bool ==> value@.len() > 0,
        ensures
            res is Ok <==> self.accepts(value@),
            res matches Err(r) ==> r == self.span(),
    {
        match self {
            TokenType::String(_) => Ok(()),
            TokenType::Float(r) => {
                if is_f64_literal(value) {
                    Ok(())
                } else {
                    Err(*r)
                }
            },
            TokenType::Int(r) => {
                if parse_isize_str(value).is_some() {
                    Ok(())
                } else {
                    Err(*r)
                }
            },
            TokenType::Bool(r) => {
                if is_bool_literal(value) {
                    Ok(())
                } else {
                    Err(*r)
                }
            },
        }
    }
}

/// A token of the parse tree: the name of its kind and the values it
/// carries, if any.
#[derive(Debug, PartialEq)]
pub struct ParserToken<'a> {
    pub key: &'a str,
    pub token_type: Option<Vec<TokenType>>,
}

impl<'a> ParserToken<'a> {
    pub fn new(key: &'a str) -> (t: Self)
        ensures
            t.key == key,
            t.token_type is None,
    {
        ParserToken { key, token_type: None }
    }

    pub fn new_with_type(key: &'a str, token_type: TokenType) -> (t: Self)
        ensures
            t.key == key,
            t.token_type matches Some(v) && v@ == seq![token_type],
    {
        ParserToken { key, token_type: Some(vec![token_type]) }
    }

    pub fn new_with_types(key: &'a str, data_type: Vec<TokenType>) -> (t: Self)
        ensures
            t.key == key,
            t.token_type == Some(data_type),
    {
        ParserToken { key, token_type: Some(data_type) }
    }
}

} // verus!
