use vstd::prelude::*;

use super::path_reader::{
    accepted_prefix, char_view, next_outcome, take_outcome, take_view, Error, PathReader,
    ReadState,
};
use super::utils::vec_to_number;
use crate::parser::tokenizer::{
    char_is_whitespace, is_key_char, is_whitespace_char, key_pred, lemma_take_while_len, not_char,
    str_equal, take_while_len,
};
use crate::parser::path_reader::str_width;
use crate::parser::utils::parse_isize;

verus! {

pub const ABSOLUTE: &'static str = "Absolute";
pub const RELATIVE: &'static str = "Relative";
pub const AT: &'static str = "At";
pub const OPEN_ARRAY: &'static str = "OpenArray";
pub const CLOSE_ARRAY: &'static str = "CloseArray";
pub const ASTERISK: &'static str = "Asterisk";
pub const QUESTION: &'static str = "Question";
pub const COMMA: &'static str = "Comma";
pub const SPLIT: &'static str = "Split";
pub const OPEN_PARENTHESIS: &'static str = "OpenParenthesis";
pub const CLOSE_PARENTHESIS: &'static str = "CloseParenthesis";
pub const KEY: &'static str = "Key";
pub const STRING: &'static str = "String";
pub const SINGLE_QUOTA_LITERAL: &'static str = "SingleQuotaLiteral";
pub const FLOAT: &'static str = "Float";
pub const EQUAL: &'static str = "Equal";
pub const GREATER_OR_EQUAL: &'static str = "GreaterOrEqual";
pub const GREATER: &'static str = "Greater";
pub const LITTLE: &'static str = "Little";
pub const LITTLE_OR_EQUAL: &'static str = "LittleOrEqual";
pub const NOT_EQUAL: &'static str = "NotEqual";
pub const AND: &'static str = "And";
pub const OR: &'static str = "Or";
pub const WHITESPACE: &'static str = "Whitespace";

#[derive(Debug, PartialEq)]
pub enum Token {
    Absolute(usize),
    Relative(usize),
    At(usize),
    OpenArray(usize),
    CloseArray(usize),
    Asterisk(usize),
    Question(usize),
    Comma(usize),
    Split(usize),
    OpenParenthesis(usize),
    CloseParenthesis(usize),
    Key(usize, Vec<char>),
    DoubleQuoted(usize, Vec<char>),
    SingleQuoted(usize, Vec<char>),
    Float(usize, Vec<char>),
    Equal(usize),
    GreaterOrEqual(usize),
    Greater(usize),
    Little(usize),
    LittleOrEqual(usize),
    NotEqual(usize),
    And(usize),
    Or(usize),
    Whitespace(usize),
}

/// A token as a mathematical value.
pub enum TokenView {
    Absolute(nat),
    Relative(nat),
    At(nat),
    OpenArray(nat),
    CloseArray(nat),
    Asterisk(nat),
    Question(nat),
    Comma(nat),
    Split(nat),
    OpenParenthesis(nat),
    CloseParenthesis(nat),
    Key(nat, Seq<char>),
    DoubleQuoted(nat, Seq<char>),
    SingleQuoted(nat, Seq<char>),
    Float(nat, Seq<char>),
    Equal(nat),
    GreaterOrEqual(nat),
    Greater(nat),
    Little(nat),
    LittleOrEqual(nat),
    NotEqual(nat),
    And(nat),
    Or(nat),
    Whitespace(nat),
}

impl View for Token {
    type V = TokenView;

    open spec fn view(&self) -> TokenView {
        match self {
            Token::Absolute(p) => TokenView::Absolute(*p as nat),
            Token::Relative(p) => TokenView::Relative(*p as nat),
            Token::At(p) => TokenView::At(*p as nat),
            Token::OpenArray(p) => TokenView::OpenArray(*p as nat),
            Token::CloseArray(p) => TokenView::CloseArray(*p as nat),
            Token::Asterisk(p) => TokenView::Asterisk(*p as nat),
            Token::Question(p) => TokenView::Question(*p as nat),
            Token::Comma(p) => TokenView::Comma(*p as nat),
            Token::Split(p) => TokenView::Split(*p as nat),
            Token::OpenParenthesis(p) => TokenView::OpenParenthesis(*p as nat),
            Token::CloseParenthesis(p) => TokenView::CloseParenthesis(*p as nat),
            Token::Key(p, v) => TokenView::Key(*p as nat, v@),
            Token::DoubleQuoted(p, v) => TokenView::DoubleQuoted(*p as nat, v@),
            Token::SingleQuoted(p, v) => TokenView::SingleQuoted(*p as nat, v@),
            Token::Float(p, v) => TokenView::Float(*p as nat, v@),
            Token::Equal(p) => TokenView::Equal(*p as nat),
            Token::GreaterOrEqual(p) => TokenView::GreaterOrEqual(*p as nat),
            Token::Greater(p) => TokenView::Greater(*p as nat),
            Token::Little(p) => TokenView::Little(*p as nat),
            Token::LittleOrEqual(p) => TokenView::LittleOrEqual(*p as nat),
            Token::NotEqual(p) => TokenView::NotEqual(*p as nat),
            Token::And(p) => TokenView::And(*p as nat),
            Token::Or(p) => TokenView::Or(*p as nat),
            Token::Whitespace(p) => TokenView::Whitespace(*p as nat),
        }
    }
}

pub(crate) fn clone_chars(v: &Vec<char>) -> (r: Vec<char>)
    ensures
        r@ == v@,
{
    let mut r: Vec<char> = Vec::new();
    let mut i: usize = 0;
    while i < v.len()
        invariant
            i <= v@.len(),
            r@ == v@.take(i as int),
        decreases v@.len() - i,
    {
        r.push(v[i]);
        i = i + 1;
        assert(r@ =~= v@.take(i as int));
    }
    assert(v@.take(v@.len() as int) =~= v@);
    r
}

impl Clone for Token {
    fn clone(&self) -> (r: Self)
        ensures
            r@ == self@,
    {
        match self {
            Token::Absolute(p) => Token::Absolute(*p),
            Token::Relative(p) => Token::Relative(*p),
            Token::At(p) => Token::At(*p),
            Token::OpenArray(p) => Token::OpenArray(*p),
            Token::CloseArray(p) => Token::CloseArray(*p),
            Token::Asterisk(p) => Token::Asterisk(*p),
            Token::Question(p) => Token::Question(*p),
            Token::Comma(p) => Token::Comma(*p),
            Token::Split(p) => Token::Split(*p),
            Token::OpenParenthesis(p) => Token::OpenParenthesis(*p),
            Token::CloseParenthesis(p) => Token::CloseParenthesis(*p),
            Token::Key(p, v) => Token::Key(*p, clone_chars(v)),
            Token::DoubleQuoted(p, v) => Token::DoubleQuoted(*p, clone_chars(v)),
            Token::SingleQuoted(p, v) => Token::SingleQuoted(*p, clone_chars(v)),
            Token::Float(p, v) => Token::Float(*p, clone_chars(v)),
            Token::Equal(p) => Token::Equal(*p),
            Token::GreaterOrEqual(p) => Token::GreaterOrEqual(*p),
            Token::Greater(p) => Token::Greater(*p),
            Token::Little(p) => Token::Little(*p),
            Token::LittleOrEqual(p) => Token::LittleOrEqual(*p),
            Token::NotEqual(p) => Token::NotEqual(*p),
            Token::And(p) => Token::And(*p),
            Token::Or(p) => Token::Or(*p),
            Token::Whitespace(p) => Token::Whitespace(*p),
        }
    }
}

/// The name of each kind of token. Parentheses share the names of the
/// brackets.
pub open spec fn alias_name(t: TokenView) -> Seq<char> {
    match t {
        TokenView::Absolute(_) => ABSOLUTE@,
        TokenView::Relative(_) => RELATIVE@,
        TokenView::At(_) => AT@,
        TokenView::OpenArray(_) => OPEN_ARRAY@,
        TokenView::CloseArray(_) => CLOSE_ARRAY@,
        TokenView::Asterisk(_) => ASTERISK@,
        TokenView::Question(_) => QUESTION@,
        TokenView::Comma(_) => COMMA@,
        TokenView::Split(_) => SPLIT@,
        TokenView::OpenParenthesis(_) => OPEN_ARRAY@,
        TokenView::CloseParenthesis(_) => CLOSE_ARRAY@,
        TokenView::Key(_, _) => KEY@,
        TokenView::DoubleQuoted(_, _) => STRING@,
        TokenView::SingleQuoted(_, _) => SINGLE_QUOTA_LITERAL@,
        TokenView::Float(_, _) => FLOAT@,
        TokenView::Equal(_) => EQUAL@,
        TokenView::GreaterOrEqual(_) => GREATER_OR_EQUAL@,
        TokenView::Greater(_) => GREATER@,
        TokenView::Little(_) => LITTLE@,
        TokenView::LittleOrEqual(_) => LITTLE_OR_EQUAL@,
        TokenView::NotEqual(_) => NOT_EQUAL@,
        TokenView::And(_) => AND@,
        TokenView::Or(_) => OR@,
        TokenView::Whitespace(_) => WHITESPACE@,
    }
}

/// The names of the kinds of tokens that the parser asks for belong to
/// those kinds alone.
pub proof fn lemma_alias_names(t: TokenView)
    ensures
        (alias_name(t) == QUESTION@) <==> t is Question,
        (alias_name(t) == COMMA@) <==> t is Comma,
        (alias_name(t) == SPLIT@) <==> t is Split,
        (alias_name(t) == KEY@) <==> t is Key,
        (alias_name(t) == WHITESPACE@) <==> t is Whitespace,
{
    reveal_strlit("Absolute");
    reveal_strlit("Relative");
    reveal_strlit("At");
    reveal_strlit("OpenArray");
    reveal_strlit("CloseArray");
    reveal_strlit("Asterisk");
    reveal_strlit("Question");
    reveal_strlit("Comma");
    reveal_strlit("Split");
    reveal_strlit("Key");
    reveal_strlit("String");
    reveal_strlit("SingleQuotaLiteral");
    reveal_strlit("Float");
    reveal_strlit("Equal");
    reveal_strlit("GreaterOrEqual");
    reveal_strlit("Greater");
    reveal_strlit("Little");
    reveal_strlit("LittleOrEqual");
    reveal_strlit("NotEqual");
    reveal_strlit("And");
    reveal_strlit("Or");
    reveal_strlit("Whitespace");
    assert(alias_name(t).len() > 0);
    assert(alias_name(t)[0] == QUESTION@[0] ==> alias_name(t).len() != QUESTION@.len() || t is Question);
    assert(alias_name(t)[0] == COMMA@[0] ==> alias_name(t).len() != COMMA@.len() || t is Comma);
}

impl Token {
    /// Whether the token is of the kind named `type_str`.
    pub fn alias_of(&self, type_str: &'static str) -> (r: bool)
        ensures
            r == (alias_name(self@) == type_str@),
    {
        str_equal(self.to_alias(), type_str)
    }

    fn to_alias(&self) -> (s: &'static str)
        ensures
            s@ == alias_name(self@),
    {
        match self {
            Token::Absolute(_) => ABSOLUTE,
            Token::Relative(_) => RELATIVE,
            Token::At(_) => AT,
            Token::OpenArray(_) => OPEN_ARRAY,
            Token::CloseArray(_) => CLOSE_ARRAY,
            Token::Asterisk(_) => ASTERISK,
            Token::Question(_) => QUESTION,
            Token::Comma(_) => COMMA,
            Token::Split(_) => SPLIT,
            Token::OpenParenthesis(_) => OPEN_ARRAY,
            Token::CloseParenthesis(_) => CLOSE_ARRAY,
            Token::Key(_, _) => KEY,
            Token::DoubleQuoted(_, _) => STRING,
            Token::SingleQuoted(_, _) => SINGLE_QUOTA_LITERAL,
            Token::Float(_, _) => FLOAT,
            Token::Equal(_) => EQUAL,
            Token::GreaterOrEqual(_) => GREATER_OR_EQUAL,
            Token::Greater(_) => GREATER,
            Token::Little(_) => LITTLE,
            Token::LittleOrEqual(_) => LITTLE_OR_EQUAL,
            Token::NotEqual(_) => NOT_EQUAL,
            Token::And(_) => AND,
            Token::Or(_) => OR,
            Token::Whitespace(_) => WHITESPACE,
        }
    }
}

/// The token that a single character makes on its own, if any.
pub open spec fn simple_token(ch: char, pos: nat) -> Option<TokenView> {
    if ch == '$' {
        Some(TokenView::Absolute(pos))
    } else if ch == '.' {
        Some(TokenView::Relative(pos))
    } else if ch == '*' {
        Some(TokenView::Asterisk(pos))
    } else if ch == '[' {
        Some(TokenView::OpenArray(pos))
    } else if ch == ']' {
        Some(TokenView::CloseArray(pos))
    } else if ch == '(' {
        Some(TokenView::OpenParenthesis(pos))
    } else if ch == ')' {
        Some(TokenView::CloseParenthesis(pos))
    } else if ch == '@' {
        Some(TokenView::At(pos))
    } else if ch == '?' {
        Some(TokenView::Question(pos))
    } else if ch == ',' {
        Some(TokenView::Comma(pos))
    } else if ch == ':' {
        Some(TokenView::Split(pos))
    } else {
        None
    }
}

fn simple_matched_token(ch: char, pos: usize) -> (r: Option<Token>)
    ensures
        match r {
            Some(t) => simple_token(ch, pos as nat) == Some(t@),
            None => simple_token(ch, pos as nat) is None,
        },
{
    match ch {
        '$' => Some(Token::Absolute(pos)),
        '.' => Some(Token::Relative(pos)),
        '*' => Some(Token::Asterisk(pos)),
        '[' => Some(Token::OpenArray(pos)),
        ']' => Some(Token::CloseArray(pos)),
        '(' => Some(Token::OpenParenthesis(pos)),
        ')' => Some(Token::CloseParenthesis(pos)),
        '@' => Some(Token::At(pos)),
        '?' => Some(Token::Question(pos)),
        ',' => Some(Token::Comma(pos)),
        ':' => Some(Token::Split(pos)),
        _ => None,
    }
}

/// Whether `char::is_numeric` holds of `c` (Unicode `Nd`, `Nl` or `No`).
pub uninterp spec fn is_numeric_char(c: char) -> bool;

/// `char::is_numeric`.
#[verifier::external_body]
fn char_is_numeric(c: char) -> (r: bool)
    ensures
        r == is_numeric_char(c),
{
    c.is_numeric()
}

/// What `take_while` with the predicate `p` gives back and leaves.
pub open spec fn take_spec(st: ReadState, p: spec_fn(char) -> bool) -> (
    Result<(nat, Seq<char>), Error>,
    ReadState,
) {
    take_outcome(st, take_while_len(st.rest, p))
}

/// The peeked character of a state.
pub open spec fn peek_spec(st: ReadState) -> Result<(nat, char), Error> {
    next_outcome(st).0
}

/// A quoted text whose opening quote `ch` at `pos` has been read.
pub open spec fn lex_quoted(st: ReadState, pos: nat, ch: char) -> (Result<TokenView, Error>, ReadState) {
    let (r, s2) = take_spec(st, not_char(ch));
    match r {
        Err(e) => (Err(e), s2),
        Ok((_, v)) => {
            let (r3, s3) = next_outcome(s2);
            match r3 {
                Err(e) => (Err(e), s3),
                Ok(_) => (
                    Ok(
                        if ch == '\'' {
                            TokenView::SingleQuoted(pos, v)
                        } else {
                            TokenView::DoubleQuoted(pos, v)
                        },
                    ),
                    s3,
                ),
            }
        },
    }
}

/// An operator of two characters whose first one has been read: with
/// `second` next it is `tok`, else an error at `pos`.
pub open spec fn lex_double(st: ReadState, pos: nat, second: char, tok: TokenView) -> (
    Result<TokenView, Error>,
    ReadState,
) {
    match peek_spec(st) {
        Err(e) => (Err(e), st),
        Ok((_, c)) => if c == second {
            (Ok(tok), next_outcome(st).1)
        } else {
            (Err(Error::Position(pos as usize)), st)
        },
    }
}

/// A comparison whose first character has been read: with `=` next it is
/// `both`; before a space, a quote or a numeric character it is `single`.
pub open spec fn lex_compare(st: ReadState, pos: nat, both: TokenView, single: TokenView) -> (
    Result<TokenView, Error>,
    ReadState,
) {
    match peek_spec(st) {
        Err(e) => (Err(e), st),
        Ok((_, c)) => if c == '=' {
            (Ok(both), next_outcome(st).1)
        } else if is_whitespace_char(c) || c == '\'' || c == '"' || is_numeric_char(c) {
            (Ok(single), st)
        } else {
            (Err(Error::Position(pos as usize)), st)
        },
    }
}

/// Whether a token before a space makes that space an error.
pub open spec fn blocks_space(prev: Option<TokenView>) -> bool {
    match prev {
        Some(TokenView::Absolute(_)) | Some(TokenView::At(_)) | Some(TokenView::Relative(_))
        | Some(TokenView::Question(_)) => true,
        _ => false,
    }
}

/// A key, or a number with a fraction, whose first character `ch` at
/// `pos` has been read.
pub open spec fn lex_other(st: ReadState, pos: nat, ch: char) -> (Result<TokenView, Error>, ReadState) {
    let (r, s2) = take_spec(st, key_pred());
    match r {
        Err(e) => (Err(e), s2),
        Ok((_, v0)) => {
            let v = seq![ch] + v0;
            let is_float = match peek_spec(s2) {
                Ok((_, c)) => c == '.' && parse_isize(v) is Some,
                Err(_) => false,
            };
            if is_float {
                let s3 = next_outcome(s2).1;
                let (r4, s4) = take_spec(s3, key_pred());
                match r4 {
                    Err(e) => (Err(e), s4),
                    Ok((p4, d)) => if d.len() == 0 {
                        (Err(Error::Position(p4 as usize)), s4)
                    } else {
                        (Ok(TokenView::Key(pos, v.push('.') + d)), s4)
                    },
                }
            } else {
                (Ok(TokenView::Key(pos, v)), s2)
            }
        },
    }
}

/// The next token of the reader state `st` after the token `prev`, and
/// the state that reading it leaves.
pub open spec fn lex(st: ReadState, prev: Option<TokenView>) -> (Result<TokenView, Error>, ReadState) {
    let (r, s1) = next_outcome(st);
    match r {
        Err(e) => (Err(e), s1),
        Ok((pos, ch)) => match simple_token(ch, pos) {
            Some(t) => (Ok(t), s1),
            None => if ch == '\'' || ch == '"' {
                lex_quoted(s1, pos, ch)
            } else if ch == '=' {
                lex_double(s1, pos, '=', TokenView::Equal(pos))
            } else if ch == '>' {
                lex_compare(s1, pos, TokenView::GreaterOrEqual(pos), TokenView::Greater(pos))
            } else if ch == '<' {
                lex_compare(s1, pos, TokenView::LittleOrEqual(pos), TokenView::Little(pos))
            } else if ch == '&' {
                lex_double(s1, pos, '&', TokenView::And(pos))
            } else if ch == '|' {
                lex_double(s1, pos, '|', TokenView::Or(pos))
            } else if ch == '!' {
                lex_double(s1, pos, '=', TokenView::NotEqual(pos))
            } else if is_whitespace_char(ch) {
                (
                    if blocks_space(prev) {
                        Err(Error::Position(pos as usize))
                    } else {
                        Ok(TokenView::Whitespace(pos))
                    },
                    s1,
                )
            } else {
                lex_other(s1, pos, ch)
            },
        },
    }
}

pub open spec fn token_result_view(r: Result<Token, Error>) -> Result<TokenView, Error> {
    match r {
        Ok(t) => Ok(t@),
        Err(e) => Err(e),
    }
}

pub open spec fn option_view(t: Option<Token>) -> Option<TokenView> {
    match t {
        Some(t) => Some(t@),
        None => None,
    }
}


proof fn lemma_take<F: Fn(&char) -> bool>(
    fun: F,
    p: spec_fn(char) -> bool,
    st: ReadState,
    r: Result<(nat, Seq<char>), Error>,
    st2: ReadState,
)
    requires
        exists|n: nat| #[trigger] accepted_prefix(fun, st.rest, n) && (r, st2) == take_outcome(st, n),
        forall|c: char, b: bool| call_ensures(fun, (&c,), b) ==> b == p(c),
    ensures
        (r, st2) == take_spec(st, p),
{
    let n = choose|n: nat| #[trigger] accepted_prefix(fun, st.rest, n) && (r, st2) == take_outcome(st, n);
    assert forall|i: int| 0 <= i < n implies p(#[trigger] st.rest[i]) by {
        assert(call_ensures(fun, (&st.rest[i],), true));
    }
    if n < st.rest.len() {
        assert(call_ensures(fun, (&st.rest[n as int],), false));
    }
    lemma_take_while_len(st.rest, p, n);
}

/// Reads the tokens of a path string, one at a time.
pub struct Tokenizer<'a> {
    input: PathReader<'a>,
    prev_token: Option<Token>,
    error: Option<Error>,
}

impl<'a> Tokenizer<'a> {
    /// The state of the reader.
    pub closed spec fn state(&self) -> ReadState {
        self.input.state()
    }

    /// The last token read that was not a space.
    pub closed spec fn prev(&self) -> Option<TokenView> {
        option_view(self.prev_token)
    }

    /// The error that the last failing read recorded.
    pub closed spec fn last_error(&self) -> Option<Error> {
        self.error
    }

    /// Reading what is left cannot move the offset past `usize::MAX`.
    pub closed spec fn fits(&self) -> bool {
        self.input.fits()
    }

    /// The offset plus the width of what is left is the whole length.
    pub closed spec fn wf(&self) -> bool {
        self.input.wf()
    }

    pub proof fn lemma_wf_fits(&self)
        requires
            self.wf(),
        ensures
            self.fits(),
    {
        self.input.lemma_wf_fits();
    }

    pub fn new(input: &'a str) -> (t: Self)
        ensures
            t.state() == (ReadState { rest: input@, pos: 0, len: str_width(input@) }),
            t.prev() is None,
            t.last_error() is None,
            t.wf(),
    {
        Tokenizer { input: PathReader::new(input), prev_token: None, error: None }
    }

    pub fn get_error(&self) -> (r: Option<&Error>)
        ensures
            match r {
                Some(e) => self.last_error() == Some(*e),
                None => self.last_error() is None,
            },
    {
        match &self.error {
            Some(e) => Some(e),
            None => None,
        }
    }

    fn quoted(&mut self, pos: usize, ch: char) -> (res: Result<Vec<char>, Error>)
        requires
            old(self).fits(),
        ensures
            ({
                let (r, s2) = take_spec(old(self).state(), not_char(ch));
                match r {
                    Err(e) => res == Err::<Vec<char>, Error>(e) && final(self).state() == s2,
                    Ok((_, v)) => {
                        let (r3, s3) = next_outcome(s2);
                        &&& final(self).state() == s3
                        &&& match r3 {
                            Err(e) => res == Err::<Vec<char>, Error>(e),
                            Ok(_) => res matches Ok(w) && w@ == v,
                        }
                    },
                }
            }),
            final(self).prev_token == old(self).prev_token,
            final(self).error == old(self).error,
            res is Ok ==> final(self).fits(),
            old(self).wf() && res is Ok ==> final(self).wf(),
    {
        let ghost s0 = self.input.state();
        let f = |c: &char| -> (b: bool)
            ensures
                b == (*c != ch),
            { *c != ch };
        let tw = self.input.take_while(f);
        proof {
            lemma_take(f, not_char(ch), s0, take_view(tw), self.input.state());
        }
        let vec = match tw {
            Ok((_, v)) => v,
            Err(e) => return Err(e),
        };
        match self.input.next_char() {
            Ok(_) => Ok(vec),
            Err(e) => Err(e),
        }
    }

    fn single_quota(&mut self, pos: usize, ch: char) -> (res: Result<Token, Error>)
        requires
            old(self).fits(),
            ch == '\'',
        ensures
            (token_result_view(res), final(self).state()) == lex_quoted(
                old(self).state(),
                pos as nat,
                ch,
            ),
            final(self).prev_token == old(self).prev_token,
            final(self).error == old(self).error,
            res is Ok ==> final(self).fits(),
            old(self).wf() && res is Ok ==> final(self).wf(),
    {
        match self.quoted(pos, ch) {
            Ok(vec) => Ok(Token::SingleQuoted(pos, vec)),
            Err(e) => Err(e),
        }
    }

    fn double_quota(&mut self, pos: usize, ch: char) -> (res: Result<Token, Error>)
        requires
            old(self).fits(),
            ch == '"',
        ensures
            (token_result_view(res), final(self).state()) == lex_quoted(
                old(self).state(),
                pos as nat,
                ch,
            ),
            final(self).prev_token == old(self).prev_token,
            final(self).error == old(self).error,
            res is Ok ==> final(self).fits(),
            old(self).wf() && res is Ok ==> final(self).wf(),
    {
        match self.quoted(pos, ch) {
            Ok(vec) => Ok(Token::DoubleQuoted(pos, vec)),
            Err(e) => Err(e),
        }
    }

    /// Reads `second` after the first character of an operator, or fails
    /// at `pos`.
    fn expect(&mut self, pos: usize, second: char) -> (res: Result<(), Error>)
        requires
            old(self).fits(),
        ensures
            match peek_spec(old(self).state()) {
                Err(e) => res == Err::<(), Error>(e) && final(self).state() == old(self).state(),
                Ok((_, c)) => if c == second {
                    res is Ok && final(self).state() == next_outcome(old(self).state()).1
                } else {
                    res == Err::<(), Error>(Error::Position(pos)) && final(self).state() == old(
                        self,
                    ).state()
                },
            },
            final(self).prev_token == old(self).prev_token,
            final(self).error == old(self).error,
            final(self).fits(),
            old(self).wf() ==> final(self).wf(),
    {
        let (_, ch) = match self.input.peek_char() {
            Ok(x) => x,
            Err(e) => return Err(e),
        };
        if ch == second {
            match self.input.next_char() {
                Ok(_) => Ok(()),
                Err(e) => Err(e),
            }
        } else {
            Err(Error::Position(pos))
        }
    }

    fn equal(&mut self, pos: usize, _ch: char) -> (res: Result<Token, Error>)
        requires
            old(self).fits(),
        ensures
            (token_result_view(res), final(self).state()) == lex_double(
                old(self).state(),
                pos as nat,
                '=',
                TokenView::Equal(pos as nat),
            ),
            final(self).prev_token == old(self).prev_token,
            final(self).error == old(self).error,
            final(self).fits(),
            old(self).wf() ==> final(self).wf(),
    {
        match self.expect(pos, '=') {
            Ok(_) => Ok(Token::Equal(pos)),
            Err(e) => Err(e),
        }
    }

    fn not_equal(&mut self, pos: usize, _ch: char) -> (res: Result<Token, Error>)
        requires
            old(self).fits(),
        ensures
            (token_result_view(res), final(self).state()) == lex_double(
                old(self).state(),
                pos as nat,
                '=',
                TokenView::NotEqual(pos as nat),
            ),
            final(self).prev_token == old(self).prev_token,
            final(self).error == old(self).error,
            final(self).fits(),
            old(self).wf() ==> final(self).wf(),
    {
        match self.expect(pos, '=') {
            Ok(_) => Ok(Token::NotEqual(pos)),
            Err(e) => Err(e),
        }
    }

    fn and(&mut self, pos: usize, _ch: char) -> (res: Result<Token, Error>)
        requires
            old(self).fits(),
        ensures
            (token_result_view(res), final(self).state()) == lex_double(
                old(self).state(),
                pos as nat,
                '&',
                TokenView::And(pos as nat),
            ),
            final(self).prev_token == old(self).prev_token,
            final(self).error == old(self).error,
            final(self).fits(),
            old(self).wf() ==> final(self).wf(),
    {
        match self.expect(pos, '&') {
            Ok(_) => Ok(Token::And(pos)),
            Err(e) => Err(e),
        }
    }

    fn or(&mut self, pos: usize, _ch: char) -> (res: Result<Token, Error>)
        requires
            old(self).fits(),
        ensures
            (token_result_view(res), final(self).state()) == lex_double(
                old(self).state(),
                pos as nat,
                '|',
                TokenView::Or(pos as nat),
            ),
            final(self).prev_token == old(self).prev_token,
            final(self).error == old(self).error,
            final(self).fits(),
            old(self).wf() ==> final(self).wf(),
    {
        match self.expect(pos, '|') {
            Ok(_) => Ok(Token::Or(pos)),
            Err(e) => Err(e),
        }
    }

    /// After `>` or `<`: `=` makes the operator of two characters; a
    /// space, a quote or a numeric character leaves the one of one
    /// character.
    fn compare(&mut self, pos: usize) -> (res: Result<bool, Error>)
        requires
            old(self).fits(),
        ensures
            match peek_spec(old(self).state()) {
                Err(e) => res == Err::<bool, Error>(e) && final(self).state() == old(self).state(),
                Ok((_, c)) => if c == '=' {
                    res == Ok::<bool, Error>(true) && final(self).state() == next_outcome(
                        old(self).state(),
                    ).1
                } else if is_whitespace_char(c) || c == '\'' || c == '"' || is_numeric_char(c) {
                    res == Ok::<bool, Error>(false) && final(self).state() == old(self).state()
                } else {
                    res == Err::<bool, Error>(Error::Position(pos)) && final(self).state() == old(
                        self,
                    ).state()
                },
            },
            final(self).prev_token == old(self).prev_token,
            final(self).error == old(self).error,
            final(self).fits(),
            old(self).wf() ==> final(self).wf(),
    {
        let (_, ch) = match self.input.peek_char() {
            Ok(x) => x,
            Err(e) => return Err(e),
        };
        if ch == '=' {
            match self.input.next_char() {
                Ok(_) => Ok(true),
                Err(e) => Err(e),
            }
        } else if char_is_whitespace(ch) || ch == '\'' || ch == '"' || char_is_numeric(ch) {
            Ok(false)
        } else {
            Err(Error::Position(pos))
        }
    }

    /// After `>`.
    fn little(&mut self, pos: usize, _ch: char) -> (res: Result<Token, Error>)
        requires
            old(self).fits(),
        ensures
            (token_result_view(res), final(self).state()) == lex_compare(
                old(self).state(),
                pos as nat,
                TokenView::GreaterOrEqual(pos as nat),
                TokenView::Greater(pos as nat),
            ),
            final(self).prev_token == old(self).prev_token,
            final(self).error == old(self).error,
            final(self).fits(),
            old(self).wf() ==> final(self).wf(),
    {
        match self.compare(pos) {
            Ok(true) => Ok(Token::GreaterOrEqual(pos)),
            Ok(false) => Ok(Token::Greater(pos)),
            Err(e) => Err(e),
        }
    }

    /// After `<`.
    fn greater(&mut self, pos: usize, _ch: char) -> (res: Result<Token, Error>)
        requires
            old(self).fits(),
        ensures
            (token_result_view(res), final(self).state()) == lex_compare(
                old(self).state(),
                pos as nat,
                TokenView::LittleOrEqual(pos as nat),
                TokenView::Little(pos as nat),
            ),
            final(self).prev_token == old(self).prev_token,
            final(self).error == old(self).error,
            final(self).fits(),
            old(self).wf() ==> final(self).wf(),
    {
        match self.compare(pos) {
            Ok(true) => Ok(Token::LittleOrEqual(pos)),
            Ok(false) => Ok(Token::Little(pos)),
            Err(e) => Err(e),
        }
    }

    fn whitespace(&mut self, pos: usize, _ch: char) -> (res: Result<Token, Error>)
        ensures
            token_result_view(res) == (if blocks_space(old(self).prev()) {
                Err::<TokenView, Error>(Error::Position(pos))
            } else {
                Ok::<TokenView, Error>(TokenView::Whitespace(pos as nat))
            }),
            *final(self) == *old(self),
    {
        match self.prev_token {
            Some(Token::Absolute(_)) | Some(Token::At(_)) | Some(Token::Relative(_)) | Some(
                Token::Question(_),
            ) => Err(Error::Position(pos)),
            _ => Ok(Token::Whitespace(pos)),
        }
    }

    fn other(&mut self, pos: usize, ch: char) -> (res: Result<Token, Error>)
        requires
            old(self).fits(),
        ensures
            (token_result_view(res), final(self).state()) == lex_other(
                old(self).state(),
                pos as nat,
                ch,
            ),
            final(self).prev_token == old(self).prev_token,
            final(self).error == old(self).error,
            res is Ok ==> final(self).fits(),
            old(self).wf() && res is Ok ==> final(self).wf(),
    {
        let ghost s0 = self.input.state();
        let fun = |c: &char| -> (b: bool)
            ensures
                b == is_key_char(*c),
            {
                match simple_matched_token(*c, pos) {
                    Some(_) => false,
                    _ => if *c == '<' || *c == '>' || *c == '=' || *c == '&' || *c == '|' || *c
                        == '!' {
                        false
                    } else {
                        !char_is_whitespace(*c)
                    },
                }
            };
        let tw = self.input.take_while(fun);
        proof {
            lemma_take(fun, key_pred(), s0, take_view(tw), self.input.state());
        }
        let mut vec = match tw {
            Ok((_, v)) => v,
            Err(e) => return Err(e),
        };
        let ghost v0 = vec@;
        vec.insert(0, ch);
        assert(vec@ =~= seq![ch] + v0);
        let ghost s2 = self.input.state();
        let is_float = match self.input.peek_char() {
            Ok((_, c)) => c == '.' && match vec_to_number(&vec) {
                Ok(_) => true,
                Err(_) => false,
            },
            _ => false,
        };
        if is_float {
            match self.input.next_char() {
                Ok(_) => {},
                Err(e) => return Err(e),
            }
            let ghost s3 = self.input.state();
            let tw2 = self.input.take_while(fun);
            proof {
                lemma_take(fun, key_pred(), s3, take_view(tw2), self.input.state());
            }
            let (p2, decimal) = match tw2 {
                Ok(x) => x,
                Err(e) => return Err(e),
            };
            if decimal.len() == 0 {
                return Err(Error::Position(p2));
            }
            let ghost v1 = vec@.push('.');
            vec.push('.');
            let mut i: usize = 0;
            while i < decimal.len()
                invariant
                    i <= decimal@.len(),
                    vec@ == v1 + decimal@.take(i as int),
                decreases decimal@.len() - i,
            {
                vec.push(decimal[i]);
                i = i + 1;
                assert(vec@ =~= v1 + decimal@.take(i as int));
            }
            assert(decimal@.take(decimal@.len() as int) =~= decimal@);
        }
        Ok(Token::Key(pos, vec))
    }

    /// Reads the next token. A failure, but for the end of the input before
    /// the token starts, is recorded as the tokenizer's error; a token
    /// that is not a space is recorded as the previous token.
    pub fn next_token(&mut self) -> (res: Result<Token, Error>)
        requires
            old(self).fits(),
        ensures
            ({
                let (r, st) = lex(old(self).state(), old(self).prev());
                &&& token_result_view(res) == r
                &&& final(self).state() == st
                &&& final(self).prev() == next_prev(old(self).prev(), r)
                &&& final(self).last_error() == (if old(self).state().rest.len() == 0 {
                    old(self).last_error()
                } else {
                    next_error(old(self).last_error(), r)
                })
            }),
            res is Ok ==> final(self).fits(),
            res is Ok ==> final(self).state().rest.len() < old(self).state().rest.len(),
            old(self).wf() && res is Ok ==> final(self).wf(),
    {
        proof {
            law_token_read_takes_a_character(self.state(), self.prev());
        }
        let (pos, ch) = match self.input.next_char() {
            Ok(x) => x,
            Err(e) => return Err(e),
        };
        let result = match simple_matched_token(ch, pos) {
            Some(t) => Ok(t),
            None => match ch {
                '\'' => self.single_quota(pos, ch),
                '"' => self.double_quota(pos, ch),
                '=' => self.equal(pos, ch),
                '>' => self.little(pos, ch),
                '<' => self.greater(pos, ch),
                '&' => self.and(pos, ch),
                '|' => self.or(pos, ch),
                '!' => self.not_equal(pos, ch),
                _ if char_is_whitespace(ch) => self.whitespace(pos, ch),
                _ => self.other(pos, ch),
            },
        };
        match &result {
            Ok(Token::Whitespace(_)) => {},
            Ok(t) => {
                self.prev_token = Some(t.clone());
            },
            Err(e) => {
                self.error = Some(*e);
            },
        }
        result
    }

    /// The next token, or `None` once reading fails.
    pub fn next(&mut self) -> (res: Option<Token>)
        requires
            old(self).fits(),
        ensures
            ({
                let (r, st) = lex(old(self).state(), old(self).prev());
                &&& match r {
                    Ok(t) => res matches Some(u) && u@ == t,
                    Err(_) => res is None,
                }
                &&& final(self).state() == st
                &&& final(self).prev() == next_prev(old(self).prev(), r)
                &&& final(self).last_error() == (if old(self).state().rest.len() == 0 {
                    old(self).last_error()
                } else {
                    next_error(old(self).last_error(), r)
                })
            }),
            res is Some ==> final(self).fits(),
            res is Some ==> final(self).state().rest.len() < old(self).state().rest.len(),
            old(self).wf() && res is Some ==> final(self).wf(),
    {
        match self.next_token() {
            Ok(t) => Some(t),
            Err(_) => None,
        }
    }
}

/// The previous token after reading `r`.
pub open spec fn next_prev(prev: Option<TokenView>, r: Result<TokenView, Error>) -> Option<TokenView> {
    match r {
        Ok(TokenView::Whitespace(_)) => prev,
        Ok(t) => Some(t),
        Err(_) => prev,
    }
}

/// The recorded error after reading `r`.
pub open spec fn next_error(err: Option<Error>, r: Result<TokenView, Error>) -> Option<Error> {
    match r {
        Err(e) => Some(e),
        Ok(_) => err,
    }
}

proof fn lemma_take_shrinks(st: ReadState, p: spec_fn(char) -> bool)
    ensures
        take_spec(st, p).1.rest.len() <= st.rest.len(),
{
    let n = take_while_len(st.rest, p);
    lemma_take_while_len_bound(st.rest, p);
}

proof fn lemma_take_while_len_bound(s: Seq<char>, p: spec_fn(char) -> bool)
    ensures
        take_while_len(s, p) <= s.len(),
    decreases s.len(),
{
    if s.len() > 0 && p(s[0]) {
        lemma_take_while_len_bound(s.drop_first(), p);
    }
}

/// Reading a token takes at least one character.
pub proof fn law_token_read_takes_a_character(st: ReadState, prev: Option<TokenView>)
    ensures
        lex(st, prev).0 is Ok ==> lex(st, prev).1.rest.len() < st.rest.len(),
{
    let (r, s1) = next_outcome(st);
    if r is Ok {
        let (pos, ch) = r->Ok_0;
        lemma_take_shrinks(s1, not_char(ch));
        lemma_take_shrinks(s1, key_pred());
        let (r2, s2) = take_spec(s1, key_pred());
        lemma_take_shrinks(next_outcome(s2).1, key_pred());
    }
}

/// The offset at which a token starts.
pub open spec fn token_pos(t: TokenView) -> nat {
    match t {
        TokenView::Absolute(p) | TokenView::Relative(p) | TokenView::At(p) | TokenView::OpenArray(p)
        | TokenView::CloseArray(p) | TokenView::Asterisk(p) | TokenView::Question(p)
        | TokenView::Comma(p) | TokenView::Split(p) | TokenView::OpenParenthesis(p)
        | TokenView::CloseParenthesis(p) | TokenView::Equal(p) | TokenView::GreaterOrEqual(p)
        | TokenView::Greater(p) | TokenView::Little(p) | TokenView::LittleOrEqual(p)
        | TokenView::NotEqual(p) | TokenView::And(p) | TokenView::Or(p) | TokenView::Whitespace(
            p,
        ) => p,
        TokenView::Key(p, _) | TokenView::DoubleQuoted(p, _) | TokenView::SingleQuoted(p, _)
        | TokenView::Float(p, _) => p,
    }
}

/// Every token that is read reports the offset at which reading it
/// started.
pub proof fn law_token_starts_at_offset(st: ReadState, prev: Option<TokenView>)
    ensures
        lex(st, prev).0 matches Ok(t) ==> token_pos(t) == st.pos,
{
}

} // verus!
