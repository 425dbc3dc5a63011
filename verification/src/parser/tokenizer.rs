use vstd::prelude::*;

use super::path_reader::{
    char_width, lemma_str_width_split, str_byte_len, str_width, PathReader, ReaderError,
};

verus! {

pub const ABSOLUTE: &'static str = "$";
pub const DOT: &'static str = ".";
pub const AT: &'static str = "@";
pub const OPEN_ARRAY: &'static str = "[";
pub const CLOSE_ARRAY: &'static str = "]";
pub const ASTERISK: &'static str = "*";
pub const QUESTION: &'static str = "?";
pub const COMMA: &'static str = ",";
pub const SPLIT: &'static str = ":";
pub const OPEN_PARENTHESIS: &'static str = "(";
pub const CLOSE_PARENTHESIS: &'static str = ")";
pub const KEY: &'static str = "Key";
pub const DOUBLE_QUOTE: &'static str = "\"";
pub const SINGLE_QUOTE: &'static str = "'";
pub const EQUAL: &'static str = "==";
pub const GREATER_OR_EQUAL: &'static str = ">=";
pub const GREATER: &'static str = ">";
pub const LITTLE: &'static str = "<";
pub const LITTLE_OR_EQUAL: &'static str = "<=";
pub const NOT_EQUAL: &'static str = "!=";
pub const AND: &'static str = "&&";
pub const OR: &'static str = "||";
pub const WHITESPACE: &'static str = " ";

#[derive(Debug, Clone, Copy, PartialEq, Eq)]
pub enum TokenError {
    Eof,
    Position(usize),
}

fn to_token_error(read_err: ReaderError) -> (e: TokenError)
    ensures
        e == TokenError::Eof,
{
    match read_err {
        ReaderError::Eof => TokenError::Eof,
    }
}

#[derive(Debug, PartialEq)]
pub enum Token {
    Absolute(usize),
    Dot(usize),
    At(usize),
    OpenArray(usize),
    CloseArray(usize),
    Asterisk(usize),
    Question(usize),
    Comma(usize),
    Split(usize),
    OpenParenthesis(usize),
    CloseParenthesis(usize),
    Key(usize, String),
    DoubleQuoted(usize, String),
    SingleQuoted(usize, String),
    Equal(usize),
    GreaterOrEqual(usize),
    Greater(usize),
    Little(usize),
    LittleOrEqual(usize),
    NotEqual(usize),
    And(usize),
    Or(usize),
    Whitespace(usize, usize),
}

/// A token as a mathematical value: offsets are naturals and texts are
/// sequences of characters.
pub enum TokenView {
    Absolute(nat),
    Dot(nat),
    At(nat),
    OpenArray(nat),
    CloseArray(nat),
    Asterisk(nat),
    Question(nat),
    Comma(nat),
    Split(nat),
    OpenParenthesis(nat),
    CloseParenthesis(nat),
    Key(nat, Seq<char>),
    DoubleQuoted(nat, Seq<char>),
    SingleQuoted(nat, Seq<char>),
    Equal(nat),
    GreaterOrEqual(nat),
    Greater(nat),
    Little(nat),
    LittleOrEqual(nat),
    NotEqual(nat),
    And(nat),
    Or(nat),
    Whitespace(nat, nat),
}

impl View for Token {
    type V = TokenView;

    open spec fn view(&self) -> TokenView {
        match self {
            Token::Absolute(p) => TokenView::Absolute(*p as nat),
            Token::Dot(p) => TokenView::Dot(*p as nat),
            Token::At(p) => TokenView::At(*p as nat),
            Token::OpenArray(p) => TokenView::OpenArray(*p as nat),
            Token::CloseArray(p) => TokenView::CloseArray(*p as nat),
            Token::Asterisk(p) => TokenView::Asterisk(*p as nat),
            Token::Question(p) => TokenView::Question(*p as nat),
            Token::Comma(p) => TokenView::Comma(*p as nat),
            Token::Split(p) => TokenView::Split(*p as nat),
            Token::OpenParenthesis(p) => TokenView::OpenParenthesis(*p as nat),
            Token::CloseParenthesis(p) => TokenView::CloseParenthesis(*p as nat),
            Token::Key(p, s) => TokenView::Key(*p as nat, s@),
            Token::DoubleQuoted(p, s) => TokenView::DoubleQuoted(*p as nat, s@),
            Token::SingleQuoted(p, s) => TokenView::SingleQuoted(*p as nat, s@),
            Token::Equal(p) => TokenView::Equal(*p as nat),
            Token::GreaterOrEqual(p) => TokenView::GreaterOrEqual(*p as nat),
            Token::Greater(p) => TokenView::Greater(*p as nat),
            Token::Little(p) => TokenView::Little(*p as nat),
            Token::LittleOrEqual(p) => TokenView::LittleOrEqual(*p as nat),
            Token::NotEqual(p) => TokenView::NotEqual(*p as nat),
            Token::And(p) => TokenView::And(*p as nat),
            Token::Or(p) => TokenView::Or(*p as nat),
            Token::Whitespace(p, n) => TokenView::Whitespace(*p as nat, *n as nat),
        }
    }
}

/// The name under which each kind of token is known (its "simple" form).
pub open spec fn simple_name(t: TokenView) -> Seq<char> {
    match t {
        TokenView::Absolute(_) => seq!['$'],
        TokenView::Dot(_) => seq!['.'],
        TokenView::At(_) => seq!['@'],
        TokenView::OpenArray(_) => seq!['['],
        TokenView::CloseArray(_) => seq![']'],
        TokenView::Asterisk(_) => seq!['*'],
        TokenView::Question(_) => seq!['?'],
        TokenView::Comma(_) => seq![','],
        TokenView::Split(_) => seq![':'],
        TokenView::OpenParenthesis(_) => seq!['('],
        TokenView::CloseParenthesis(_) => seq![')'],
        TokenView::Key(_, _) => seq!['K', 'e', 'y'],
        TokenView::DoubleQuoted(_, _) => seq!['"'],
        TokenView::SingleQuoted(_, _) => seq!['\''],
        TokenView::Equal(_) => seq!['=', '='],
        TokenView::GreaterOrEqual(_) => seq!['>', '='],
        TokenView::Greater(_) => seq!['>'],
        TokenView::Little(_) => seq!['<'],
        TokenView::LittleOrEqual(_) => seq!['<', '='],
        TokenView::NotEqual(_) => seq!['!', '='],
        TokenView::And(_) => seq!['&', '&'],
        TokenView::Or(_) => seq!['|', '|'],
        TokenView::Whitespace(_, _) => seq![' '],
    }
}

/// Whether two `&str` hold the same characters.
pub(crate) fn str_equal(a: &str, b: &str) -> (r: bool)
    ensures
        r == (a@ == b@),
{
    let n = a.unicode_len();
    if n != b.unicode_len() {
        return false;
    }
    let mut i: usize = 0;
    while i < n
        invariant
            n == a@.len(),
            n == b@.len(),
            i <= n,
            forall|j: int| 0 <= j < i ==> a@[j] == b@[j],
        decreases n - i,
    {
        if a.get_char(i) != b.get_char(i) {
            return false;
        }
        i = i + 1;
    }
    assert(a@ =~= b@);
    true
}

impl Token {
    pub fn partial_eq(&self, other: Token) -> (r: bool)
        ensures
            r == (simple_name(self@) == simple_name(other@)),
    {
        str_equal(self.to_simple(), other.to_simple())
    }

    pub fn simple_eq(&self, str_token: &str) -> (r: bool)
        ensures
            r == (simple_name(self@) == str_token@),
    {
        str_equal(self.to_simple(), str_token)
    }

    fn to_simple(&self) -> (s: &'static str)
        ensures
            s@ == simple_name(self@),
    {
        match self {
            Token::Absolute(_) => {
                proof {
                    reveal_strlit("$");
                }
                "$"
            },
            Token::Dot(_) => {
                proof {
                    reveal_strlit(".");
                }
                "."
            },
            Token::At(_) => {
                proof {
                    reveal_strlit("@");
                }
                "@"
            },
            Token::OpenArray(_) => {
                proof {
                    reveal_strlit("[");
                }
                "["
            },
            Token::CloseArray(_) => {
                proof {
                    reveal_strlit("]");
                }
                "]"
            },
            Token::Asterisk(_) => {
                proof {
                    reveal_strlit("*");
                }
                "*"
            },
            Token::Question(_) => {
                proof {
                    reveal_strlit("?");
                }
                "?"
            },
            Token::Comma(_) => {
                proof {
                    reveal_strlit(",");
                }
                ","
            },
            Token::Split(_) => {
                proof {
                    reveal_strlit(":");
                }
                ":"
            },
            Token::OpenParenthesis(_) => {
                proof {
                    reveal_strlit("(");
                }
                "("
            },
            Token::CloseParenthesis(_) => {
                proof {
                    reveal_strlit(")");
                }
                ")"
            },
            Token::Key(_, _) => {
                proof {
                    reveal_strlit("Key");
                }
                "Key"
            },
            Token::DoubleQuoted(_, _) => {
                proof {
                    reveal_strlit("\"");
                }
                "\""
            },
            Token::SingleQuoted(_, _) => {
                proof {
                    reveal_strlit("'");
                }
                "'"
            },
            Token::Equal(_) => {
                proof {
                    reveal_strlit("==");
                }
                "=="
            },
            Token::GreaterOrEqual(_) => {
                proof {
                    reveal_strlit(">=");
                }
                ">="
            },
            Token::Greater(_) => {
                proof {
                    reveal_strlit(">");
                }
                ">"
            },
            Token::Little(_) => {
                proof {
                    reveal_strlit("<");
                }
                "<"
            },
            Token::LittleOrEqual(_) => {
                proof {
                    reveal_strlit("<=");
                }
                "<="
            },
            Token::NotEqual(_) => {
                proof {
                    reveal_strlit("!=");
                }
                "!="
            },
            Token::And(_) => {
                proof {
                    reveal_strlit("&&");
                }
                "&&"
            },
            Token::Or(_) => {
                proof {
                    reveal_strlit("||");
                }
                "||"
            },
            Token::Whitespace(_, _) => {
                proof {
                    reveal_strlit(" ");
                }
                " "
            },
        }
    }
}

/// `String::push`: appends `c` to the end of `s`.
#[verifier::external_body]
pub(crate) fn push_char(s: &mut String, c: char)
    ensures
        final(s)@ == old(s)@.push(c),
{
    s.push(c);
}

/// The characters that have the Unicode `White_Space` property, which is
/// what `char::is_whitespace` tests.
pub open spec fn is_whitespace_char(c: char) -> bool {
    let u = c as u32;
    ||| 0x9 <= u <= 0xD
    ||| u == 0x20
    ||| u == 0x85
    ||| u == 0xA0
    ||| u == 0x1680
    ||| 0x2000 <= u <= 0x200A
    ||| u == 0x2028
    ||| u == 0x2029
    ||| u == 0x202F
    ||| u == 0x205F
    ||| u == 0x3000
}

/// `char::is_whitespace`.
pub fn char_is_whitespace(c: char) -> (r: bool)
    ensures
        r == is_whitespace_char(c),
{
    let u = c as u32;
    (0x9 <= u && u <= 0xD) || u == 0x20 || u == 0x85 || u == 0xA0 || u == 0x1680 || (0x2000 <= u
        && u <= 0x200A) || u == 0x2028 || u == 0x2029 || u == 0x202F || u == 0x205F || u == 0x3000
}

/// The token that a single character makes on its own, if any.
pub open spec fn simple_token_spec(ch: char, pos: nat) -> Option<TokenView> {
    if ch == '$' {
        Some(TokenView::Absolute(pos))
    } else if ch == '.' {
        Some(TokenView::Dot(pos))
    } else if ch == '*' {
        Some(TokenView::Asterisk(pos))
    } else if ch == '[' {
        Some(TokenView::OpenArray(pos))
    } else if ch == ']' {
        Some(TokenView::CloseArray(pos))
    } else if ch == '(' {
        Some(TokenView::OpenParenthesis(pos))
    } else if ch == ')' {
        Some(TokenView::CloseParenthesis(pos))
    } else if ch == '@' {
        Some(TokenView::At(pos))
    } else if ch == '?' {
        Some(TokenView::Question(pos))
    } else if ch == ',' {
        Some(TokenView::Comma(pos))
    } else if ch == ':' {
        Some(TokenView::Split(pos))
    } else {
        None
    }
}

fn simple_matched_token(ch: char, pos: usize) -> (r: Option<Token>)
    ensures
        r is Some <==> simple_token_spec(ch, pos as nat) is Some,
        r is Some ==> simple_token_spec(ch, pos as nat) == Some(r->Some_0@),
{
    match ch {
        '$' => Some(Token::Absolute(pos)),
        '.' => Some(Token::Dot(pos)),
        '*' => Some(Token::Asterisk(pos)),
        '[' => Some(Token::OpenArray(pos)),
        ']' => Some(Token::CloseArray(pos)),
        '(' => Some(Token::OpenParenthesis(pos)),
        ')' => Some(Token::CloseParenthesis(pos)),
        '@' => Some(Token::At(pos)),
        '?' => Some(Token::Question(pos)),
        ',' => Some(Token::Comma(pos)),
        ':' => Some(Token::Split(pos)),
        _ => None,
    }
}

/// Characters that start a comparison or logical operator.
pub open spec fn is_operator_char(c: char) -> bool {
    c == '<' || c == '>' || c == '=' || c == '&' || c == '|' || c == '!'
}

/// Characters that may continue a key.
pub open spec fn is_key_char(c: char) -> bool {
    simple_token_spec(c, 0) is None && !is_operator_char(c) && !is_whitespace_char(c)
}

pub open spec fn not_char(ch: char) -> spec_fn(char) -> bool {
    |c: char| c != ch
}

pub open spec fn whitespace_pred() -> spec_fn(char) -> bool {
    |c: char| is_whitespace_char(c)
}

pub open spec fn key_pred() -> spec_fn(char) -> bool {
    |c: char| is_key_char(c)
}

/// Whether `char::is_alphanumeric` holds of `c` (Unicode `Alphabetic`, or
/// `Nd`, `Nl` or `No`).
pub uninterp spec fn is_alphanumeric_char(c: char) -> bool;

/// `char::is_alphanumeric`.
#[verifier::external_body]
fn char_is_alphanumeric(c: char) -> (r: bool)
    ensures
        r == is_alphanumeric_char(c),
{
    c.is_alphanumeric()
}

/// Characters that may follow `$` in a key that starts with it.
pub open spec fn name_pred() -> spec_fn(char) -> bool {
    |c: char| is_alphanumeric_char(c) && !is_whitespace_char(c)
}

/// The length of the longest prefix of `s` whose characters satisfy `p`.
pub open spec fn take_while_len(s: Seq<char>, p: spec_fn(char) -> bool) -> nat
    decreases s.len(),
{
    if s.len() > 0 && p(s[0]) {
        1 + take_while_len(s.drop_first(), p)
    } else {
        0
    }
}

pub proof fn lemma_take_while_len(s: Seq<char>, p: spec_fn(char) -> bool, n: nat)
    requires
        n <= s.len(),
        forall|i: int| 0 <= i < n ==> p(#[trigger] s[i]),
        n < s.len() ==> !p(s[n as int]),
    ensures
        take_while_len(s, p) == n,
    decreases n,
{
    if n > 0 {
        assert(p(s[0]));
        assert forall|i: int| 0 <= i < n - 1 implies p(#[trigger] s.drop_first()[i]) by {
            assert(s.drop_first()[i] == s[i + 1]);
        }
        if n < s.len() {
            assert(s.drop_first()[n - 1] == s[n as int]);
        }
        lemma_take_while_len(s.drop_first(), p, (n - 1) as nat);
    }
}

/// A quoted text after its opening quote `ch`: the characters up to the
/// closing quote, where one backslash just before a quote lets that quote
/// stand in the text. Also the number of characters read.
pub open spec fn lex_quote(s: Seq<char>, ch: char) -> (Result<Seq<char>, TokenError>, nat) {
    let n = take_while_len(s, not_char(ch));
    let val = s.take(n as int);
    if n > 0 && val.last() == '\\' {
        if n == s.len() {
            (Err(TokenError::Eof), n)
        } else {
            let s2 = s.skip(n + 1 as int);
            let m = take_while_len(s2, not_char(ch));
            if m == s2.len() {
                (Err(TokenError::Eof), n + 1 + m)
            } else {
                (Ok(val.drop_last().push(ch) + s2.take(m as int)), n + 1 + m + 1)
            }
        }
    } else if n == s.len() {
        (Err(TokenError::Eof), n)
    } else {
        (Ok(val), n + 1)
    }
}

/// An operator whose first character has been read: `s` is what follows.
/// With `second` next it is `both`; else it is `single`, or an error at `pos`.
pub open spec fn lex_pair(
    s: Seq<char>,
    second: char,
    both: TokenView,
    single: Option<TokenView>,
    pos: nat,
) -> (Result<TokenView, TokenError>, nat) {
    if s.len() == 0 {
        (Err(TokenError::Eof), 0)
    } else if s[0] == second {
        (Ok(both), 1)
    } else {
        match single {
            Some(t) => (Ok(t), 0),
            None => (Err(TokenError::Position(pos as usize)), 0),
        }
    }
}

/// The next token of `s`, where `s` starts at byte offset `pos`, and the
/// number of characters that reading it consumes (also when it fails).
#[verifier::opaque]
pub open spec fn lex(s: Seq<char>, pos: nat) -> (Result<TokenView, TokenError>, nat) {
    if s.len() == 0 {
        (Err(TokenError::Eof), 0)
    } else {
        let c = s[0];
        let rest = s.drop_first();
        let (r, k) = if c == '$' {
            let n = take_while_len(rest, name_pred());
            if n == 0 {
                (Ok(TokenView::Absolute(pos)), 0)
            } else {
                (Ok(TokenView::Key(pos, seq!['$'] + rest.take(n as int))), n)
            }
        } else {
            match simple_token_spec(c, pos) {
            Some(t) => (Ok(t), 0nat),
            None => if c == '\'' || c == '"' {
                let (q, k) = lex_quote(rest, c);
                match q {
                    Ok(v) => (
                        Ok(
                            if c == '\'' {
                                TokenView::SingleQuoted(pos, v)
                            } else {
                                TokenView::DoubleQuoted(pos, v)
                            },
                        ),
                        k,
                    ),
                    Err(e) => (Err(e), k),
                }
            } else if c == '=' {
                lex_pair(rest, '=', TokenView::Equal(pos), None, pos)
            } else if c == '>' {
                lex_pair(
                    rest,
                    '=',
                    TokenView::GreaterOrEqual(pos),
                    Some(TokenView::Greater(pos)),
                    pos,
                )
            } else if c == '<' {
                lex_pair(rest, '=', TokenView::LittleOrEqual(pos), Some(TokenView::Little(pos)), pos)
            } else if c == '&' {
                lex_pair(rest, '&', TokenView::And(pos), None, pos)
            } else if c == '|' {
                lex_pair(rest, '|', TokenView::Or(pos), None, pos)
            } else if c == '!' {
                lex_pair(rest, '=', TokenView::NotEqual(pos), None, pos)
            } else if is_whitespace_char(c) {
                let n = take_while_len(rest, whitespace_pred());
                (Ok(TokenView::Whitespace(pos, str_width(rest.take(n as int)))), n)
            } else {
                let n = take_while_len(rest, key_pred());
                (Ok(TokenView::Key(pos, seq![c] + rest.take(n as int))), n)
            },
        }
        };
        (r, 1 + k)
    }
}

/// `s_new` at `p_new` is what is left of `s_old` at `p_old` after `k`
/// characters were read.
pub open spec fn advanced_by(s_old: Seq<char>, p_old: nat, s_new: Seq<char>, p_new: nat, k: nat) -> bool {
    &&& k <= s_old.len()
    &&& s_new == s_old.skip(k as int)
    &&& p_new == p_old + str_width(s_old.take(k as int))
}

pub proof fn lemma_advanced_by_compose(
    a: Seq<char>,
    pa: nat,
    b: Seq<char>,
    pb: nat,
    c: Seq<char>,
    pc: nat,
    k1: nat,
    k2: nat,
)
    requires
        advanced_by(a, pa, b, pb, k1),
        advanced_by(b, pb, c, pc, k2),
    ensures
        advanced_by(a, pa, c, pc, k1 + k2),
{
    assert(a.take((k1 + k2) as int) =~= a.take(k1 as int) + b.take(k2 as int));
    super::path_reader::lemma_str_width_concat(a.take(k1 as int), b.take(k2 as int));
    assert(c =~= a.skip((k1 + k2) as int));
}

pub open spec fn token_result_view(r: Result<Token, TokenError>) -> Result<TokenView, TokenError> {
    match r {
        Ok(t) => Ok(t@),
        Err(e) => Err(e),
    }
}

pub open spec fn string_result_view(r: Result<String, TokenError>) -> Result<Seq<char>, TokenError> {
    match r {
        Ok(t) => Ok(t@),
        Err(e) => Err(e),
    }
}

/// Reads tokens one at a time from a path string.
pub struct Tokenizer<'a> {
    input: PathReader<'a>,
}

impl<'a> Tokenizer<'a> {
    /// What is left to read.
    pub closed spec fn remaining(&self) -> Seq<char> {
        self.input.input@
    }

    /// The byte offset of what is left to read.
    pub closed spec fn offset(&self) -> nat {
        self.input.pos as nat
    }

    pub closed spec fn wf(&self) -> bool {
        self.input.wf()
    }

    /// The step from `old` to `new` read `k` characters.
    pub open spec fn read(old: &Self, new: &Self, k: nat) -> bool {
        &&& new.wf()
        &&& advanced_by(old.remaining(), old.offset(), new.remaining(), new.offset(), k)
    }

    pub fn new(input: &'a str) -> (t: Self)
        ensures
            t.remaining() == input@,
            t.offset() == 0,
            t.wf(),
    {
        Tokenizer { input: PathReader::new(input) }
    }

    fn take_until(&mut self, ch: char) -> (res: String)
        requires
            old(self).wf(),
        ensures
            ({
                let n = take_while_len(old(self).remaining(), not_char(ch));
                &&& Self::read(old(self), final(self), n)
                &&& res@ == old(self).remaining().take(n as int)
            }),
    {
        let ghost s = self.remaining();
        let f = |c: &char| -> (b: bool)
            ensures
                b == (*c != ch),
            { *c != ch };
        let (_, val) = match self.input.take_while(f) {
            Ok(x) => x,
            Err(_) => {
                proof {
                    assert(false);
                }
                (0, String::new())
            },
        };
        proof {
            lemma_take_while_len(s, not_char(ch), val@.len());
            lemma_str_width_split(s, val@.len() as int);
        }
        val
    }

    fn read_char(&mut self) -> (res: Result<char, TokenError>)
        requires
            old(self).wf(),
        ensures
            old(self).remaining().len() == 0 ==> res == Err::<char, TokenError>(TokenError::Eof)
                && Self::read(old(self), final(self), 0),
            old(self).remaining().len() > 0 ==> res == Ok::<char, TokenError>(
                old(self).remaining()[0],
            ) && Self::read(old(self), final(self), 1),
    {
        proof {
            let s = self.remaining();
            if s.len() > 0 {
                assert(s.take(1) =~= seq![s[0]]);
                assert(str_width(seq![s[0]]) == char_width(s[0]) + str_width(
                    seq![s[0]].drop_first(),
                ));
                assert(seq![s[0]].drop_first() =~= Seq::<char>::empty());
            } else {
                assert(s.take(0) =~= Seq::<char>::empty());
            }
            assert(s.skip(0) =~= s);
            assert(s.skip(1) =~= s.drop_first());
        }
        match self.input.next_char() {
            Ok((_, c)) => Ok(c),
            Err(e) => Err(to_token_error(e)),
        }
    }

    fn quote(&mut self, ch: char) -> (res: Result<String, TokenError>)
        requires
            old(self).wf(),
        ensures
            ({
                let (r, k) = lex_quote(old(self).remaining(), ch);
                &&& Self::read(old(self), final(self), k)
                &&& string_result_view(res) == r
            }),
    {
        let ghost s0 = self.remaining();
        let ghost p0 = self.offset();
        let val = self.take_until(ch);
        let ghost s1 = self.remaining();
        let ghost p1 = self.offset();
        let n = val.as_str().unicode_len();
        if n > 0 && val.as_str().get_char(n - 1) == '\\' {
            assert(val@.last() == '\\');
            match self.read_char() {
                Ok(_) => {},
                Err(e) => {
                    proof {
                        lemma_advanced_by_compose(
                            s0,
                            p0,
                            s1,
                            p1,
                            self.remaining(),
                            self.offset(),
                            n as nat,
                            0,
                        );
                    }
                    return Err(e);
                },
            }
            let ghost s2 = self.remaining();
            let ghost p2 = self.offset();
            proof {
                lemma_advanced_by_compose(s0, p0, s1, p1, s2, p2, n as nat, 1);
                assert(s2 =~= s0.skip(n + 1 as int));
            }
            let head = val.as_str().substring_char(0, n - 1);
            let val_remain = self.take_until(ch);
            let ghost s3 = self.remaining();
            let ghost p3 = self.offset();
            let m = val_remain.as_str().unicode_len();
            proof {
                lemma_advanced_by_compose(s0, p0, s2, p2, s3, p3, (n + 1) as nat, m as nat);
            }
            match self.read_char() {
                Ok(_) => {},
                Err(e) => {
                    proof {
                        lemma_advanced_by_compose(
                            s0,
                            p0,
                            s3,
                            p3,
                            self.remaining(),
                            self.offset(),
                            (n + 1 + m) as nat,
                            0,
                        );
                    }
                    return Err(e);
                },
            }
            proof {
                lemma_advanced_by_compose(
                    s0,
                    p0,
                    s3,
                    p3,
                    self.remaining(),
                    self.offset(),
                    (n + 1 + m) as nat,
                    1,
                );
            }
            let mut out = String::from_str(head);
            push_char(&mut out, ch);
            out.append(val_remain.as_str());
            proof {
                assert(head@ =~= val@.drop_last());
            }
            Ok(out)
        } else {
            match self.read_char() {
                Ok(_) => {},
                Err(e) => {
                    proof {
                        lemma_advanced_by_compose(
                            s0,
                            p0,
                            s1,
                            p1,
                            self.remaining(),
                            self.offset(),
                            n as nat,
                            0,
                        );
                    }
                    return Err(e);
                },
            }
            proof {
                lemma_advanced_by_compose(s0, p0, s1, p1, self.remaining(), self.offset(), n as nat, 1);
            }
            Ok(val)
        }
    }

    proof fn lemma_unchanged(t: &Self)
        requires
            t.wf(),
        ensures
            Self::read(t, t, 0),
    {
        assert(t.remaining().skip(0) =~= t.remaining());
        assert(t.remaining().take(0) =~= Seq::<char>::empty());
    }

    fn peek(&self) -> (res: Result<char, TokenError>)
        requires
            self.wf(),
        ensures
            self.remaining().len() == 0 ==> res == Err::<char, TokenError>(TokenError::Eof),
            self.remaining().len() > 0 ==> res == Ok::<char, TokenError>(self.remaining()[0]),
    {
        match self.input.peek_char() {
            Ok((_, c)) => Ok(c),
            Err(e) => Err(to_token_error(e)),
        }
    }

    fn single_quote(&mut self, pos: usize, ch: char) -> (res: Result<Token, TokenError>)
        requires
            old(self).wf(),
        ensures
            ({
                let (r, k) = lex_quote(old(self).remaining(), ch);
                &&& Self::read(old(self), final(self), k)
                &&& token_result_view(res) == match r {
                    Ok(v) => Ok(TokenView::SingleQuoted(pos as nat, v)),
                    Err(e) => Err(e),
                }
            }),
    {
        let val = self.quote(ch)?;
        Ok(Token::SingleQuoted(pos, val))
    }

    fn double_quote(&mut self, pos: usize, ch: char) -> (res: Result<Token, TokenError>)
        requires
            old(self).wf(),
        ensures
            ({
                let (r, k) = lex_quote(old(self).remaining(), ch);
                &&& Self::read(old(self), final(self), k)
                &&& token_result_view(res) == match r {
                    Ok(v) => Ok(TokenView::DoubleQuoted(pos as nat, v)),
                    Err(e) => Err(e),
                }
            }),
    {
        let val = self.quote(ch)?;
        Ok(Token::DoubleQuoted(pos, val))
    }

    fn equal(&mut self, pos: usize, _ch: char) -> (res: Result<Token, TokenError>)
        requires
            old(self).wf(),
        ensures
            ({
                let (r, k) = lex_pair(
                    old(self).remaining(),
                    '=',
                    TokenView::Equal(pos as nat),
                    None,
                    pos as nat,
                );
                &&& Self::read(old(self), final(self), k)
                &&& token_result_view(res) == r
            }),
    {
        proof {
            Self::lemma_unchanged(self);
        }
        let ch = self.peek()?;
        match ch {
            '=' => {
                self.read_char()?;
                Ok(Token::Equal(pos))
            },
            _ => Err(TokenError::Position(pos)),
        }
    }

    fn not_equal(&mut self, pos: usize, _ch: char) -> (res: Result<Token, TokenError>)
        requires
            old(self).wf(),
        ensures
            ({
                let (r, k) = lex_pair(
                    old(self).remaining(),
                    '=',
                    TokenView::NotEqual(pos as nat),
                    None,
                    pos as nat,
                );
                &&& Self::read(old(self), final(self), k)
                &&& token_result_view(res) == r
            }),
    {
        proof {
            Self::lemma_unchanged(self);
        }
        let ch = self.peek()?;
        match ch {
            '=' => {
                self.read_char()?;
                Ok(Token::NotEqual(pos))
            },
            _ => Err(TokenError::Position(pos)),
        }
    }

    fn little(&mut self, pos: usize, _ch: char) -> (res: Result<Token, TokenError>)
        requires
            old(self).wf(),
        ensures
            ({
                let (r, k) = lex_pair(
                    old(self).remaining(),
                    '=',
                    TokenView::LittleOrEqual(pos as nat),
                    Some(TokenView::Little(pos as nat)),
                    pos as nat,
                );
                &&& Self::read(old(self), final(self), k)
                &&& token_result_view(res) == r
            }),
    {
        proof {
            Self::lemma_unchanged(self);
        }
        let ch = self.peek()?;
        match ch {
            '=' => {
                self.read_char()?;
                Ok(Token::LittleOrEqual(pos))
            },
            _ => Ok(Token::Little(pos)),
        }
    }

    fn greater(&mut self, pos: usize, _ch: char) -> (res: Result<Token, TokenError>)
        requires
            old(self).wf(),
        ensures
            ({
                let (r, k) = lex_pair(
                    old(self).remaining(),
                    '=',
                    TokenView::GreaterOrEqual(pos as nat),
                    Some(TokenView::Greater(pos as nat)),
                    pos as nat,
                );
                &&& Self::read(old(self), final(self), k)
                &&& token_result_view(res) == r
            }),
    {
        proof {
            Self::lemma_unchanged(self);
        }
        let ch = self.peek()?;
        match ch {
            '=' => {
                self.read_char()?;
                Ok(Token::GreaterOrEqual(pos))
            },
            _ => Ok(Token::Greater(pos)),
        }
    }

    fn and(&mut self, pos: usize, _ch: char) -> (res: Result<Token, TokenError>)
        requires
            old(self).wf(),
        ensures
            ({
                let (r, k) = lex_pair(
                    old(self).remaining(),
                    '&',
                    TokenView::And(pos as nat),
                    None,
                    pos as nat,
                );
                &&& Self::read(old(self), final(self), k)
                &&& token_result_view(res) == r
            }),
    {
        proof {
            Self::lemma_unchanged(self);
        }
        let ch = self.peek()?;
        match ch {
            '&' => {
                let _ = self.read_char();
                Ok(Token::And(pos))
            },
            _ => Err(TokenError::Position(pos)),
        }
    }

    fn or(&mut self, pos: usize, _ch: char) -> (res: Result<Token, TokenError>)
        requires
            old(self).wf(),
        ensures
            ({
                let (r, k) = lex_pair(
                    old(self).remaining(),
                    '|',
                    TokenView::Or(pos as nat),
                    None,
                    pos as nat,
                );
                &&& Self::read(old(self), final(self), k)
                &&& token_result_view(res) == r
            }),
    {
        proof {
            Self::lemma_unchanged(self);
        }
        let ch = self.peek()?;
        match ch {
            '|' => {
                self.read_char()?;
                Ok(Token::Or(pos))
            },
            _ => Err(TokenError::Position(pos)),
        }
    }

    fn whitespace(&mut self, pos: usize, _ch: char) -> (res: Result<Token, TokenError>)
        requires
            old(self).wf(),
        ensures
            ({
                let s = old(self).remaining();
                let n = take_while_len(s, whitespace_pred());
                &&& Self::read(old(self), final(self), n)
                &&& token_result_view(res) == Ok::<TokenView, TokenError>(
                    TokenView::Whitespace(pos as nat, str_width(s.take(n as int))),
                )
            }),
    {
        let ghost s = self.remaining();
        let f = |c: &char| -> (b: bool)
            ensures
                b == is_whitespace_char(*c),
            { char_is_whitespace(*c) };
        let (_, vec) = match self.input.take_while(f) {
            Ok(x) => x,
            Err(_) => {
                proof {
                    assert(false);
                }
                (0, String::new())
            },
        };
        proof {
            lemma_take_while_len(s, whitespace_pred(), vec@.len());
        }
        Ok(Token::Whitespace(pos, str_byte_len(vec.as_str())))
    }

    fn other(&mut self, pos: usize, ch: char) -> (res: Result<Token, TokenError>)
        requires
            old(self).wf(),
        ensures
            ({
                let s = old(self).remaining();
                let n = take_while_len(s, key_pred());
                &&& Self::read(old(self), final(self), n)
                &&& token_result_view(res) == Ok::<TokenView, TokenError>(
                    TokenView::Key(pos as nat, seq![ch] + s.take(n as int)),
                )
            }),
    {
        let ghost s = self.remaining();
        let fun = |c: &char| -> (b: bool)
            ensures
                b == is_key_char(*c),
            {
                match simple_matched_token(*c, pos) {
                    Some(_) => false,
                    _ => if *c == '<' || *c == '>' || *c == '=' || *c == '&' || *c == '|' || *c
                        == '!' {
                        false
                    } else {
                        !char_is_whitespace(*c)
                    },
                }
            };
        let (_, vec) = match self.input.take_while(fun) {
            Ok(x) => x,
            Err(_) => {
                proof {
                    assert(false);
                }
                (0, String::new())
            },
        };
        proof {
            lemma_take_while_len(s, key_pred(), vec@.len());
        }
        let mut key = String::new();
        push_char(&mut key, ch);
        key.append(vec.as_str());
        proof {
            assert(key@ =~= seq![ch] + s.take(vec@.len() as int));
        }
        Ok(Token::Key(pos, key))
    }

    /// After `$`: letters and digits make a key that starts with `$`;
    /// else it is the root.
    fn dolla(&mut self, pos: usize, ch: char) -> (res: Result<Token, TokenError>)
        requires
            old(self).wf(),
            ch == '$',
        ensures
            ({
                let s = old(self).remaining();
                let n = take_while_len(s, name_pred());
                &&& Self::read(old(self), final(self), n)
                &&& token_result_view(res) == (if n == 0 {
                    Ok::<TokenView, TokenError>(TokenView::Absolute(pos as nat))
                } else {
                    Ok::<TokenView, TokenError>(TokenView::Key(pos as nat, seq!['$'] + s.take(n as int)))
                })
            }),
    {
        let ghost s = self.remaining();
        let fun = |c: &char| -> (b: bool)
            ensures
                b == (is_alphanumeric_char(*c) && !is_whitespace_char(*c)),
            { char_is_alphanumeric(*c) && !char_is_whitespace(*c) };
        let (_, vec) = match self.input.take_while(fun) {
            Ok(x) => x,
            Err(_) => {
                proof {
                    assert(false);
                }
                (0, String::new())
            },
        };
        proof {
            lemma_take_while_len(s, name_pred(), vec@.len());
            lemma_str_width_split(s, vec@.len() as int);
        }
        if vec.as_str().unicode_len() == 0 {
            return Ok(Token::Absolute(pos));
        }
        let mut key = String::new();
        push_char(&mut key, ch);
        key.append(vec.as_str());
        proof {
            assert(key@ =~= seq![ch] + s.take(vec@.len() as int));
        }
        Ok(Token::Key(pos, key))
    }

    /// Reads the next token.
    pub fn next_token(&mut self) -> (res: Result<Token, TokenError>)
        requires
            old(self).wf(),
        ensures
            ({
                let (r, k) = lex(old(self).remaining(), old(self).offset());
                &&& Self::read(old(self), final(self), k)
                &&& token_result_view(res) == r
                &&& r is Ok ==> k > 0
            }),
    {
        reveal(lex);
        let ghost s0 = self.remaining();
        let ghost p0 = self.offset();
        proof {
            Self::lemma_unchanged(self);
        }
        let (pos, ch) = match self.input.next_char() {
            Ok(x) => x,
            Err(e) => {
                return Err(to_token_error(e));
            },
        };
        let ghost s1 = self.remaining();
        let ghost p1 = self.offset();
        proof {
            assert(s0.take(1) =~= seq![s0[0]]);
            assert(str_width(seq![s0[0]]) == char_width(s0[0]) + str_width(
                seq![s0[0]].drop_first(),
            ));
            assert(seq![s0[0]].drop_first() =~= Seq::<char>::empty());
            assert(s1 =~= s0.skip(1));
            assert(Self::read(old(self), self, 1));
            Self::lemma_unchanged(self);
        }
        let res = if ch == '$' {
            self.dolla(pos, ch)
        } else {
            match simple_matched_token(ch, pos) {
            Some(t) => Ok(t),
            None => match ch {
                '\'' => self.single_quote(pos, ch),
                '"' => self.double_quote(pos, ch),
                '=' => self.equal(pos, ch),
                '>' => self.greater(pos, ch),
                '<' => self.little(pos, ch),
                '&' => self.and(pos, ch),
                '|' => self.or(pos, ch),
                '!' => self.not_equal(pos, ch),
                _ => if char_is_whitespace(ch) {
                    self.whitespace(pos, ch)
                } else {
                    self.other(pos, ch)
                },
            },
        }
        };
        proof {
            let (r, k) = lex(s0, p0);
            let k2 = (k - 1) as nat;
            lemma_advanced_by_compose(s0, p0, s1, p1, self.remaining(), self.offset(), 1, k2);
        }
        res
    }

    fn current_pos(&self) -> (pos: usize)
        ensures
            pos == self.offset(),
    {
        self.input.current_pos()
    }
}

/// The tokens of `s`, which starts at byte offset `pos`, each with the
/// offset just past it; then the error that ends the reading and the offset
/// where it ended.
pub open spec fn tokenize(s: Seq<char>, pos: nat) -> (Seq<(nat, TokenView)>, TokenError, nat)
    decreases s.len(),
{
    let (r, k) = lex(s, pos);
    let next = pos + str_width(s.take(k as int));
    match r {
        Ok(t) => if 0 < k <= s.len() {
            let (ts, e, ep) = tokenize(s.skip(k as int), next);
            (seq![(next, t)] + ts, e, ep)
        } else {
            (Seq::empty(), TokenError::Eof, next)
        },
        Err(e) => (Seq::empty(), e, next),
    }
}

proof fn lemma_tokenize_step(s: Seq<char>, p: nat, s2: Seq<char>, p2: nat, t: TokenView)
    requires
        ({
            let (r, k) = lex(s, p);
            &&& advanced_by(s, p, s2, p2, k)
            &&& r == Ok::<TokenView, TokenError>(t)
            &&& k > 0
        }),
    ensures
        tokenize(s, p).0 == seq![(p2, t)] + tokenize(s2, p2).0,
        tokenize(s, p).1 == tokenize(s2, p2).1,
        tokenize(s, p).2 == tokenize(s2, p2).2,
{
}

proof fn lemma_tokenize_err(s: Seq<char>, p: nat, s2: Seq<char>, p2: nat, e: TokenError)
    requires
        ({
            let (r, k) = lex(s, p);
            &&& advanced_by(s, p, s2, p2, k)
            &&& r == Err::<TokenView, TokenError>(e)
        }),
    ensures
        tokenize(s, p) == (Seq::<(nat, TokenView)>::empty(), e, p2),
{
}

proof fn lemma_width_at_least_len(s: Seq<char>)
    ensures
        str_width(s) >= s.len(),
    decreases s.len(),
{
    if s.len() > 0 {
        lemma_width_at_least_len(s.drop_first());
    }
}

/// The tokens of a path come in order: each ends after the one before it,
/// and all of them end within the path.
pub proof fn law_tokens_in_order(s: Seq<char>, pos: nat)
    ensures
        forall|i: int, j: int|
            0 <= i < j < tokenize(s, pos).0.len() ==> #[trigger] tokenize(s, pos).0[i].0
                < #[trigger] tokenize(s, pos).0[j].0,
        forall|i: int|
            0 <= i < tokenize(s, pos).0.len() ==> pos < #[trigger] tokenize(s, pos).0[i].0 <= pos
                + str_width(s),
    decreases s.len(),
{
    let (r, k) = lex(s, pos);
    let next = pos + str_width(s.take(k as int));
    if r is Ok && 0 < k <= s.len() {
        let rest = s.skip(k as int);
        law_tokens_in_order(rest, next);
        lemma_width_at_least_len(s.take(k as int));
        lemma_str_width_split(s, k as int);
        let ts = tokenize(s, pos).0;
        let tr = tokenize(rest, next).0;
        assert(ts == seq![(next, r->Ok_0)] + tr);
        assert forall|i: int| 0 <= i < ts.len() implies pos < #[trigger] ts[i].0 <= pos + str_width(
            s,
        ) by {
            if i > 0 {
                assert(ts[i] == tr[i - 1]);
            }
        }
        assert forall|i: int, j: int| 0 <= i < j < ts.len() implies #[trigger] ts[i].0
            < #[trigger] ts[j].0 by {
            assert(ts[j] == tr[j - 1]);
            if i > 0 {
                assert(ts[i] == tr[i - 1]);
            } else {
                assert(next < tr[j - 1].0);
            }
        }
    }
}

/// The message that points at byte offset `pos` of `origin`: the path, a
/// line break, then `pos` carets.
pub open spec fn err_text(origin: Seq<char>, pos: nat) -> Seq<char> {
    origin + seq!['\n'] + Seq::new(pos, |_i: int| '^')
}

/// `m` is a message that points at some offset of `origin`.
pub open spec fn is_err_msg(origin: Seq<char>, m: Seq<char>) -> bool {
    exists|p: nat| m == #[trigger] err_text(origin, p)
}

pub open spec fn entry_view(e: (usize, Token)) -> (nat, TokenView) {
    (e.0 as nat, e.1@)
}

/// A token reader as a mathematical value: the tokens still to be read,
/// each with the offset just past it; the offset just past the last token
/// taken, if any; the path; the error that ended the reading and where.
pub struct ReaderView {
    pub ts: Seq<(nat, TokenView)>,
    pub cur: Option<usize>,
    pub origin: Seq<char>,
    pub err: TokenError,
    pub err_pos: nat,
}

/// The next token of `r`, or the error once none is left.
pub open spec fn front_of(r: ReaderView) -> Result<TokenView, TokenError> {
    if r.ts.len() > 0 {
        Ok(r.ts[0].1)
    } else {
        Err(r.err)
    }
}

/// What is left of `r` after taking its next token, if any.
pub open spec fn taken(r: ReaderView) -> ReaderView {
    if r.ts.len() > 0 {
        ReaderView { ts: r.ts.drop_first(), cur: Some(r.ts[0].0 as usize), ..r }
    } else {
        r
    }
}

/// The message that points where `r` stands: past the last token taken,
/// or where the reading ended if none was taken.
pub open spec fn reader_msg(r: ReaderView) -> Seq<char> {
    err_text(
        r.origin,
        match r.cur {
            Some(p) => p as nat,
            None => r.err_pos,
        },
    )
}

/// All the tokens of a path, read up front, and the error that ended them.
pub struct TokenReader<'a> {
    origin_input: &'a str,
    err: TokenError,
    err_pos: usize,
    tokens: Vec<(usize, Token)>,
    curr_pos: Option<usize>,
}

impl<'a> View for TokenReader<'a> {
    type V = ReaderView;

    open spec fn view(&self) -> ReaderView {
        ReaderView {
            ts: self.pending(),
            cur: self.current(),
            origin: self.origin(),
            err: self.error(),
            err_pos: self.error_pos(),
        }
    }
}

impl<'a> TokenReader<'a> {
    /// The tokens still to be read, first one first, each with the offset
    /// just past it.
    pub closed spec fn pending(&self) -> Seq<(nat, TokenView)> {
        Seq::new(
            self.tokens@.len(),
            |i: int| entry_view(self.tokens@[self.tokens@.len() - 1 - i]),
        )
    }

    /// The path that was read.
    pub closed spec fn origin(&self) -> Seq<char> {
        self.origin_input@
    }

    /// The error that ended the reading.
    pub closed spec fn error(&self) -> TokenError {
        self.err
    }

    /// The offset where the reading ended.
    pub closed spec fn error_pos(&self) -> nat {
        self.err_pos as nat
    }

    /// The offset just past the last token taken, if any was taken.
    pub closed spec fn current(&self) -> Option<usize> {
        self.curr_pos
    }

    /// `self` was reached from `old` by taking tokens from the front.
    pub open spec fn took_from(&self, old: &Self) -> bool {
        &&& self.same_source(old)
        &&& self.pending().len() <= old.pending().len()
        &&& self.pending() == old.pending().skip(old.pending().len() - self.pending().len())
    }

    pub proof fn lemma_took_from_trans(a: &Self, b: &Self, c: &Self)
        requires
            b.took_from(a),
            c.took_from(b),
        ensures
            c.took_from(a),
    {
        assert(a.pending().skip(a.pending().len() - b.pending().len()).skip(
            b.pending().len() - c.pending().len(),
        ) =~= a.pending().skip(a.pending().len() - c.pending().len()));
    }

    pub proof fn lemma_took_from_refl(a: &Self)
        ensures
            a.took_from(a),
    {
        assert(a.pending() =~= a.pending().skip(0));
    }

    /// Only the pending tokens and the current offset changed.
    pub open spec fn same_source(&self, other: &Self) -> bool {
        &&& self.origin() == other.origin()
        &&& self.error() == other.error()
        &&& self.error_pos() == other.error_pos()
    }

    pub fn new(input: &'a str) -> (reader: Self)
        ensures
            ({
                let (ts, e, ep) = tokenize(input@, 0);
                &&& reader.pending() == ts
                &&& reader.error() == e
                &&& reader.error_pos() == ep
                &&& reader.origin() == input@
                &&& reader.current() == None::<usize>
            }),
    {
        let mut tokenizer = Tokenizer::new(input);
        let mut tokens: Vec<(usize, Token)> = Vec::new();
        loop
            invariant
                tokenizer.wf(),
                ({
                    let (all, e, ep) = tokenize(input@, 0);
                    let (rest, e2, ep2) = tokenize(tokenizer.remaining(), tokenizer.offset());
                    &&& Seq::new(
                        tokens@.len(),
                        |i: int| entry_view(tokens@[tokens@.len() - 1 - i]),
                    ) + rest == all
                    &&& e2 == e
                    &&& ep2 == ep
                }),
            decreases tokenizer.remaining().len(),
        {
            let ghost old_tokens = tokens@;
            let ghost s0 = tokenizer.remaining();
            let ghost p0 = tokenizer.offset();
            match tokenizer.next_token() {
                Ok(t) => {
                    let ghost tv = t@;
                    let p = tokenizer.current_pos();
                    tokens.insert(0, (p, t));
                    proof {
                        let old_view = Seq::new(
                            old_tokens.len(),
                            |i: int| entry_view(old_tokens[old_tokens.len() - 1 - i]),
                        );
                        let new_view = Seq::new(
                            tokens@.len(),
                            |i: int| entry_view(tokens@[tokens@.len() - 1 - i]),
                        );
                        assert(new_view =~= old_view.push((p as nat, tv)));
                        lemma_tokenize_step(s0, p0, tokenizer.remaining(), tokenizer.offset(), tv);
                        assert(new_view + tokenize(tokenizer.remaining(), tokenizer.offset()).0
                            =~= old_view + tokenize(s0, p0).0);
                    }
                },
                Err(e) => {
                    let reader = TokenReader {
                        origin_input: input,
                        err: e,
                        err_pos: tokenizer.current_pos(),
                        tokens,
                        curr_pos: None,
                    };
                    proof {
                        lemma_tokenize_err(s0, p0, tokenizer.remaining(), tokenizer.offset(), e);
                        assert(reader.pending() =~= Seq::new(
                            tokens@.len(),
                            |i: int| entry_view(tokens@[tokens@.len() - 1 - i]),
                        ));
                        assert(reader.pending() + Seq::<(nat, TokenView)>::empty() =~= reader.pending());
                    }
                    return reader;
                },
            }
        }
    }

    /// Whether the next token is of the kind named `simple_token`.
    pub fn peek_is(&self, simple_token: &str) -> (r: bool)
        ensures
            r == (self.pending().len() > 0 && simple_name(self.pending()[0].1) == simple_token@),
    {
        match self.peek_token() {
            Ok(t) => t.simple_eq(simple_token),
            _ => false,
        }
    }

    /// The token that `peek_token` shows and `next_token` takes, or the
    /// error once none is left.
    pub open spec fn front(&self) -> Result<TokenView, TokenError> {
        if self.pending().len() > 0 {
            Ok(self.pending()[0].1)
        } else {
            Err(self.error())
        }
    }

    /// The next token, without taking it, or the error once none is left.
    pub fn peek_token(&self) -> (res: Result<&Token, TokenError>)
        ensures
            match res {
                Ok(t) => self.front() == Ok::<TokenView, TokenError>(t@),
                Err(e) => self.front() == Err::<TokenView, TokenError>(e),
            },
            self.pending().len() > 0 ==> res is Ok && res->Ok_0@ == self.pending()[0].1,
            self.pending().len() == 0 ==> res == Err::<&Token, TokenError>(self.error()),
    {
        let n = self.tokens.len();
        if n > 0 {
            Ok(&self.tokens[n - 1].1)
        } else {
            Err(self.err)
        }
    }

    /// Takes the next token, or gives the error once none is left.
    pub fn next_token(&mut self) -> (res: Result<Token, TokenError>)
        ensures
            token_result_view(res) == old(self).front(),
            final(self)@ == taken(old(self)@),
            final(self).same_source(old(self)),
            final(self).took_from(old(self)),
            old(self).pending().len() > 0 ==> {
                &&& res is Ok
                &&& res->Ok_0@ == old(self).pending()[0].1
                &&& final(self).pending() == old(self).pending().drop_first()
                &&& final(self).current() == Some(old(self).pending()[0].0 as usize)
            },
            old(self).pending().len() == 0 ==> {
                &&& res == Err::<Token, TokenError>(old(self).error())
                &&& final(self).pending() == old(self).pending()
                &&& final(self).current() == old(self).current()
            },
    {
        match self.tokens.pop() {
            Some((pos, t)) => {
                self.curr_pos = Some(pos);
                proof {
                    assert(self.pending() =~= old(self).pending().drop_first());
                    assert(self.pending() =~= old(self).pending().skip(1));
                }
                Ok(t)
            },
            _ => {
                proof {
                    assert(self.pending() =~= old(self).pending().skip(0));
                }
                Err(self.err)
            },
        }
    }

    /// The path, a line break, then `pos` carets.
    pub fn err_msg_with_pos(&self, pos: usize) -> (msg: String)
        ensures
            msg@ == err_text(self.origin(), pos as nat),
    {
        let mut msg = String::from_str(self.origin_input);
        proof {
            reveal_strlit("\n");
            reveal_strlit("^");
        }
        msg.append("\n");
        let mut i: usize = 0;
        while i < pos
            invariant
                i <= pos,
                msg@ == self.origin() + seq!['\n'] + Seq::new(i as nat, |_j: int| '^'),
            decreases pos - i,
        {
            proof {
                reveal_strlit("^");
            }
            msg.append("^");
            i = i + 1;
            assert(msg@ =~= self.origin() + seq!['\n'] + Seq::new(i as nat, |_j: int| '^'));
        }
        msg
    }

    /// The message that points at the end of the last token taken, or at
    /// the offset where the reading ended if none was taken.
    pub fn err_msg(&self) -> (msg: String)
        ensures
            msg@ == reader_msg(self@),
            msg@ == err_text(
                self.origin(),
                match self.current() {
                    Some(p) => p as nat,
                    None => self.error_pos(),
                },
            ),
    {
        match self.curr_pos {
            Some(pos) => self.err_msg_with_pos(pos),
            _ => self.err_msg_with_pos(self.err_pos),
        }
    }
}

/// The kinds of token whose text is always the same: punctuation and
/// operators.
pub open spec fn is_fixed_token(t: TokenView) -> bool {
    !(t is Key || t is DoubleQuoted || t is SingleQuoted || t is Whitespace)
}

/// A token of fixed text is read from exactly that text: the characters
/// that reading it consumes are its name. So `<=` gives `LittleOrEqual`
/// and a lone `<` gives `Little`, and likewise for every operator.
pub proof fn law_fixed_token_is_its_text(s: Seq<char>, pos: nat)
    ensures
        ({
            let (r, k) = lex(s, pos);
            r matches Ok(t) ==> (is_fixed_token(t) ==> k <= s.len() && s.take(k as int)
                == simple_name(t))
        }),
{
    reveal(lex);
    if s.len() > 0 {
        let c = s[0];
        let rest = s.drop_first();
        if s.len() > 1 {
            assert(s.take(2) =~= seq![c, rest[0]]);
        }
        assert(s.take(1) =~= seq![c]);
        if c == '$' {
            let n = take_while_len(rest, name_pred());
            if n == 0 {
                assert(lex(s, pos) == (Ok::<TokenView, TokenError>(TokenView::Absolute(pos)), 1nat));
            }
        }
    }
}

/// Reading `<=` gives `LittleOrEqual`, and reading `<` before anything but
/// `=` gives `Little`; the same holds of `>=` and `>`.
pub proof fn law_comparison_reads_its_second_char(s: Seq<char>, pos: nat)
    ensures
        lex(seq!['<', '='] + s, pos) == (Ok::<TokenView, TokenError>(TokenView::LittleOrEqual(pos)), 2nat),
        lex(seq!['>', '='] + s, pos) == (Ok::<TokenView, TokenError>(TokenView::GreaterOrEqual(pos)), 2nat),
        s.len() > 0 && s[0] != '=' ==> lex(seq!['<'] + s, pos) == (Ok::<TokenView, TokenError>(
            TokenView::Little(pos),
        ), 1nat),
        s.len() > 0 && s[0] != '=' ==> lex(seq!['>'] + s, pos) == (Ok::<TokenView, TokenError>(
            TokenView::Greater(pos),
        ), 1nat),
{
    reveal(lex);
    assert((seq!['<', '='] + s).drop_first() =~= seq!['='] + s);
    assert((seq!['>', '='] + s).drop_first() =~= seq!['='] + s);
    assert((seq!['<'] + s).drop_first() =~= s);
    assert((seq!['>'] + s).drop_first() =~= s);
}

proof fn lemma_take_while_within(s: Seq<char>, p: spec_fn(char) -> bool)
    ensures
        take_while_len(s, p) <= s.len(),
    decreases s.len(),
{
    if s.len() > 0 && p(s[0]) {
        lemma_take_while_within(s.drop_first(), p);
    }
}

/// A key is the text that reading it consumes, and starts where reading
/// started.
pub proof fn law_key_is_its_text(s: Seq<char>, pos: nat)
    ensures
        ({
            let (r, k) = lex(s, pos);
            r matches Ok(TokenView::Key(p, v)) ==> (p == pos && k <= s.len() && v == s.take(
                k as int,
            ))
        }),
{
    reveal(lex);
    if s.len() > 0 {
        let c = s[0];
        let rest = s.drop_first();
        let (r, k) = lex(s, pos);
        if r matches Ok(TokenView::Key(p, v)) {
            let n = (k - 1) as nat;
            if c == '$' {
                lemma_take_while_within(rest, name_pred());
                assert(seq!['$'] + rest.take(n as int) =~= s.take(k as int));
            } else {
                lemma_take_while_within(rest, key_pred());
                assert(seq![c] + rest.take(n as int) =~= s.take(k as int));
            }
        }
    }
}

} // verus!
