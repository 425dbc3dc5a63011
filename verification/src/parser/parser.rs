use vstd::prelude::*;

use super::tokenizer::{
    err_text, front_of, is_err_msg, push_char, reader_msg, simple_name, taken, tokenize,
    ReaderView, Token, TokenError, TokenReader, TokenView,
    ABSOLUTE, AT, COMMA, DOUBLE_QUOTE, KEY, SINGLE_QUOTE,
};
use super::utils::{
    eq_ignore_case, eq_ignore_case_from, lemma_isize_is_float, parse_f64_accepts, parse_isize,
    parse_usize, string_to_float, string_to_num, string_to_usize,
};

verus! {

pub type ParseResult<T> = Result<T, String>;

#[derive(Debug, PartialEq)]
pub enum ParseToken {
    // '$'
    Absolute,
    // '@'
    Relative,
    // '.'
    In,
    // '..'
    Leaves,
    // '*'
    All,
    Key(String),
    Keys(Vec<String>),
    // []
    Array,
    // end of an array's content, sent by the visitor
    ArrayEof,
    // ?( filter )
    Filter(FilterToken),
    // 1 : 2
    Range(Option<isize>, Option<isize>, Option<usize>),
    // 1, 2, 3
    Union(Vec<isize>),
    /// A number, as the text of a literal that `f64` parsing accepts.
    Number(String),
    Bool(bool),
    Eof,
}

#[derive(Debug, PartialEq, Eq, Clone, Copy)]
pub enum FilterToken {
    Equal,
    NotEqual,
    Little,
    LittleOrEqual,
    Greater,
    GreaterOrEqual,
    And,
    Or,
}

#[derive(Debug)]
pub struct Node {
    left: Option<Box<Node>>,
    right: Option<Box<Node>>,
    token: ParseToken,
}

pub(crate) fn clone_strings(v: &Vec<String>) -> (r: Vec<String>)
    ensures
        r@ == v@,
{
    let mut r: Vec<String> = Vec::new();
    let mut i: usize = 0;
    while i < v.len()
        invariant
            i <= v@.len(),
            r@ == v@.take(i as int),
        decreases v@.len() - i,
    {
        r.push(v[i].clone());
        i = i + 1;
        assert(r@ =~= v@.take(i as int));
    }
    assert(v@.take(v@.len() as int) =~= v@);
    r
}

pub(crate) fn clone_indices(v: &Vec<isize>) -> (r: Vec<isize>)
    ensures
        r@ == v@,
{
    let mut r: Vec<isize> = Vec::new();
    let mut i: usize = 0;
    while i < v.len()
        invariant
            i <= v@.len(),
            r@ == v@.take(i as int),
        decreases v@.len() - i,
    {
        r.push(v[i]);
        i = i + 1;
        assert(r@ =~= v@.take(i as int));
    }
    assert(v@.take(v@.len() as int) =~= v@);
    r
}

/// The two tokens hold the same values.
pub open spec fn same_token(a: ParseToken, b: ParseToken) -> bool {
    match (a, b) {
        (ParseToken::Keys(x), ParseToken::Keys(y)) => x@ == y@,
        (ParseToken::Union(x), ParseToken::Union(y)) => x@ == y@,
        _ => a == b,
    }
}

/// The two trees have the same shape and tokens.
pub closed spec fn same_tree(a: Node, b: Node) -> bool
    decreases a,
{
    &&& same_token(a.token, b.token)
    &&& match (a.left, b.left) {
        (Some(x), Some(y)) => same_tree(*x, *y),
        (None, None) => true,
        _ => false,
    }
    &&& match (a.right, b.right) {
        (Some(x), Some(y)) => same_tree(*x, *y),
        (None, None) => true,
        _ => false,
    }
}

impl Clone for ParseToken {
    fn clone(&self) -> (r: Self)
        ensures
            same_token(r, *self),
    {
        match self {
            ParseToken::Absolute => ParseToken::Absolute,
            ParseToken::Relative => ParseToken::Relative,
            ParseToken::In => ParseToken::In,
            ParseToken::Leaves => ParseToken::Leaves,
            ParseToken::All => ParseToken::All,
            ParseToken::Key(k) => ParseToken::Key(k.clone()),
            ParseToken::Keys(ks) => {
                ParseToken::Keys(clone_strings(ks))
            },
            ParseToken::Array => ParseToken::Array,
            ParseToken::ArrayEof => ParseToken::ArrayEof,
            ParseToken::Filter(f) => ParseToken::Filter(*f),
            ParseToken::Range(a, b, c) => ParseToken::Range(*a, *b, *c),
            ParseToken::Union(v) => {
                ParseToken::Union(clone_indices(v))
            },
            ParseToken::Number(n) => ParseToken::Number(n.clone()),
            ParseToken::Bool(b) => ParseToken::Bool(*b),
            ParseToken::Eof => ParseToken::Eof,
        }
    }
}

impl Clone for Node {
    fn clone(&self) -> (r: Self)
        ensures
            same_tree(r, *self),
        decreases self,
    {
        let left = match &self.left {
            Some(l) => Some(Box::new((&**l).clone())),
            None => None,
        };
        let right = match &self.right {
            Some(r) => Some(Box::new((&**r).clone())),
            None => None,
        };
        Node { left, right, token: self.token.clone() }
    }
}

/// A node without children.
pub closed spec fn is_leaf(n: Node) -> bool {
    n.left is None && n.right is None
}

/// The token at the bottom of the chain of left children: where a path
/// starts.
pub closed spec fn leftmost(n: Node) -> ParseToken
    decreases n,
{
    match n.left {
        Some(l) => leftmost(*l),
        None => n.token,
    }
}

/// A number token holds a literal that `f64` parsing accepts.
pub closed spec fn number_ok(t: ParseToken) -> bool {
    t matches ParseToken::Number(s) ==> parse_f64_accepts(s@)
}

/// What may follow `.` or `..`: a key or `*`.
pub closed spec fn is_selector_leaf(n: Node) -> bool {
    is_leaf(n) && (n.token is Key || n.token is All)
}

/// A path: `$` or `@`, then steps into keys, all children, descendants or
/// brackets.
pub closed spec fn is_path(n: Node) -> bool
    decreases n, 0nat,
{
    match n.token {
        ParseToken::Absolute | ParseToken::Relative => is_leaf(n),
        ParseToken::In => {
            &&& n.left matches Some(l) && is_path(*l)
            &&& n.right matches Some(r) && is_selector_leaf(*r)
        },
        ParseToken::Leaves => {
            &&& n.left matches Some(l) && is_path(*l)
            &&& n.right matches Some(r) ==> is_selector_leaf(*r)
        },
        ParseToken::Array => {
            &&& n.left matches Some(l) && is_path(*l)
            &&& n.right matches Some(r) && is_array_arg(*r)
        },
        _ => false,
    }
}

/// An operand of a comparison: a path from `$` or `@`, a number, a
/// boolean, or quoted keys.
pub closed spec fn is_term(n: Node) -> bool
    decreases n, 1nat,
{
    ||| is_path(n) && (leftmost(n) is Absolute || leftmost(n) is Relative)
    ||| is_leaf(n) && number_ok(n.token) && (n.token is Number || n.token is Bool || n.token is Key
        || n.token is Keys)
}

/// A filter: comparisons and paths from `@`, joined by `&&` and `||`.
pub closed spec fn is_filter(n: Node) -> bool
    decreases n, 2nat,
{
    match n.token {
        ParseToken::Filter(FilterToken::And) | ParseToken::Filter(FilterToken::Or) => {
            &&& n.left matches Some(l) && is_filter(*l)
            &&& n.right matches Some(r) && is_filter(*r)
        },
        ParseToken::Filter(_) => {
            &&& n.left matches Some(l) && is_term(*l)
            &&& n.right matches Some(r) && is_term(*r)
        },
        _ => is_path(n) && leftmost(n) is Relative,
    }
}

/// What may stand between brackets: a filter, `*`, a key or keys, a
/// number, a range or a union of indices.
pub closed spec fn is_array_arg(n: Node) -> bool
    decreases n, 3nat,
{
    ||| is_filter(n)
    ||| is_leaf(n) && number_ok(n.token) && (n.token is All || n.token is Key || n.token is Keys
        || n.token is Number || n.token is Range || n.token is Union || n.token is Eof)
}

/// A leaf that holds `token`.
pub closed spec fn leaf_of(n: Node, token: ParseToken) -> bool {
    is_leaf(n) && n.token == token
}

proof fn lemma_skip_facts(s: Seq<(nat, TokenView)>)
    ensures
        s.len() > 0 ==> s.drop_first() == s.skip(1),
        s == s.skip(0),
{
    if s.len() > 0 {
        assert(s.drop_first() =~= s.skip(1));
    }
    assert(s =~= s.skip(0));
}

/// An error holds a message that points into the path.
pub open spec fn msg_ok<T>(origin: Seq<char>, res: ParseResult<T>) -> bool {
    res matches Err(m) ==> is_err_msg(origin, m@)
}

/// A key that starts like `true` or `false`.
pub open spec fn bool_key(t: TokenView) -> bool {
    &&& t matches TokenView::Key(_, v)
    &&& v.len() > 0
    &&& (v[0] == 't' || v[0] == 'T' || v[0] == 'f' || v[0] == 'F')
}

/// A parse token as a mathematical value.
pub enum ParseTokenView {
    Absolute,
    Relative,
    In,
    Leaves,
    All,
    Key(Seq<char>),
    Keys(Seq<Seq<char>>),
    Array,
    ArrayEof,
    Filter(FilterToken),
    Range(Option<isize>, Option<isize>, Option<usize>),
    Union(Seq<isize>),
    Number(Seq<char>),
    Bool(bool),
    Eof,
}

impl View for ParseToken {
    type V = ParseTokenView;

    open spec fn view(&self) -> ParseTokenView {
        match self {
            ParseToken::Absolute => ParseTokenView::Absolute,
            ParseToken::Relative => ParseTokenView::Relative,
            ParseToken::In => ParseTokenView::In,
            ParseToken::Leaves => ParseTokenView::Leaves,
            ParseToken::All => ParseTokenView::All,
            ParseToken::Key(k) => ParseTokenView::Key(k@),
            ParseToken::Keys(ks) => ParseTokenView::Keys(ks@.map_values(|k: String| k@)),
            ParseToken::Array => ParseTokenView::Array,
            ParseToken::ArrayEof => ParseTokenView::ArrayEof,
            ParseToken::Filter(f) => ParseTokenView::Filter(*f),
            ParseToken::Range(a, b, c) => ParseTokenView::Range(*a, *b, *c),
            ParseToken::Union(v) => ParseTokenView::Union(v@),
            ParseToken::Number(n) => ParseTokenView::Number(n@),
            ParseToken::Bool(b) => ParseTokenView::Bool(*b),
            ParseToken::Eof => ParseTokenView::Eof,
        }
    }
}

/// A parse tree as a mathematical value.
pub struct NodeView {
    pub token: ParseTokenView,
    pub left: Option<Box<NodeView>>,
    pub right: Option<Box<NodeView>>,
}

/// The tree `n` as a mathematical value.
pub closed spec fn node_view(n: Node) -> NodeView
    decreases n,
{
    NodeView {
        token: n.token@,
        left: match n.left {
            Some(l) => Some(Box::new(node_view(*l))),
            None => None,
        },
        right: match n.right {
            Some(r) => Some(Box::new(node_view(*r))),
            None => None,
        },
    }
}

pub open spec fn result_view(r: ParseResult<Node>) -> Result<NodeView, Seq<char>> {
    match r {
        Ok(n) => Ok(node_view(n)),
        Err(e) => Err(e@),
    }
}

pub open spec fn leaf_view(t: ParseTokenView) -> NodeView {
    NodeView { token: t, left: None, right: None }
}

pub open spec fn branch_view(t: ParseTokenView, l: NodeView, r: NodeView) -> NodeView {
    NodeView { token: t, left: Some(Box::new(l)), right: Some(Box::new(r)) }
}

/// What a step of parsing gives back, and the reader it leaves.
pub type Parsed = (Result<NodeView, Seq<char>>, ReaderView);

/// A result that reading never gives: the sub-parse before it read no
/// token where one was read.
pub open spec fn unreachable(r: ReaderView) -> Parsed {
    (Err(Seq::empty()), r)
}

/// The token `next_token` gives, and the reader it leaves.
pub open spec fn next_of(r: ReaderView) -> (Result<TokenView, TokenError>, ReaderView) {
    (front_of(r), taken(r))
}

/// The next token is of the kind `name` names.
pub open spec fn front_is(r: ReaderView, name: Seq<char>) -> bool {
    r.ts.len() > 0 && simple_name(r.ts[0].1) == name
}

/// The reader after the spaces at its front.
pub open spec fn skip_ws(r: ReaderView) -> ReaderView
    decreases r.ts.len(),
{
    if r.ts.len() > 0 && r.ts[0].1 is Whitespace {
        skip_ws(taken(r))
    } else {
        r
    }
}

pub open spec fn key_spec(r: ReaderView) -> Parsed {
    let (n, r1) = next_of(r);
    match n {
        Ok(TokenView::Key(_, v)) => (Ok(leaf_view(ParseTokenView::Key(v))), r1),
        _ => (Err(reader_msg(r1)), r1),
    }
}

pub open spec fn boolean_spec(r: ReaderView) -> Parsed {
    let (n, r1) = next_of(r);
    match n {
        Ok(TokenView::Key(_, v)) => if v.len() > 0 && (v[0] == 't' || v[0] == 'T' || v[0] == 'f'
            || v[0] == 'F') {
            (Ok(leaf_view(ParseTokenView::Bool(eq_ignore_case(v, seq!['t', 'r', 'u', 'e'])))), r1)
        } else {
            (Err(reader_msg(r1)), r1)
        },
        _ => (Err(reader_msg(r1)), r1),
    }
}

/// Takes the token that closes `ret`, of the kind `name` names.
pub open spec fn close_spec(ret: NodeView, name: Seq<char>, r: ReaderView) -> Parsed {
    let (n, r1) = next_of(r);
    match n {
        Ok(t) => if simple_name(t) == name {
            (Ok(ret), r1)
        } else {
            (Err(reader_msg(r1)), r1)
        },
        _ => (Err(reader_msg(r1)), r1),
    }
}

/// More quoted keys after a comma, added to `keys`.
pub open spec fn keys_spec(keys: Seq<Seq<char>>, r: ReaderView) -> Parsed
    decreases r.ts.len(),
{
    if front_is(r, seq![',']) {
        let r1 = skip_ws(taken(r));
        let (n, r2) = next_of(r1);
        match n {
            Ok(TokenView::SingleQuoted(_, v)) | Ok(TokenView::DoubleQuoted(_, v)) => {
                let r3 = skip_ws(r2);
                if r3.ts.len() < r.ts.len() {
                    keys_spec(keys.push(v), r3)
                } else {
                    unreachable(r3)
                }
            },
            _ => (Err(reader_msg(r2)), r2),
        }
    } else {
        (Ok(leaf_view(ParseTokenView::Keys(keys))), r)
    }
}

pub open spec fn quote_value_spec(r: ReaderView) -> Parsed {
    let (n, r1) = next_of(r);
    match n {
        Ok(TokenView::SingleQuoted(_, v)) | Ok(TokenView::DoubleQuoted(_, v)) => if !front_is(
            r1,
            seq![','],
        ) {
            (Ok(leaf_view(ParseTokenView::Key(v))), r1)
        } else {
            keys_spec(seq![v], r1)
        },
        _ => (Err(reader_msg(r1)), r1),
    }
}

/// More indices after a comma, added to `values`.
pub open spec fn union_spec(values: Seq<isize>, r: ReaderView) -> Parsed
    decreases r.ts.len(),
{
    if front_of(r) matches Ok(TokenView::Comma(_)) {
        let r1 = skip_ws(taken(r));
        let (n, r2) = next_of(r1);
        match n {
            Ok(TokenView::Key(pos, v)) => match parse_isize(v) {
                Some(d) => if r2.ts.len() < r.ts.len() {
                    union_spec(values.push(d as isize), r2)
                } else {
                    unreachable(r2)
                },
                None => (Err(err_text(r2.origin, pos)), r2),
            },
            _ => (Err(reader_msg(r2)), r2),
        }
    } else {
        (Ok(leaf_view(ParseTokenView::Union(values))), r)
    }
}

/// An optional step `:n` of a range.
pub open spec fn range_value_spec(r: ReaderView) -> (Result<Option<usize>, Seq<char>>, ReaderView) {
    let r1 = skip_ws(r);
    if front_of(r1) matches Ok(TokenView::Split(_)) {
        let r2 = skip_ws(taken(r1));
        if front_of(r2) matches Ok(TokenView::Key(_, _)) {
            let (n, r3) = next_of(r2);
            match n {
                Ok(TokenView::Key(pos, v)) => match parse_usize(v) {
                    Some(step) => (Ok(Some(step as usize)), r3),
                    None => (Err(err_text(r3.origin, pos)), r3),
                },
                _ => (Ok(None), r3),
            }
        } else {
            (Ok(None), r2)
        }
    } else {
        (Ok(None), r1)
    }
}

/// The end and step of a range that starts at `from`.
pub open spec fn range_spec(from: isize, r: ReaderView) -> Parsed {
    let (n, r1) = next_of(r);
    match n {
        Ok(TokenView::Key(pos, v)) => match parse_isize(v) {
            None => (Err(err_text(r1.origin, pos)), r1),
            Some(to) => {
                let (st, r2) = range_value_spec(r1);
                match st {
                    Ok(step) => (
                        Ok(leaf_view(ParseTokenView::Range(Some(from), Some(to as isize), step))),
                        r2,
                    ),
                    Err(e) => (Err(e), r2),
                }
            },
        },
        _ => (Err(reader_msg(r1)), r1),
    }
}

/// A range that starts at `from`, whose `:` is next.
pub open spec fn range_from_spec(from: isize, r: ReaderView) -> Parsed {
    let r1 = skip_ws(taken(r));
    match front_of(r1) {
        Ok(TokenView::Key(_, _)) => range_spec(from, r1),
        Ok(TokenView::Split(_)) => {
            let (st, r2) = range_value_spec(r1);
            match st {
                Ok(step) => (Ok(leaf_view(ParseTokenView::Range(Some(from), None, step))), r2),
                Err(e) => (Err(e), r2),
            }
        },
        _ => (Ok(leaf_view(ParseTokenView::Range(Some(from), None, None))), r1),
    }
}

/// A range with no start, whose `:` has been taken.
pub open spec fn range_to_spec(r: ReaderView) -> Parsed {
    let (st, r1) = range_value_spec(r);
    match st {
        Err(e) => (Err(e), r1),
        Ok(Some(step)) => (Ok(leaf_view(ParseTokenView::Range(None, None, Some(step)))), r1),
        Ok(None) => if front_of(r1) matches Ok(TokenView::CloseArray(_)) {
            (Ok(leaf_view(ParseTokenView::Range(None, None, None))), r1)
        } else {
            let (n, r2) = next_of(r1);
            match n {
                Ok(TokenView::Key(pos, v)) => match parse_isize(v) {
                    None => (Err(err_text(r2.origin, pos)), r2),
                    Some(to) => {
                        let (st2, r3) = range_value_spec(r2);
                        match st2 {
                            Ok(step) => (
                                Ok(
                                    leaf_view(
                                        ParseTokenView::Range(None, Some(to as isize), step),
                                    ),
                                ),
                                r3,
                            ),
                            Err(e) => (Err(e), r3),
                        }
                    },
                },
                _ => (Err(reader_msg(r2)), r2),
            }
        },
    }
}

/// An index, a union of indices or a range that starts with an index.
pub open spec fn value_key_spec(r: ReaderView) -> Parsed {
    let (n, r1) = next_of(r);
    match n {
        Ok(TokenView::Key(pos, v)) => match parse_isize(v) {
            None => (Err(err_text(r1.origin, pos)), r1),
            Some(d) => {
                let r2 = skip_ws(r1);
                match front_of(r2) {
                    Ok(TokenView::Comma(_)) => union_spec(seq![d as isize], r2),
                    Ok(TokenView::Split(_)) => range_from_spec(d as isize, r2),
                    _ => (Ok(leaf_view(ParseTokenView::Number(v))), r2),
                }
            },
        },
        _ => (Err(reader_msg(r1)), r1),
    }
}

/// What stands between brackets when it is not a filter or `*`.
pub open spec fn array_value_spec(r: ReaderView) -> Parsed {
    match front_of(r) {
        Ok(TokenView::Key(_, _)) => value_key_spec(r),
        Ok(TokenView::Split(_)) => range_to_spec(taken(r)),
        Ok(TokenView::DoubleQuoted(_, _)) | Ok(TokenView::SingleQuoted(_, _)) => quote_value_spec(r),
        Err(TokenError::Eof) => (Ok(leaf_view(ParseTokenView::Eof)), r),
        _ => (Err(reader_msg(taken(r))), taken(r)),
    }
}

/// A number with a fraction, whose integer part `num` has been read.
pub open spec fn num_float_spec(num: Seq<char>, r: ReaderView) -> Parsed {
    let (n, r2) = next_of(taken(r));
    match n {
        Ok(TokenView::Key(pos, frac)) => {
            let f = num.push('.') + frac;
            if parse_f64_accepts(f) {
                (Ok(leaf_view(ParseTokenView::Number(f))), r2)
            } else {
                (Err(err_text(r2.origin, pos)), r2)
            }
        },
        _ => (Err(reader_msg(r2)), r2),
    }
}

/// A number operand.
pub open spec fn num_spec(r: ReaderView) -> Parsed {
    let (n, r1) = next_of(r);
    match n {
        Ok(TokenView::Key(pos, v)) => match front_of(r1) {
            Ok(TokenView::Dot(_)) => num_float_spec(v, r1),
            _ => if parse_f64_accepts(v) {
                (Ok(leaf_view(ParseTokenView::Number(v))), r1)
            } else {
                (Err(err_text(r1.origin, pos)), r1)
            },
        },
        _ => (Err(reader_msg(r1)), r1),
    }
}

/// The token of a comparison operator.
pub open spec fn op_token(t: TokenView) -> Option<ParseTokenView> {
    match t {
        TokenView::Equal(_) => Some(ParseTokenView::Filter(FilterToken::Equal)),
        TokenView::NotEqual(_) => Some(ParseTokenView::Filter(FilterToken::NotEqual)),
        TokenView::Little(_) => Some(ParseTokenView::Filter(FilterToken::Little)),
        TokenView::LittleOrEqual(_) => Some(ParseTokenView::Filter(FilterToken::LittleOrEqual)),
        TokenView::Greater(_) => Some(ParseTokenView::Filter(FilterToken::Greater)),
        TokenView::GreaterOrEqual(_) => Some(ParseTokenView::Filter(FilterToken::GreaterOrEqual)),
        _ => None,
    }
}

/// `.key` extends the path with an `In` step to that key, and `.*` with an
/// `In` step to all.
pub proof fn law_dot_step(prev: NodeView, r: ReaderView)
    ensures
        front_of(r) matches Ok(TokenView::Key(_, v)) ==> path_spec(prev, r) == (Ok::<
            NodeView,
            Seq<char>,
        >(branch_view(ParseTokenView::In, prev, leaf_view(ParseTokenView::Key(v)))), taken(r)),
        front_of(r) matches Ok(TokenView::Asterisk(_)) ==> path_spec(prev, r) == (Ok::<
            NodeView,
            Seq<char>,
        >(branch_view(ParseTokenView::In, prev, leaf_view(ParseTokenView::All))), taken(r)),
{
}

/// `..key` extends the path with a `Leaves` step to that key, and `..*`
/// with a `Leaves` step to all.
pub proof fn law_dot_dot_step(prev: NodeView, r: ReaderView)
    requires
        front_of(r) matches Ok(TokenView::Dot(_)),
    ensures
        front_of(taken(r)) matches Ok(TokenView::Key(_, v)) ==> path_spec(prev, r) == (Ok::<
            NodeView,
            Seq<char>,
        >(branch_view(ParseTokenView::Leaves, prev, leaf_view(ParseTokenView::Key(v)))), taken(
            taken(r),
        )),
        front_of(taken(r)) matches Ok(TokenView::Asterisk(_)) ==> path_spec(prev, r) == (Ok::<
            NodeView,
            Seq<char>,
        >(branch_view(ParseTokenView::Leaves, prev, leaf_view(ParseTokenView::All))), taken(
            taken(r),
        )),
{
}

/// The text of each filter operator.
pub open spec fn filter_symbol(f: FilterToken) -> Seq<char> {
    match f {
        FilterToken::Equal => seq!['=', '='],
        FilterToken::NotEqual => seq!['!', '='],
        FilterToken::Little => seq!['<'],
        FilterToken::LittleOrEqual => seq!['<', '='],
        FilterToken::Greater => seq!['>'],
        FilterToken::GreaterOrEqual => seq!['>', '='],
        FilterToken::And => seq!['&', '&'],
        FilterToken::Or => seq!['|', '|'],
    }
}

/// A comparison keeps the operator it was written with: the filter token
/// that a comparison token becomes has that token's text, and exactly the
/// six comparison tokens become one. So no two comparisons are confused.
pub proof fn law_comparison_keeps_its_operator(t: TokenView)
    ensures
        op_token(t) is Some <==> (t is Equal || t is NotEqual || t is Little || t is LittleOrEqual
            || t is Greater || t is GreaterOrEqual),
        op_token(t) matches Some(p) ==> (p matches ParseTokenView::Filter(f) && filter_symbol(f)
            == simple_name(t)),
{
}

/// Two comparison tokens become the same filter token only when they are
/// of one kind.
pub proof fn law_comparison_tokens_stay_apart(a: TokenView, b: TokenView)
    requires
        op_token(a) is Some,
        op_token(b) is Some,
        op_token(a) == op_token(b),
    ensures
        simple_name(a) == simple_name(b),
{
    law_comparison_keeps_its_operator(a);
    law_comparison_keeps_its_operator(b);
}

/// A path from `$`.
pub open spec fn json_path_spec(r: ReaderView) -> Parsed
    decreases r.ts.len(), 0nat,
{
    let (n, r1) = next_of(r);
    match n {
        Ok(TokenView::Absolute(_)) => if r1.ts.len() < r.ts.len() {
            paths_spec(leaf_view(ParseTokenView::Absolute), r1)
        } else {
            unreachable(r1)
        },
        _ => (Err(reader_msg(r1)), r1),
    }
}

/// The steps that extend the path `prev`.
pub open spec fn paths_spec(prev: NodeView, r: ReaderView) -> Parsed
    decreases r.ts.len(), 0nat,
{
    match front_of(r) {
        Ok(TokenView::Dot(_)) => if taken(r).ts.len() < r.ts.len() {
            paths_dot_spec(prev, taken(r))
        } else {
            unreachable(r)
        },
        Ok(TokenView::OpenArray(_)) => {
            let r1 = skip_ws(taken(r));
            if r1.ts.len() < r.ts.len() {
                let (a, r2) = array_spec(prev, r1);
                match a {
                    Err(e) => (Err(e), r2),
                    Ok(node) => if r2.ts.len() < r.ts.len() {
                        paths_spec(node, r2)
                    } else {
                        unreachable(r2)
                    },
                }
            } else {
                unreachable(r1)
            }
        },
        _ => (Ok(prev), r),
    }
}

/// A step after `.`, then the steps after it.
pub open spec fn paths_dot_spec(prev: NodeView, r: ReaderView) -> Parsed
    decreases r.ts.len(), 2nat,
{
    let (p, r1) = path_spec(prev, r);
    match p {
        Err(e) => (Err(e), r1),
        Ok(node) => if r1.ts.len() <= r.ts.len() {
            paths_spec(node, r1)
        } else {
            unreachable(r1)
        },
    }
}

/// A step after `.`.
pub open spec fn path_spec(prev: NodeView, r: ReaderView) -> Parsed
    decreases r.ts.len(), 1nat,
{
    match front_of(r) {
        Ok(TokenView::Dot(_)) => path_leaves_spec(prev, r),
        Ok(TokenView::Asterisk(_)) => (
            Ok(branch_view(ParseTokenView::In, prev, leaf_view(ParseTokenView::All))),
            taken(r),
        ),
        Ok(TokenView::Key(_, _)) => {
            let (k, r1) = key_spec(r);
            match k {
                Ok(kn) => (Ok(branch_view(ParseTokenView::In, prev, kn)), r1),
                Err(e) => (Err(e), r1),
            }
        },
        Ok(TokenView::OpenArray(_)) => if taken(r).ts.len() < r.ts.len() {
            array_spec(prev, taken(r))
        } else {
            unreachable(r)
        },
        _ => (Err(reader_msg(r)), r),
    }
}

/// A step after `..`.
pub open spec fn path_leaves_spec(prev: NodeView, r: ReaderView) -> Parsed
    decreases r.ts.len(), 0nat,
{
    let r1 = taken(r);
    match front_of(r1) {
        Ok(TokenView::Asterisk(_)) => (
            Ok(branch_view(ParseTokenView::Leaves, prev, leaf_view(ParseTokenView::All))),
            taken(r1),
        ),
        Ok(TokenView::OpenArray(_)) => if r1.ts.len() < r.ts.len() {
            paths_spec(NodeView { token: ParseTokenView::Leaves, left: Some(Box::new(prev)), right: None }, r1)
        } else {
            unreachable(r1)
        },
        _ => {
            let (k, r2) = key_spec(r1);
            match k {
                Ok(kn) => (Ok(branch_view(ParseTokenView::Leaves, prev, kn)), r2),
                Err(e) => (Err(e), r2),
            }
        },
    }
}

/// Brackets after `prev`, whose `[` has been taken.
pub open spec fn array_spec(prev: NodeView, r: ReaderView) -> Parsed
    decreases r.ts.len(), 1nat,
{
    let (a, r1) = array_start_spec(prev, r);
    match a {
        Ok(ret) => close_spec(ret, seq![']'], skip_ws(r1)),
        Err(e) => (Err(e), r1),
    }
}

/// What stands between brackets.
pub open spec fn array_start_spec(prev: NodeView, r: ReaderView) -> Parsed
    decreases r.ts.len(), 0nat,
{
    match front_of(r) {
        Ok(TokenView::Question(_)) => if taken(r).ts.len() < r.ts.len() {
            let (f, r2) = filter_spec(taken(r));
            match f {
                Ok(fnode) => (Ok(branch_view(ParseTokenView::Array, prev, fnode)), r2),
                Err(e) => (Err(e), r2),
            }
        } else {
            unreachable(r)
        },
        Ok(TokenView::Asterisk(_)) => (
            Ok(branch_view(ParseTokenView::Array, prev, leaf_view(ParseTokenView::All))),
            taken(r),
        ),
        _ => {
            let (v, r1) = array_value_spec(r);
            match v {
                Ok(vn) => (Ok(branch_view(ParseTokenView::Array, prev, vn)), r1),
                Err(e) => (Err(e), r1),
            }
        },
    }
}

/// A filter `(..)` after `?`.
pub open spec fn filter_spec(r: ReaderView) -> Parsed
    decreases r.ts.len(), 0nat,
{
    let (n, r1) = next_of(r);
    match n {
        Ok(TokenView::OpenParenthesis(_)) => if r1.ts.len() < r.ts.len() {
            let (e, r2) = exprs_spec(r1);
            match e {
                Ok(ret) => close_spec(ret, seq![')'], skip_ws(r2)),
                Err(m) => (Err(m), r2),
            }
        } else {
            unreachable(r1)
        },
        _ => (Err(reader_msg(r1)), r1),
    }
}

/// Conditions joined by `&&` and `||`.
pub open spec fn exprs_spec(r: ReaderView) -> Parsed
    decreases r.ts.len(), 3nat,
{
    let r1 = skip_ws(r);
    if r1.ts.len() <= r.ts.len() {
        match front_of(r1) {
            Ok(TokenView::OpenParenthesis(_)) => {
                let r2 = taken(r1);
                if r2.ts.len() < r.ts.len() {
                    let (e, r3) = exprs_spec(r2);
                    match e {
                        Err(m) => (Err(m), r3),
                        Ok(ret) => {
                            let (c, r4) = close_spec(ret, seq![')'], skip_ws(r3));
                            match c {
                                Err(m) => (Err(m), r4),
                                Ok(node) => {
                                    let r5 = skip_ws(r4);
                                    if r5.ts.len() < r.ts.len() {
                                        condition_spec(node, r5)
                                    } else {
                                        unreachable(r5)
                                    }
                                },
                            }
                        },
                    }
                } else {
                    unreachable(r2)
                }
            },
            _ => {
                let (e, r2) = expr_spec(r1);
                match e {
                    Err(m) => (Err(m), r2),
                    Ok(node) => {
                        let r3 = skip_ws(r2);
                        if r3.ts.len() < r.ts.len() {
                            condition_spec(node, r3)
                        } else {
                            unreachable(r3)
                        }
                    },
                }
            },
        }
    } else {
        unreachable(r1)
    }
}

/// `&&` or `||` and the conditions after it, or nothing.
pub open spec fn condition_spec(prev: NodeView, r: ReaderView) -> Parsed
    decreases r.ts.len(), 0nat,
{
    match front_of(r) {
        Ok(TokenView::And(_)) | Ok(TokenView::Or(_)) => if taken(r).ts.len() < r.ts.len() {
            let (e, r2) = exprs_spec(taken(r));
            match e {
                Ok(right) => (
                    Ok(
                        branch_view(
                            ParseTokenView::Filter(
                                if front_of(r) matches Ok(TokenView::And(_)) {
                                    FilterToken::And
                                } else {
                                    FilterToken::Or
                                },
                            ),
                            prev,
                            right,
                        ),
                    ),
                    r2,
                ),
                Err(m) => (Err(m), r2),
            }
        } else {
            unreachable(r)
        },
        _ => (Ok(prev), r),
    }
}

/// The text of a key token.
pub open spec fn key_text(t: Result<TokenView, TokenError>) -> Seq<char> {
    match t {
        Ok(TokenView::Key(_, k)) => k,
        _ => Seq::empty(),
    }
}

/// A key that starts like a number: a sign or a digit.
pub open spec fn number_start(k: Seq<char>) -> bool {
    k.len() > 0 && (k[0] == '-' || ('0' <= k[0] && k[0] <= '9'))
}

/// A comparison, or a path from `@` alone.
pub open spec fn expr_spec(r: ReaderView) -> Parsed
    decreases r.ts.len(), 2nat,
{
    let prop = front_of(r) matches Ok(TokenView::At(_));
    let (t, r1) = term_spec(r);
    match t {
        Err(m) => (Err(m), r1),
        Ok(node) => {
            let r2 = skip_ws(r1);
            if r2.ts.len() <= r.ts.len() {
                if r2.ts.len() > 0 && op_token(r2.ts[0].1) is Some {
                    op_spec(node, r2)
                } else if prop {
                    (Ok(node), r2)
                } else {
                    (Err(reader_msg(r2)), r2)
                }
            } else {
                unreachable(r2)
            }
        },
    }
}

/// An operand of a comparison.
pub open spec fn term_spec(r: ReaderView) -> Parsed
    decreases r.ts.len(), 1nat,
{
    if front_of(r) matches Ok(TokenView::At(_)) {
        let r1 = taken(r);
        match front_of(r1) {
            Ok(TokenView::Whitespace(_, _)) => (Ok(leaf_view(ParseTokenView::Relative)), skip_ws(r1)),
            _ => if r1.ts.len() < r.ts.len() {
                paths_spec(leaf_view(ParseTokenView::Relative), r1)
            } else {
                unreachable(r1)
            },
        }
    } else if front_of(r) matches Ok(TokenView::Absolute(_)) {
        json_path_spec(r)
    } else if front_of(r) matches Ok(TokenView::DoubleQuoted(_, _)) || front_of(r) matches Ok(
        TokenView::SingleQuoted(_, _),
    ) {
        quote_value_spec(r)
    } else if front_of(r) matches Ok(TokenView::Key(_, _)) {
        if number_start(key_text(front_of(r))) {
            num_spec(r)
        } else {
            boolean_spec(r)
        }
    } else {
        (Err(reader_msg(r)), r)
    }
}

/// A comparison operator after the operand `prev`, and the operand after it.
pub open spec fn op_spec(prev: NodeView, r: ReaderView) -> Parsed
    decreases r.ts.len(), 0nat,
{
    let (n, r1) = next_of(r);
    match n {
        Ok(t) => match op_token(t) {
            Some(tok) => {
                let r2 = skip_ws(r1);
                if r2.ts.len() < r.ts.len() {
                    let (right, r3) = term_spec(r2);
                    match right {
                        Ok(rn) => (Ok(branch_view(tok, prev, rn)), r3),
                        Err(m) => (Err(m), r3),
                    }
                } else {
                    unreachable(r2)
                }
            },
            None => (Err(reader_msg(r1)), r1),
        },
        Err(_) => (Err(reader_msg(r1)), r1),
    }
}

/// The reader that `TokenReader::new` makes for `input`.
pub open spec fn reader_of(input: Seq<char>) -> ReaderView {
    let (ts, e, ep) = tokenize(input, 0);
    ReaderView { ts, cur: None, origin: input, err: e, err_pos: ep }
}

/// What `compile` gives for `input`.
pub open spec fn compile_spec(input: Seq<char>) -> Result<NodeView, Seq<char>> {
    json_path_spec(reader_of(input)).0
}

/// A path must start at the root `$`: `compile` refuses any other start.
pub proof fn law_compile_needs_root(input: Seq<char>)
    requires
        !(front_of(reader_of(input)) matches Ok(TokenView::Absolute(_))),
    ensures
        compile_spec(input) is Err,
{
}

proof fn lemma_simple_names(t: TokenView)
    ensures
        (simple_name(t) == seq!['@']) <==> t is At,
        (simple_name(t) == seq!['$']) <==> t is Absolute,
        (simple_name(t) == seq!['"']) <==> t is DoubleQuoted,
        (simple_name(t) == seq!['\'']) <==> t is SingleQuoted,
        (simple_name(t) == seq!['K', 'e', 'y']) <==> t is Key,
{
    let n = simple_name(t);
    assert(n.len() == 1 ==> n == seq![n[0]]);
    assert(n.len() == 3 ==> n == seq![n[0], n[1], n[2]]);
}

const DUMMY: usize = 0;

pub struct Parser;

impl Parser {
    fn node(token: ParseToken) -> (n: Node)
        ensures
            leaf_of(n, token),
            node_view(n) == leaf_view(token@),
    {
        Node { left: None, right: None, token }
    }

    fn eat_token(tokenizer: &mut TokenReader)
        ensures
            final(tokenizer)@ == taken(old(tokenizer)@),
            final(tokenizer).took_from(old(tokenizer)),
            old(tokenizer).pending().len() > 0 ==> final(tokenizer).pending().len()
                == old(tokenizer).pending().len() - 1,
    {
        let _ = tokenizer.next_token();
        proof {
            lemma_skip_facts(old(tokenizer).pending());
        }
    }

    fn eat_whitespace(tokenizer: &mut TokenReader)
        ensures
            final(tokenizer)@ == skip_ws(old(tokenizer)@),
            final(tokenizer).took_from(old(tokenizer)),
            final(tokenizer).pending().len() > 0 ==> !(final(tokenizer).pending()[0].1 is Whitespace),
            forall|i: int|
                0 <= i < old(tokenizer).pending().len() - final(tokenizer).pending().len()
                    ==> #[trigger] old(tokenizer).pending()[i].1 is Whitespace,
    {
        let ghost start = *tokenizer;
        assert(start.pending() =~= start.pending().skip(0));
        loop
            invariant
                tokenizer.took_from(&start),
                skip_ws(tokenizer@) == skip_ws(start@),
                forall|i: int|
                    0 <= i < start.pending().len() - tokenizer.pending().len()
                        ==> #[trigger] start.pending()[i].1 is Whitespace,
            ensures
                tokenizer@ == skip_ws(start@),
                tokenizer.took_from(&start),
                forall|i: int|
                    0 <= i < start.pending().len() - tokenizer.pending().len()
                        ==> #[trigger] start.pending()[i].1 is Whitespace,
                tokenizer.pending().len() > 0 ==> !(tokenizer.pending()[0].1 is Whitespace),
            decreases tokenizer.pending().len(),
        {
            let is_ws = match tokenizer.peek_token() {
                Ok(Token::Whitespace(_, _)) => true,
                _ => false,
            };
            if !is_ws {
                break;
            }
            let ghost before = *tokenizer;
            let _ = tokenizer.next_token();
            proof {
                assert(start.pending()[start.pending().len() - before.pending().len()]
                    == before.pending()[0]);
                assert(tokenizer.pending() =~= start.pending().skip(
                    start.pending().len() - tokenizer.pending().len(),
                ));
            }
        }
    }

    fn close_token(ret: Node, token: Token, tokenizer: &mut TokenReader) -> (res: ParseResult<Node>)
        ensures
            (result_view(res), final(tokenizer)@) == close_spec(
                node_view(ret),
                simple_name(token@),
                old(tokenizer)@,
            ),
            final(tokenizer).took_from(old(tokenizer)),
            msg_ok(old(tokenizer).origin(), res),
            res is Ok <==> (old(tokenizer).pending().len() > 0 && simple_name(
                old(tokenizer).pending()[0].1,
            ) == simple_name(token@)),
            res is Ok ==> res->Ok_0 == ret && final(tokenizer).pending().len() < old(
                tokenizer,
            ).pending().len(),
    {
        let next = tokenizer.next_token();
        proof {
            lemma_skip_facts(old(tokenizer).pending());
        }
        match next {
            Ok(ref t) if t.partial_eq(token) => Ok(ret),
            _ => Err(Self::error_msg(tokenizer)),
        }
    }

    /// The parser's error message: where the last token taken ends.
    fn error_msg(tokenizer: &TokenReader) -> (m: String)
        ensures
            m@ == reader_msg(tokenizer@),
            is_err_msg(tokenizer.origin(), m@),
    {
        let m = tokenizer.err_msg();
        let ghost p = match tokenizer.current() {
            Some(p) => p as nat,
            None => tokenizer.error_pos(),
        };
        assert(m@ == err_text(tokenizer.origin(), p));
        m
    }

    /// A message that points at byte offset `pos`.
    fn error_msg_at(tokenizer: &TokenReader, pos: usize) -> (m: String)
        ensures
            m@ == err_text(tokenizer@.origin, pos as nat),
            is_err_msg(tokenizer.origin(), m@),
    {
        let m = tokenizer.err_msg_with_pos(pos);
        assert(m@ == err_text(tokenizer.origin(), pos as nat));
        m
    }

    fn key(tokenizer: &mut TokenReader) -> (res: ParseResult<Node>)
        ensures
            (result_view(res), final(tokenizer)@) == key_spec(old(tokenizer)@),
            final(tokenizer).took_from(old(tokenizer)),
            msg_ok(old(tokenizer).origin(), res),
            res is Ok <==> (old(tokenizer).pending().len() > 0 && old(
                tokenizer,
            ).pending()[0].1 is Key),
            res is Ok ==> {
                &&& final(tokenizer).pending().len() < old(tokenizer).pending().len()
                &&& is_leaf(res->Ok_0)
                &&& res->Ok_0.token matches ParseToken::Key(k)
                &&& old(tokenizer).pending()[0].1 matches TokenView::Key(_, v)
                &&& k@ == v
            },
    {
        let next = tokenizer.next_token();
        proof {
            lemma_skip_facts(old(tokenizer).pending());
        }
        match next {
            Ok(Token::Key(_, v)) => Ok(Self::node(ParseToken::Key(v))),
            _ => Err(Self::error_msg(tokenizer)),
        }
    }

    fn boolean(tokenizer: &mut TokenReader) -> (res: ParseResult<Node>)
        ensures
            (result_view(res), final(tokenizer)@) == boolean_spec(old(tokenizer)@),
            final(tokenizer).took_from(old(tokenizer)),
            msg_ok(old(tokenizer).origin(), res),
            res is Ok <==> (old(tokenizer).pending().len() > 0 && bool_key(
                old(tokenizer).pending()[0].1,
            )),
            res is Ok ==> {
                &&& final(tokenizer).pending().len() < old(tokenizer).pending().len()
                &&& is_leaf(res->Ok_0)
                &&& old(tokenizer).pending()[0].1 matches TokenView::Key(_, v)
                &&& res->Ok_0.token == ParseToken::Bool(
                    eq_ignore_case(v, seq!['t', 'r', 'u', 'e']),
                )
            },
    {
        let next = tokenizer.next_token();
        proof {
            lemma_skip_facts(old(tokenizer).pending());
        }
        match next {
            Ok(Token::Key(_, ref v)) => {
                let vs = v.as_str();
                let n = vs.unicode_len();
                if n > 0 && {
                    let c = vs.get_char(0);
                    c == 't' || c == 'T' || c == 'f' || c == 'F'
                } {
                    proof {
                        reveal_strlit("true");
                        assert(vs@.skip(0) =~= vs@);
                    }
                    Ok(Self::node(ParseToken::Bool(eq_ignore_case_from(vs, 0, "true"))))
                } else {
                    Err(Self::error_msg(tokenizer))
                }
            },
            _ => Err(Self::error_msg(tokenizer)),
        }
    }

    #[verifier::spinoff_prover]
    #[verifier::rlimit(40)]
    fn array_keys(tokenizer: &mut TokenReader, first_key: String) -> (res: ParseResult<Node>)
        ensures
            (result_view(res), final(tokenizer)@) == keys_spec(seq![first_key@], old(tokenizer)@),
            final(tokenizer).took_from(old(tokenizer)),
            msg_ok(old(tokenizer).origin(), res),
            res is Ok ==> {
                &&& is_leaf(res->Ok_0)
                &&& res->Ok_0.token matches ParseToken::Keys(ks)
                &&& ks@.len() >= 1
                &&& ks@[0] == first_key
            },
    {
        let ghost start = *tokenizer;
        proof {
            TokenReader::lemma_took_from_refl(tokenizer);
        }
        let ghost target = keys_spec(seq![first_key@], tokenizer@);
        let mut keys: Vec<String> = Vec::new();
        keys.push(first_key);
        assert(keys@.map_values(|k: String| k@) =~= seq![first_key@]);
        proof {
            reveal_strlit(",");
        }
        while tokenizer.peek_is(COMMA)
            invariant
                start == *old(tokenizer),
                tokenizer.took_from(&start),
                keys@.len() >= 1,
                keys@[0] == first_key,
                target == keys_spec(seq![first_key@], old(tokenizer)@),
                keys_spec(keys@.map_values(|k: String| k@), tokenizer@) == target,
                COMMA@ == seq![','],
            decreases tokenizer.pending().len(),
        {
            let ghost s0 = *tokenizer;
            let ghost kv0 = keys@.map_values(|k: String| k@);
            Self::eat_token(tokenizer);
            let ghost sa = *tokenizer;
            Self::eat_whitespace(tokenizer);
            let ghost s1 = *tokenizer;
            let next = tokenizer.next_token();
            proof {
                TokenReader::lemma_took_from_trans(&s0, &sa, &s1);
                TokenReader::lemma_took_from_trans(&s0, &s1, tokenizer);
                TokenReader::lemma_took_from_trans(&start, &s0, tokenizer);
            }
            match next {
                Ok(Token::SingleQuoted(_, val)) | Ok(Token::DoubleQuoted(_, val)) => {
                    let ghost vv = val@;
                    keys.push(val);
                    assert(keys@.map_values(|k: String| k@) =~= kv0.push(vv));
                },
                _ => return Err(Self::error_msg(tokenizer)),
            }
            let ghost s2 = *tokenizer;
            Self::eat_whitespace(tokenizer);
            proof {
                TokenReader::lemma_took_from_trans(&start, &s2, tokenizer);
                assert(tokenizer@.ts.len() < s0@.ts.len());
            }
        }
        Ok(Self::node(ParseToken::Keys(keys)))
    }

    fn array_quote_value(tokenizer: &mut TokenReader) -> (res: ParseResult<Node>)
        ensures
            (result_view(res), final(tokenizer)@) == quote_value_spec(old(tokenizer)@),
            final(tokenizer).took_from(old(tokenizer)),
            msg_ok(old(tokenizer).origin(), res),
            res is Ok ==> {
                &&& final(tokenizer).pending().len() < old(tokenizer).pending().len()
                &&& is_leaf(res->Ok_0)
                &&& (res->Ok_0.token is Key || res->Ok_0.token is Keys)
            },
    {
        let ghost s0 = *tokenizer;
        let next = tokenizer.next_token();
        proof {
            lemma_skip_facts(s0.pending());
            reveal_strlit(",");
            assert(COMMA@ == seq![',']);
        }
        match next {
            Ok(Token::SingleQuoted(_, val)) | Ok(Token::DoubleQuoted(_, val)) => {
                if !tokenizer.peek_is(COMMA) {
                    Ok(Self::node(ParseToken::Key(val)))
                } else {
                    let ghost s1 = *tokenizer;
                    let r = Self::array_keys(tokenizer, val);
                    proof {
                        TokenReader::lemma_took_from_trans(&s0, &s1, tokenizer);
                    }
                    r
                }
            },
            _ => Err(Self::error_msg(tokenizer)),
        }
    }

    #[verifier::spinoff_prover]
    #[verifier::rlimit(40)]
    fn union(num: isize, tokenizer: &mut TokenReader) -> (res: ParseResult<Node>)
        ensures
            (result_view(res), final(tokenizer)@) == union_spec(seq![num], old(tokenizer)@),
            final(tokenizer).took_from(old(tokenizer)),
            msg_ok(old(tokenizer).origin(), res),
            res is Ok ==> {
                &&& is_leaf(res->Ok_0)
                &&& res->Ok_0.token matches ParseToken::Union(vs)
                &&& vs@.len() >= 1
                &&& vs@[0] == num
            },
    {
        let ghost start = *tokenizer;
        proof {
            TokenReader::lemma_took_from_refl(tokenizer);
        }
        let ghost target = union_spec(seq![num], tokenizer@);
        let mut values: Vec<isize> = Vec::new();
        values.push(num);
        assert(values@ =~= seq![num]);
        loop
            invariant_except_break
                union_spec(values@, tokenizer@) == target,
            invariant
                start == *old(tokenizer),
                tokenizer.took_from(&start),
                values@.len() >= 1,
                values@[0] == num,
                target == union_spec(seq![num], old(tokenizer)@),
            ensures
                tokenizer.took_from(&start),
                values@.len() >= 1,
                values@[0] == num,
                target == (
                    Ok::<NodeView, Seq<char>>(leaf_view(ParseTokenView::Union(values@))),
                    tokenizer@,
                ),
            decreases tokenizer.pending().len(),
        {
            let more = match tokenizer.peek_token() {
                Ok(Token::Comma(_)) => true,
                _ => false,
            };
            if !more {
                break;
            }
            let ghost s0 = *tokenizer;
            let ghost v0 = values@;
            Self::eat_token(tokenizer);
            let ghost sa = *tokenizer;
            Self::eat_whitespace(tokenizer);
            let ghost s1 = *tokenizer;
            let next = tokenizer.next_token();
            proof {
                TokenReader::lemma_took_from_trans(&s0, &sa, &s1);
                TokenReader::lemma_took_from_trans(&s0, &s1, tokenizer);
                TokenReader::lemma_took_from_trans(&start, &s0, tokenizer);
            }
            match next {
                Ok(Token::Key(pos, ref val)) => {
                    let t: &TokenReader = tokenizer;
                    let handler = || -> (m: String)
                        ensures
                            is_err_msg(t.origin(), m@),
                            m@ == err_text(t@.origin, pos as nat),
                        { Self::error_msg_at(t, pos) };
                    let digit = match string_to_num(val.as_str(), handler) {
                        Ok(v) => v,
                        Err(e) => return Err(e),
                    };
                    values.push(digit);
                    assert(tokenizer@.ts.len() < s0@.ts.len());
                },
                _ => {
                    return Err(Self::error_msg(tokenizer));
                },
            }
        }
        Ok(Self::node(ParseToken::Union(values)))
    }

    fn range_value(tokenizer: &mut TokenReader) -> (res: Result<Option<usize>, String>)
        ensures
            (
                match res {
                    Ok(v) => Ok::<Option<usize>, Seq<char>>(v),
                    Err(e) => Err(e@),
                },
                final(tokenizer)@,
            ) == range_value_spec(old(tokenizer)@),
            final(tokenizer).took_from(old(tokenizer)),
            msg_ok(old(tokenizer).origin(), res),
    {
        let ghost s0 = *tokenizer;
        Self::eat_whitespace(tokenizer);
        let ghost s1 = *tokenizer;
        match tokenizer.peek_token() {
            Ok(Token::Split(_)) => {
                Self::eat_token(tokenizer);
                let ghost s2 = *tokenizer;
                Self::eat_whitespace(tokenizer);
                proof {
                    TokenReader::lemma_took_from_trans(&s0, &s1, &s2);
                    TokenReader::lemma_took_from_trans(&s0, &s2, tokenizer);
                }
            },
            _ => {
                return Ok(None);
            },
        }
        match tokenizer.peek_token() {
            Ok(Token::Key(_, _)) => {},
            _ => {
                return Ok(None);
            },
        }
        let ghost s3 = *tokenizer;
        let next = tokenizer.next_token();
        proof {
            TokenReader::lemma_took_from_trans(&s0, &s3, tokenizer);
        }
        match next {
            Ok(Token::Key(pos, str_step)) => {
                let t: &TokenReader = tokenizer;
                let handler = || -> (m: String)
                    ensures
                        is_err_msg(t.origin(), m@),
                        m@ == err_text(t@.origin, pos as nat),
                    { Self::error_msg_at(t, pos) };
                match string_to_usize(str_step.as_str(), handler) {
                    Ok(step) => Ok(Some(step)),
                    Err(e) => Err(e),
                }
            },
            _ => {
                proof {
                    assert(false);
                }
                Ok(None)
            },
        }
    }

    fn range_from(from: isize, tokenizer: &mut TokenReader) -> (res: ParseResult<Node>)
        ensures
            (result_view(res), final(tokenizer)@) == range_from_spec(from, old(tokenizer)@),
            final(tokenizer).took_from(old(tokenizer)),
            msg_ok(old(tokenizer).origin(), res),
            res is Ok ==> {
                &&& is_leaf(res->Ok_0)
                &&& res->Ok_0.token matches ParseToken::Range(Some(f), _, _)
                &&& f == from
            },
    {
        let ghost s0 = *tokenizer;
        Self::eat_token(tokenizer);
        let ghost s1 = *tokenizer;
        Self::eat_whitespace(tokenizer);
        let ghost s2 = *tokenizer;
        proof {
            TokenReader::lemma_took_from_trans(&s0, &s1, &s2);
            TokenReader::lemma_took_from_refl(&s2);
        }
        let res = match tokenizer.peek_token() {
            Ok(Token::Key(_, _)) => Self::range(from, tokenizer),
            Ok(Token::Split(_)) => match Self::range_value(tokenizer) {
                Ok(Some(step)) => Ok(Self::node(ParseToken::Range(Some(from), None, Some(step)))),
                Ok(None) => Ok(Self::node(ParseToken::Range(Some(from), None, None))),
                Err(e) => Err(e),
            },
            _ => Ok(Self::node(ParseToken::Range(Some(from), None, None))),
        };
        proof {
            TokenReader::lemma_took_from_trans(&s0, &s2, tokenizer);
        }
        res
    }

    #[verifier::spinoff_prover]
    #[verifier::rlimit(40)]
    fn range_to(tokenizer: &mut TokenReader) -> (res: ParseResult<Node>)
        ensures
            (result_view(res), final(tokenizer)@) == range_to_spec(old(tokenizer)@),
            final(tokenizer).took_from(old(tokenizer)),
            msg_ok(old(tokenizer).origin(), res),
            res is Ok ==> {
                &&& is_leaf(res->Ok_0)
                &&& res->Ok_0.token matches ParseToken::Range(None, _, _)
            },
    {
        let ghost s0 = *tokenizer;
        match Self::range_value(tokenizer) {
            Ok(Some(step)) => {
                return Ok(Self::node(ParseToken::Range(None, None, Some(step))));
            },
            Ok(None) => {},
            Err(e) => {
                return Err(e);
            },
        }
        match tokenizer.peek_token() {
            Ok(Token::CloseArray(_)) => {
                return Ok(Self::node(ParseToken::Range(None, None, None)));
            },
            _ => {},
        }
        let ghost s1 = *tokenizer;
        let next = tokenizer.next_token();
        proof {
            TokenReader::lemma_took_from_trans(&s0, &s1, tokenizer);
        }
        match next {
            Ok(Token::Key(pos, ref to_str)) => {
                let t: &TokenReader = tokenizer;
                let handler = || -> (m: String)
                    ensures
                        is_err_msg(t.origin(), m@),
                        m@ == err_text(t@.origin, pos as nat),
                    { Self::error_msg_at(t, pos) };
                let to = match string_to_num(to_str.as_str(), handler) {
                    Ok(v) => v,
                    Err(e) => return Err(e),
                };
                let ghost s2 = *tokenizer;
                let step = Self::range_value(tokenizer);
                proof {
                    TokenReader::lemma_took_from_trans(&s0, &s2, tokenizer);
                }
                let step = match step {
                    Ok(v) => v,
                    Err(e) => return Err(e),
                };
                Ok(Self::node(ParseToken::Range(None, Some(to), step)))
            },
            _ => Err(Self::error_msg(tokenizer)),
        }
    }

    fn range(from: isize, tokenizer: &mut TokenReader) -> (res: ParseResult<Node>)
        ensures
            (result_view(res), final(tokenizer)@) == range_spec(from, old(tokenizer)@),
            final(tokenizer).took_from(old(tokenizer)),
            msg_ok(old(tokenizer).origin(), res),
            res is Ok ==> {
                &&& is_leaf(res->Ok_0)
                &&& res->Ok_0.token matches ParseToken::Range(Some(f), Some(_), _)
                &&& f == from
            },
    {
        let ghost s0 = *tokenizer;
        let next = tokenizer.next_token();
        match next {
            Ok(Token::Key(pos, ref str_to)) => {
                let t: &TokenReader = tokenizer;
                let handler = || -> (m: String)
                    ensures
                        is_err_msg(t.origin(), m@),
                        m@ == err_text(t@.origin, pos as nat),
                    { Self::error_msg_at(t, pos) };
                let to = match string_to_num(str_to.as_str(), handler) {
                    Ok(v) => v,
                    Err(e) => return Err(e),
                };
                let ghost s1 = *tokenizer;
                let step = Self::range_value(tokenizer);
                proof {
                    TokenReader::lemma_took_from_trans(&s0, &s1, tokenizer);
                }
                let step = match step {
                    Ok(v) => v,
                    Err(e) => return Err(e),
                };
                Ok(Self::node(ParseToken::Range(Some(from), Some(to), step)))
            },
            _ => Err(Self::error_msg(tokenizer)),
        }
    }

    #[verifier::spinoff_prover]
    #[verifier::rlimit(40)]
    fn array_value_key(tokenizer: &mut TokenReader) -> (res: ParseResult<Node>)
        ensures
            (result_view(res), final(tokenizer)@) == value_key_spec(old(tokenizer)@),
            final(tokenizer).took_from(old(tokenizer)),
            msg_ok(old(tokenizer).origin(), res),
            res is Ok ==> {
                &&& is_leaf(res->Ok_0)
                &&& number_ok(res->Ok_0.token)
                &&& (res->Ok_0.token is Number || res->Ok_0.token is Union || res->Ok_0.token is Range)
            },
    {
        let ghost s0 = *tokenizer;
        let next = tokenizer.next_token();
        match next {
            Ok(Token::Key(pos, val)) => {
                let t: &TokenReader = tokenizer;
                let handler = || -> (m: String)
                    ensures
                        is_err_msg(t.origin(), m@),
                        m@ == err_text(t@.origin, pos as nat),
                    { Self::error_msg_at(t, pos) };
                let digit = match string_to_num(val.as_str(), handler) {
                    Ok(v) => v,
                    Err(e) => return Err(e),
                };
                let ghost s1 = *tokenizer;
                Self::eat_whitespace(tokenizer);
                let ghost s2 = *tokenizer;
                proof {
                    TokenReader::lemma_took_from_trans(&s0, &s1, &s2);
                    TokenReader::lemma_took_from_refl(&s2);
                }
                let res = match tokenizer.peek_token() {
                    Ok(Token::Comma(_)) => Self::union(digit, tokenizer),
                    Ok(Token::Split(_)) => Self::range_from(digit, tokenizer),
                    _ => {
                        proof {
                            lemma_isize_is_float(val@);
                        }
                        Ok(Self::node(ParseToken::Number(val)))
                    },
                };
                proof {
                    TokenReader::lemma_took_from_trans(&s0, &s2, tokenizer);
                }
                res
            },
            _ => Err(Self::error_msg(tokenizer)),
        }
    }

    fn array_value(tokenizer: &mut TokenReader) -> (res: ParseResult<Node>)
        ensures
            (result_view(res), final(tokenizer)@) == array_value_spec(old(tokenizer)@),
            final(tokenizer).took_from(old(tokenizer)),
            msg_ok(old(tokenizer).origin(), res),
            res is Ok ==> is_array_arg(res->Ok_0),
    {
        let ghost s0 = *tokenizer;
        proof {
            TokenReader::lemma_took_from_refl(tokenizer);
        }
        match tokenizer.peek_token() {
            Ok(Token::Key(_, _)) => Self::array_value_key(tokenizer),
            Ok(Token::Split(_)) => {
                Self::eat_token(tokenizer);
                let ghost s1 = *tokenizer;
                let res = Self::range_to(tokenizer);
                proof {
                    TokenReader::lemma_took_from_trans(&s0, &s1, tokenizer);
                }
                res
            },
            Ok(Token::DoubleQuoted(_, _)) | Ok(Token::SingleQuoted(_, _)) => {
                Self::array_quote_value(tokenizer)
            },
            Err(TokenError::Eof) => Ok(Self::node(ParseToken::Eof)),
            _ => {
                Self::eat_token(tokenizer);
                Err(Self::error_msg(tokenizer))
            },
        }
    }

    fn term_num(tokenizer: &mut TokenReader) -> (res: ParseResult<Node>)
        ensures
            (result_view(res), final(tokenizer)@) == num_spec(old(tokenizer)@),
            final(tokenizer).took_from(old(tokenizer)),
            msg_ok(old(tokenizer).origin(), res),
            res is Ok ==> {
                &&& final(tokenizer).pending().len() < old(tokenizer).pending().len()
                &&& is_leaf(res->Ok_0)
                &&& res->Ok_0.token is Number
                &&& number_ok(res->Ok_0.token)
            },
    {
        let ghost s0 = *tokenizer;
        let next = tokenizer.next_token();
        match next {
            Ok(Token::Key(pos, val)) => match tokenizer.peek_token() {
                Ok(Token::Dot(_)) => {
                    let ghost s1 = *tokenizer;
                    let res = Self::term_num_float(val.as_str(), tokenizer);
                    proof {
                        TokenReader::lemma_took_from_trans(&s0, &s1, tokenizer);
                    }
                    res
                },
                _ => {
                    let t: &TokenReader = tokenizer;
                    let handler = || -> (m: String)
                        ensures
                            is_err_msg(t.origin(), m@),
                            m@ == err_text(t@.origin, pos as nat),
                        { Self::error_msg_at(t, pos) };
                    let number = match string_to_float(val.as_str(), handler) {
                        Ok(v) => v,
                        Err(e) => return Err(e),
                    };
                    Ok(Self::node(ParseToken::Number(number)))
                },
            },
            _ => Err(Self::error_msg(tokenizer)),
        }
    }

    fn term_num_float(num: &str, tokenizer: &mut TokenReader) -> (res: ParseResult<Node>)
        ensures
            (result_view(res), final(tokenizer)@) == num_float_spec(num@, old(tokenizer)@),
            final(tokenizer).took_from(old(tokenizer)),
            msg_ok(old(tokenizer).origin(), res),
            res is Ok ==> {
                &&& is_leaf(res->Ok_0)
                &&& res->Ok_0.token is Number
                &&& number_ok(res->Ok_0.token)
            },
    {
        let ghost s0 = *tokenizer;
        Self::eat_token(tokenizer);
        let ghost s1 = *tokenizer;
        let next = tokenizer.next_token();
        proof {
            TokenReader::lemma_took_from_trans(&s0, &s1, tokenizer);
        }
        match next {
            Ok(Token::Key(pos, frac)) => {
                let mut f = String::new();
                f.append(num);
                push_char(&mut f, '.');
                f.append(frac.as_str());
                let t: &TokenReader = tokenizer;
                let handler = || -> (m: String)
                    ensures
                        is_err_msg(t.origin(), m@),
                        m@ == err_text(t@.origin, pos as nat),
                    { Self::error_msg_at(t, pos) };
                let number = match string_to_float(f.as_str(), handler) {
                    Ok(v) => v,
                    Err(e) => return Err(e),
                };
                Ok(Self::node(ParseToken::Number(number)))
            },
            _ => Err(Self::error_msg(tokenizer)),
        }
    }

    fn path_leaves_key(prev: Node, tokenizer: &mut TokenReader) -> (res: ParseResult<Node>)
        requires
            is_path(prev),
        ensures
            ({
                let (k, r1) = key_spec(old(tokenizer)@);
                (result_view(res), final(tokenizer)@) == (
                    match k {
                        Ok(kn) => Ok(branch_view(ParseTokenView::Leaves, node_view(prev), kn)),
                        Err(e) => Err(e),
                    },
                    r1,
                )
            }),
            final(tokenizer).took_from(old(tokenizer)),
            msg_ok(old(tokenizer).origin(), res),
            res is Ok ==> {
                &&& is_path(res->Ok_0)
                &&& leftmost(res->Ok_0) == leftmost(prev)
                &&& final(tokenizer).pending().len() < old(tokenizer).pending().len()
            },
    {
        let right = match Self::key(tokenizer) {
            Ok(v) => v,
            Err(e) => return Err(e),
        };
        Ok(Node { token: ParseToken::Leaves, left: Some(Box::new(prev)), right: Some(Box::new(right)) })
    }

    fn path_leaves_all(prev: Node, tokenizer: &mut TokenReader) -> (res: ParseResult<Node>)
        requires
            is_path(prev),
        ensures
            (result_view(res), final(tokenizer)@) == (
                Ok::<NodeView, Seq<char>>(
                    branch_view(ParseTokenView::Leaves, node_view(prev), leaf_view(ParseTokenView::All)),
                ),
                taken(old(tokenizer)@),
            ),
            final(tokenizer).took_from(old(tokenizer)),
            res is Ok,
            is_path(res->Ok_0),
            leftmost(res->Ok_0) == leftmost(prev),
            old(tokenizer).pending().len() > 0 ==> final(tokenizer).pending().len() < old(
                tokenizer,
            ).pending().len(),
    {
        Self::eat_token(tokenizer);
        Ok(
            Node {
                token: ParseToken::Leaves,
                left: Some(Box::new(prev)),
                right: Some(Box::new(Self::node(ParseToken::All))),
            },
        )
    }

    fn path_in_all(prev: Node, tokenizer: &mut TokenReader) -> (res: ParseResult<Node>)
        requires
            is_path(prev),
        ensures
            (result_view(res), final(tokenizer)@) == (
                Ok::<NodeView, Seq<char>>(
                    branch_view(ParseTokenView::In, node_view(prev), leaf_view(ParseTokenView::All)),
                ),
                taken(old(tokenizer)@),
            ),
            final(tokenizer).took_from(old(tokenizer)),
            res is Ok,
            is_path(res->Ok_0),
            leftmost(res->Ok_0) == leftmost(prev),
            old(tokenizer).pending().len() > 0 ==> final(tokenizer).pending().len() < old(
                tokenizer,
            ).pending().len(),
    {
        Self::eat_token(tokenizer);
        Ok(
            Node {
                token: ParseToken::In,
                left: Some(Box::new(prev)),
                right: Some(Box::new(Self::node(ParseToken::All))),
            },
        )
    }

    fn path_in_key(prev: Node, tokenizer: &mut TokenReader) -> (res: ParseResult<Node>)
        requires
            is_path(prev),
        ensures
            ({
                let (k, r1) = key_spec(old(tokenizer)@);
                (result_view(res), final(tokenizer)@) == (
                    match k {
                        Ok(kn) => Ok(branch_view(ParseTokenView::In, node_view(prev), kn)),
                        Err(e) => Err(e),
                    },
                    r1,
                )
            }),
            final(tokenizer).took_from(old(tokenizer)),
            msg_ok(old(tokenizer).origin(), res),
            res is Ok ==> {
                &&& is_path(res->Ok_0)
                &&& leftmost(res->Ok_0) == leftmost(prev)
                &&& final(tokenizer).pending().len() < old(tokenizer).pending().len()
            },
    {
        let right = match Self::key(tokenizer) {
            Ok(v) => v,
            Err(e) => return Err(e),
        };
        Ok(Node { token: ParseToken::In, left: Some(Box::new(prev)), right: Some(Box::new(right)) })
    }

    fn json_path(tokenizer: &mut TokenReader) -> (res: ParseResult<Node>)
        ensures
            (result_view(res), final(tokenizer)@) == json_path_spec(old(tokenizer)@),
            final(tokenizer).took_from(old(tokenizer)),
            msg_ok(old(tokenizer).origin(), res),
            res is Ok ==> {
                &&& is_path(res->Ok_0)
                &&& leftmost(res->Ok_0) is Absolute
                &&& final(tokenizer).pending().len() < old(tokenizer).pending().len()
            },
        decreases old(tokenizer).pending().len(), 0nat,
    {
        let ghost s0 = *tokenizer;
        let next = tokenizer.next_token();
        match next {
            Ok(Token::Absolute(_)) => {
                let node = Self::node(ParseToken::Absolute);
                let ghost s1 = *tokenizer;
                let res = Self::paths(node, tokenizer);
                proof {
                    TokenReader::lemma_took_from_trans(&s0, &s1, tokenizer);
                }
                res
            },
            _ => Err(Self::error_msg(tokenizer)),
        }
    }

    #[verifier::spinoff_prover]
    #[verifier::rlimit(40)]
    fn paths(prev: Node, tokenizer: &mut TokenReader) -> (res: ParseResult<Node>)
        requires
            is_path(prev),
        ensures
            (result_view(res), final(tokenizer)@) == paths_spec(node_view(prev), old(tokenizer)@),
            final(tokenizer).took_from(old(tokenizer)),
            msg_ok(old(tokenizer).origin(), res),
            res is Ok ==> is_path(res->Ok_0) && leftmost(res->Ok_0) == leftmost(prev),
        decreases old(tokenizer).pending().len(), 0nat,
    {
        let ghost s0 = *tokenizer;
        proof {
            TokenReader::lemma_took_from_refl(tokenizer);
        }
        match tokenizer.peek_token() {
            Ok(Token::Dot(_)) => {
                Self::eat_token(tokenizer);
                let ghost s1 = *tokenizer;
                let res = Self::paths_dot(prev, tokenizer);
                proof {
                    TokenReader::lemma_took_from_trans(&s0, &s1, tokenizer);
                }
                res
            },
            Ok(Token::OpenArray(_)) => {
                Self::eat_token(tokenizer);
                let ghost s1 = *tokenizer;
                Self::eat_whitespace(tokenizer);
                let ghost s2 = *tokenizer;
                let node = Self::array(prev, tokenizer);
                proof {
                    TokenReader::lemma_took_from_trans(&s0, &s1, &s2);
                    TokenReader::lemma_took_from_trans(&s0, &s2, tokenizer);
                }
                let node = match node {
                    Ok(v) => v,
                    Err(e) => return Err(e),
                };
                let ghost s3 = *tokenizer;
                let res = Self::paths(node, tokenizer);
                proof {
                    TokenReader::lemma_took_from_trans(&s0, &s3, tokenizer);
                }
                res
            },
            _ => Ok(prev),
        }
    }

    fn paths_dot(prev: Node, tokenizer: &mut TokenReader) -> (res: ParseResult<Node>)
        requires
            is_path(prev),
        ensures
            (result_view(res), final(tokenizer)@) == paths_dot_spec(node_view(prev), old(tokenizer)@),
            final(tokenizer).took_from(old(tokenizer)),
            msg_ok(old(tokenizer).origin(), res),
            res is Ok ==> is_path(res->Ok_0) && leftmost(res->Ok_0) == leftmost(prev),
        decreases old(tokenizer).pending().len(), 2nat,
    {
        let ghost s0 = *tokenizer;
        let node = match Self::path(prev, tokenizer) {
            Ok(v) => v,
            Err(e) => return Err(e),
        };
        let ghost s1 = *tokenizer;
        let res = Self::paths(node, tokenizer);
        proof {
            TokenReader::lemma_took_from_trans(&s0, &s1, tokenizer);
        }
        res
    }

    fn path(prev: Node, tokenizer: &mut TokenReader) -> (res: ParseResult<Node>)
        requires
            is_path(prev),
        ensures
            (result_view(res), final(tokenizer)@) == path_spec(node_view(prev), old(tokenizer)@),
            final(tokenizer).took_from(old(tokenizer)),
            msg_ok(old(tokenizer).origin(), res),
            res is Ok ==> {
                &&& is_path(res->Ok_0)
                &&& leftmost(res->Ok_0) == leftmost(prev)
                &&& final(tokenizer).pending().len() < old(tokenizer).pending().len()
            },
        decreases old(tokenizer).pending().len(), 1nat,
    {
        let ghost s0 = *tokenizer;
        proof {
            TokenReader::lemma_took_from_refl(tokenizer);
        }
        match tokenizer.peek_token() {
            Ok(Token::Dot(_)) => Self::path_leaves(prev, tokenizer),
            Ok(Token::Asterisk(_)) => Self::path_in_all(prev, tokenizer),
            Ok(Token::Key(_, _)) => Self::path_in_key(prev, tokenizer),
            Ok(Token::OpenArray(_)) => {
                Self::eat_token(tokenizer);
                let ghost s1 = *tokenizer;
                let res = Self::array(prev, tokenizer);
                proof {
                    TokenReader::lemma_took_from_trans(&s0, &s1, tokenizer);
                }
                res
            },
            _ => Err(Self::error_msg(tokenizer)),
        }
    }

    #[verifier::spinoff_prover]
    #[verifier::rlimit(40)]
    fn path_leaves(prev: Node, tokenizer: &mut TokenReader) -> (res: ParseResult<Node>)
        requires
            is_path(prev),
        ensures
            (result_view(res), final(tokenizer)@) == path_leaves_spec(node_view(prev), old(tokenizer)@),
            final(tokenizer).took_from(old(tokenizer)),
            msg_ok(old(tokenizer).origin(), res),
            res is Ok ==> {
                &&& is_path(res->Ok_0)
                &&& leftmost(res->Ok_0) == leftmost(prev)
                &&& final(tokenizer).pending().len() < old(tokenizer).pending().len()
            },
        decreases old(tokenizer).pending().len(), 0nat,
    {
        let ghost s0 = *tokenizer;
        Self::eat_token(tokenizer);
        let ghost s1 = *tokenizer;
        let res = match tokenizer.peek_token() {
            Ok(Token::Asterisk(_)) => Self::path_leaves_all(prev, tokenizer),
            Ok(Token::OpenArray(_)) => {
                let leaves_node = Node {
                    token: ParseToken::Leaves,
                    left: Some(Box::new(prev)),
                    right: None,
                };
                Self::paths(leaves_node, tokenizer)
            },
            _ => Self::path_leaves_key(prev, tokenizer),
        };
        proof {
            TokenReader::lemma_took_from_trans(&s0, &s1, tokenizer);
        }
        res
    }

    #[verifier::spinoff_prover]
    #[verifier::rlimit(40)]
    fn array_start(prev: Node, tokenizer: &mut TokenReader) -> (res: ParseResult<Node>)
        requires
            is_path(prev),
        ensures
            (result_view(res), final(tokenizer)@) == array_start_spec(node_view(prev), old(tokenizer)@),
            final(tokenizer).took_from(old(tokenizer)),
            msg_ok(old(tokenizer).origin(), res),
            res is Ok ==> {
                &&& res->Ok_0.token is Array
                &&& is_path(res->Ok_0)
                &&& leftmost(res->Ok_0) == leftmost(prev)
            },
        decreases old(tokenizer).pending().len(), 0nat,
    {
        let ghost s0 = *tokenizer;
        proof {
            TokenReader::lemma_took_from_refl(tokenizer);
        }
        match tokenizer.peek_token() {
            Ok(Token::Question(_)) => {
                Self::eat_token(tokenizer);
                let ghost s1 = *tokenizer;
                let right = Self::filter(tokenizer);
                proof {
                    TokenReader::lemma_took_from_trans(&s0, &s1, tokenizer);
                }
                let right = match right {
                    Ok(v) => v,
                    Err(e) => return Err(e),
                };
                let n = Node {
                    token: ParseToken::Array,
                    left: Some(Box::new(prev)),
                    right: Some(Box::new(right)),
                };
                assert(is_array_arg(right));
                assert(is_path(n));
                assert(leftmost(n) == leftmost(prev));
                Ok(n)
            },
            Ok(Token::Asterisk(_)) => {
                Self::eat_token(tokenizer);
                let right = Self::node(ParseToken::All);
                let n = Node {
                    token: ParseToken::Array,
                    left: Some(Box::new(prev)),
                    right: Some(Box::new(right)),
                };
                assert(is_array_arg(right));
                assert(is_path(n));
                assert(leftmost(n) == leftmost(prev));
                Ok(n)
            },
            _ => {
                let right = match Self::array_value(tokenizer) {
                    Ok(v) => v,
                    Err(e) => return Err(e),
                };
                let n = Node {
                    token: ParseToken::Array,
                    left: Some(Box::new(prev)),
                    right: Some(Box::new(right)),
                };
                assert(is_array_arg(right));
                assert(is_path(n));
                assert(leftmost(n) == leftmost(prev));
                Ok(n)
            },
        }
    }

    fn array(prev: Node, tokenizer: &mut TokenReader) -> (res: ParseResult<Node>)
        requires
            is_path(prev),
        ensures
            (result_view(res), final(tokenizer)@) == array_spec(node_view(prev), old(tokenizer)@),
            final(tokenizer).took_from(old(tokenizer)),
            msg_ok(old(tokenizer).origin(), res),
            res is Ok ==> {
                &&& res->Ok_0.token is Array
                &&& is_path(res->Ok_0)
                &&& leftmost(res->Ok_0) == leftmost(prev)
            },
        decreases old(tokenizer).pending().len(), 1nat,
    {
        let ghost s0 = *tokenizer;
        let ret = match Self::array_start(prev, tokenizer) {
            Ok(v) => v,
            Err(e) => return Err(e),
        };
        let ghost s1 = *tokenizer;
        Self::eat_whitespace(tokenizer);
        let ghost s2 = *tokenizer;
        let res = Self::close_token(ret, Token::CloseArray(DUMMY), tokenizer);
        proof {
            TokenReader::lemma_took_from_trans(&s0, &s1, &s2);
            TokenReader::lemma_took_from_trans(&s0, &s2, tokenizer);
        }
        res
    }

    #[verifier::spinoff_prover]
    #[verifier::rlimit(40)]
    fn filter(tokenizer: &mut TokenReader) -> (res: ParseResult<Node>)
        ensures
            (result_view(res), final(tokenizer)@) == filter_spec(old(tokenizer)@),
            final(tokenizer).took_from(old(tokenizer)),
            msg_ok(old(tokenizer).origin(), res),
            res is Ok ==> is_filter(res->Ok_0),
        decreases old(tokenizer).pending().len(), 0nat,
    {
        let ghost s0 = *tokenizer;
        let next = tokenizer.next_token();
        match next {
            Ok(Token::OpenParenthesis(_)) => {
                let ghost s1 = *tokenizer;
                let ret = Self::exprs(tokenizer);
                proof {
                    TokenReader::lemma_took_from_trans(&s0, &s1, tokenizer);
                }
                let ret = match ret {
                    Ok(v) => v,
                    Err(e) => return Err(e),
                };
                let ghost s2 = *tokenizer;
                Self::eat_whitespace(tokenizer);
                let ghost s3 = *tokenizer;
                let res = Self::close_token(ret, Token::CloseParenthesis(DUMMY), tokenizer);
                proof {
                    TokenReader::lemma_took_from_trans(&s0, &s2, &s3);
                    TokenReader::lemma_took_from_trans(&s0, &s3, tokenizer);
                }
                res
            },
            _ => Err(Self::error_msg(tokenizer)),
        }
    }

    #[verifier::spinoff_prover]
    #[verifier::rlimit(40)]
    fn exprs(tokenizer: &mut TokenReader) -> (res: ParseResult<Node>)
        ensures
            (result_view(res), final(tokenizer)@) == exprs_spec(old(tokenizer)@),
            final(tokenizer).took_from(old(tokenizer)),
            msg_ok(old(tokenizer).origin(), res),
            res is Ok ==> {
                &&& is_filter(res->Ok_0)
                &&& final(tokenizer).pending().len() < old(tokenizer).pending().len()
            },
        decreases old(tokenizer).pending().len(), 3nat,
    {
        let ghost s0 = *tokenizer;
        Self::eat_whitespace(tokenizer);
        let ghost s1 = *tokenizer;
        let node = match tokenizer.peek_token() {
            Ok(Token::OpenParenthesis(_)) => {
                Self::eat_token(tokenizer);
                let ghost s2 = *tokenizer;
                let ret = Self::exprs(tokenizer);
                proof {
                    TokenReader::lemma_took_from_trans(&s1, &s2, tokenizer);
                    TokenReader::lemma_took_from_trans(&s0, &s1, tokenizer);
                }
                let ret = match ret {
                    Ok(v) => v,
                    Err(e) => return Err(e),
                };
                let ghost s3 = *tokenizer;
                Self::eat_whitespace(tokenizer);
                let ghost s4 = *tokenizer;
                let closed = Self::close_token(ret, Token::CloseParenthesis(DUMMY), tokenizer);
                proof {
                    TokenReader::lemma_took_from_trans(&s1, &s3, &s4);
                    TokenReader::lemma_took_from_trans(&s1, &s4, tokenizer);
                    TokenReader::lemma_took_from_trans(&s0, &s1, tokenizer);
                }
                match closed {
                    Ok(v) => v,
                    Err(e) => return Err(e),
                }
            },
            _ => {
                let ret = Self::expr(tokenizer);
                proof {
                    TokenReader::lemma_took_from_trans(&s0, &s1, tokenizer);
                }
                match ret {
                    Ok(v) => v,
                    Err(e) => return Err(e),
                }
            },
        };
        let ghost s5 = *tokenizer;
        Self::eat_whitespace(tokenizer);
        let ghost s6 = *tokenizer;
        let res = Self::condition_expr(node, tokenizer);
        proof {
            TokenReader::lemma_took_from_trans(&s0, &s5, &s6);
            TokenReader::lemma_took_from_trans(&s0, &s6, tokenizer);
        }
        res
    }

    fn condition_expr(prev: Node, tokenizer: &mut TokenReader) -> (res: ParseResult<Node>)
        requires
            is_filter(prev),
        ensures
            (result_view(res), final(tokenizer)@) == condition_spec(node_view(prev), old(tokenizer)@),
            final(tokenizer).took_from(old(tokenizer)),
            msg_ok(old(tokenizer).origin(), res),
            res is Ok ==> is_filter(res->Ok_0),
        decreases old(tokenizer).pending().len(), 0nat,
    {
        let ghost s0 = *tokenizer;
        proof {
            TokenReader::lemma_took_from_refl(tokenizer);
        }
        match tokenizer.peek_token() {
            Ok(Token::And(_)) => {
                Self::eat_token(tokenizer);
                let ghost s1 = *tokenizer;
                let right = Self::exprs(tokenizer);
                proof {
                    TokenReader::lemma_took_from_trans(&s0, &s1, tokenizer);
                }
                let right = match right {
                    Ok(v) => v,
                    Err(e) => return Err(e),
                };
                Ok(
                    Node {
                        token: ParseToken::Filter(FilterToken::And),
                        left: Some(Box::new(prev)),
                        right: Some(Box::new(right)),
                    },
                )
            },
            Ok(Token::Or(_)) => {
                Self::eat_token(tokenizer);
                let ghost s1 = *tokenizer;
                let right = Self::exprs(tokenizer);
                proof {
                    TokenReader::lemma_took_from_trans(&s0, &s1, tokenizer);
                }
                let right = match right {
                    Ok(v) => v,
                    Err(e) => return Err(e),
                };
                Ok(
                    Node {
                        token: ParseToken::Filter(FilterToken::Or),
                        left: Some(Box::new(prev)),
                        right: Some(Box::new(right)),
                    },
                )
            },
            _ => Ok(prev),
        }
    }

    #[verifier::spinoff_prover]
    #[verifier::rlimit(40)]
    fn expr(tokenizer: &mut TokenReader) -> (res: ParseResult<Node>)
        ensures
            (result_view(res), final(tokenizer)@) == expr_spec(old(tokenizer)@),
            final(tokenizer).took_from(old(tokenizer)),
            msg_ok(old(tokenizer).origin(), res),
            res is Ok ==> {
                &&& is_filter(res->Ok_0)
                &&& final(tokenizer).pending().len() < old(tokenizer).pending().len()
            },
        decreases old(tokenizer).pending().len(), 2nat,
    {
        let ghost s0 = *tokenizer;
        let has_prop_candidate = match tokenizer.peek_token() {
            Ok(Token::At(_)) => true,
            _ => false,
        };
        let node = match Self::term(tokenizer) {
            Ok(v) => v,
            Err(e) => return Err(e),
        };
        let ghost s1 = *tokenizer;
        Self::eat_whitespace(tokenizer);
        let ghost s2 = *tokenizer;
        proof {
            TokenReader::lemma_took_from_trans(&s0, &s1, &s2);
        }
        let is_op = match tokenizer.peek_token() {
            Ok(Token::Equal(_)) | Ok(Token::NotEqual(_)) | Ok(Token::Little(_)) | Ok(
                Token::LittleOrEqual(_),
            ) | Ok(Token::Greater(_)) | Ok(Token::GreaterOrEqual(_)) => true,
            _ => false,
        };
        if is_op {
            let res = Self::op(node, tokenizer);
            proof {
                TokenReader::lemma_took_from_trans(&s0, &s2, tokenizer);
            }
            res
        } else if has_prop_candidate {
            Ok(node)
        } else {
            Err(Self::error_msg(tokenizer))
        }
    }

    #[verifier::spinoff_prover]
    #[verifier::rlimit(40)]
    fn term(tokenizer: &mut TokenReader) -> (res: ParseResult<Node>)
        ensures
            (result_view(res), final(tokenizer)@) == term_spec(old(tokenizer)@),
            final(tokenizer).took_from(old(tokenizer)),
            msg_ok(old(tokenizer).origin(), res),
            res is Ok ==> {
                &&& is_term(res->Ok_0)
                &&& final(tokenizer).pending().len() < old(tokenizer).pending().len()
            },
            res is Ok && old(tokenizer).pending().len() > 0 && old(
                tokenizer,
            ).pending()[0].1 is At ==> is_path(res->Ok_0) && leftmost(res->Ok_0) is Relative,
        decreases old(tokenizer).pending().len(), 1nat,
    {
        let ghost s0 = *tokenizer;
        proof {
            TokenReader::lemma_took_from_refl(tokenizer);
            reveal_strlit("@");
            reveal_strlit("$");
            reveal_strlit("\"");
            reveal_strlit("'");
            reveal_strlit("Key");
            assert(AT@ == seq!['@']);
            assert(ABSOLUTE@ == seq!['$']);
            assert(DOUBLE_QUOTE@ == seq!['"']);
            assert(SINGLE_QUOTE@ == seq!['\'']);
            assert(KEY@ == seq!['K', 'e', 'y']);
            if tokenizer.pending().len() > 0 {
                lemma_simple_names(tokenizer.pending()[0].1);
            }
        }
        if tokenizer.peek_is(AT) {
            Self::eat_token(tokenizer);
            let ghost s1 = *tokenizer;
            let node = Self::node(ParseToken::Relative);
            let res = match tokenizer.peek_token() {
                Ok(Token::Whitespace(_, _)) => {
                    Self::eat_whitespace(tokenizer);
                    Ok(node)
                },
                _ => Self::paths(node, tokenizer),
            };
            proof {
                TokenReader::lemma_took_from_trans(&s0, &s1, tokenizer);
            }
            return res;
        }
        if tokenizer.peek_is(ABSOLUTE) {
            return Self::json_path(tokenizer);
        }
        if tokenizer.peek_is(DOUBLE_QUOTE) || tokenizer.peek_is(SINGLE_QUOTE) {
            return Self::array_quote_value(tokenizer);
        }
        if tokenizer.peek_is(KEY) {
            let is_num = match tokenizer.peek_token() {
                Ok(Token::Key(_, k)) => {
                    let ks = k.as_str();
                    ks.unicode_len() > 0 && {
                        let c = ks.get_char(0);
                        c == '-' || ('0' <= c && c <= '9')
                    }
                },
                _ => false,
            };
            return if is_num {
                Self::term_num(tokenizer)
            } else {
                Self::boolean(tokenizer)
            };
        }
        Err(Self::error_msg(tokenizer))
    }

    #[verifier::spinoff_prover]
    #[verifier::rlimit(40)]
    fn op(prev: Node, tokenizer: &mut TokenReader) -> (res: ParseResult<Node>)
        requires
            is_term(prev),
        ensures
            (result_view(res), final(tokenizer)@) == op_spec(node_view(prev), old(tokenizer)@),
            final(tokenizer).took_from(old(tokenizer)),
            msg_ok(old(tokenizer).origin(), res),
            res is Ok ==> is_filter(res->Ok_0),
        decreases old(tokenizer).pending().len(), 0nat,
    {
        let ghost s0 = *tokenizer;
        let next = tokenizer.next_token();
        let token = match next {
            Ok(Token::Equal(_)) => ParseToken::Filter(FilterToken::Equal),
            Ok(Token::NotEqual(_)) => ParseToken::Filter(FilterToken::NotEqual),
            Ok(Token::Little(_)) => ParseToken::Filter(FilterToken::Little),
            Ok(Token::LittleOrEqual(_)) => ParseToken::Filter(FilterToken::LittleOrEqual),
            Ok(Token::Greater(_)) => ParseToken::Filter(FilterToken::Greater),
            Ok(Token::GreaterOrEqual(_)) => ParseToken::Filter(FilterToken::GreaterOrEqual),
            _ => {
                return Err(Self::error_msg(tokenizer));
            },
        };
        let ghost s1 = *tokenizer;
        Self::eat_whitespace(tokenizer);
        let ghost s2 = *tokenizer;
        let right = Self::term(tokenizer);
        proof {
            TokenReader::lemma_took_from_trans(&s0, &s1, &s2);
            TokenReader::lemma_took_from_trans(&s0, &s2, tokenizer);
        }
        let right = match right {
            Ok(v) => v,
            Err(e) => return Err(e),
        };
        Ok(Node { token, left: Some(Box::new(prev)), right: Some(Box::new(right)) })
    }

    /// Parses a JSONPath.
    pub fn compile(input: &str) -> (res: ParseResult<Node>)
        ensures
            result_view(res) == compile_spec(input@),
            msg_ok(input@, res),
            res is Ok ==> is_path(res->Ok_0) && leftmost(res->Ok_0) is Absolute,
            compile_spec(input@) matches Err(m) ==> m.len() > input@.len(),
    {
        let mut tokenizer = TokenReader::new(input);
        let res = Self::json_path(&mut tokenizer);
        proof {
            if res is Err {
                let p = choose|p: nat| res->Err_0@ == #[trigger] err_text(input@, p);
                assert(err_text(input@, p).len() > input@.len());
            }
        }
        res
    }
}

impl Node {
    /// The token of this node.
    pub fn token(&self) -> (t: &ParseToken)
        ensures
            t@ == node_view(*self).token,
    {
        &self.token
    }

    /// The node's left child: the path that a step extends, or the left
    /// operand.
    pub fn left(&self) -> (l: Option<&Node>)
        ensures
            match l {
                Some(x) => node_view(*self).left == Some(Box::new(node_view(*x))),
                None => node_view(*self).left is None,
            },
    {
        match &self.left {
            Some(x) => Some(&**x),
            None => None,
        }
    }

    /// The node's right child: the argument of a step, or the right
    /// operand.
    pub fn right(&self) -> (r: Option<&Node>)
        ensures
            match r {
                Some(x) => node_view(*self).right == Some(Box::new(node_view(*x))),
                None => node_view(*self).right is None,
            },
    {
        match &self.right {
            Some(x) => Some(&**x),
            None => None,
        }
    }
}

/// What a visitor is handed: a token, or the end of an operand of a
/// comparison.
pub enum VisitEvent {
    Token(ParseTokenView),
    EndTerm,
}

/// What a walk of `n` hands a visitor, in order: a path step after the path
/// it extends and before its argument; the content of brackets followed by
/// `ArrayEof`; `&&` and `||` after both of their operands; any other
/// comparison after both of its operands, each of which is followed by the
/// end of a term.
pub open spec fn walk_events(n: NodeView) -> Seq<VisitEvent>
    decreases n,
{
    let l = match n.left {
        Some(x) => walk_events(*x),
        None => Seq::empty(),
    };
    let r = match n.right {
        Some(x) => walk_events(*x),
        None => Seq::empty(),
    };
    let t = VisitEvent::Token(n.token);
    match n.token {
        ParseTokenView::Absolute | ParseTokenView::Relative | ParseTokenView::All
        | ParseTokenView::Key(_) | ParseTokenView::Keys(_) | ParseTokenView::Range(_, _, _)
        | ParseTokenView::Union(_) | ParseTokenView::Number(_) | ParseTokenView::Bool(_) => seq![t],
        ParseTokenView::In | ParseTokenView::Leaves => l + seq![t] + r,
        ParseTokenView::Array => l + seq![t] + r + seq![VisitEvent::Token(ParseTokenView::ArrayEof)],
        ParseTokenView::Filter(FilterToken::And) | ParseTokenView::Filter(FilterToken::Or) => l + r
            + seq![t],
        ParseTokenView::Filter(_) => l + seq![VisitEvent::EndTerm] + r + seq![VisitEvent::EndTerm]
            + seq![t],
        _ => Seq::empty(),
    }
}

/// The events of a child, or none where there is no child.
pub open spec fn child_events(o: Option<Box<NodeView>>) -> Seq<VisitEvent> {
    match o {
        Some(x) => walk_events(*x),
        None => Seq::empty(),
    }
}

/// A path step (`.` or `..`) is handed to a visitor after the path it
/// extends and before its argument.
pub proof fn law_visit_step_between_path_and_argument(n: NodeView)
    requires
        n.token is In || n.token is Leaves,
    ensures
        walk_events(n) == child_events(n.left) + seq![VisitEvent::Token(n.token)] + child_events(
            n.right,
        ),
{
}

/// Brackets are handed over after the path they select from, then their
/// content, then `ArrayEof`.
pub proof fn law_visit_brackets_after_path_then_content(n: NodeView)
    requires
        n.token is Array,
    ensures
        walk_events(n) == child_events(n.left) + seq![VisitEvent::Token(n.token)] + child_events(
            n.right,
        ) + seq![VisitEvent::Token(ParseTokenView::ArrayEof)],
{
}

/// A comparison is handed over after both operands, each of which is
/// closed by the end of a term; `&&` and `||` follow their operands with no
/// such mark.
pub proof fn law_visit_operator_after_operands(n: NodeView, f: FilterToken)
    requires
        n.token == ParseTokenView::Filter(f),
    ensures
        f is And || f is Or ==> walk_events(n) == child_events(n.left) + child_events(n.right)
            + seq![VisitEvent::Token(n.token)],
        !(f is And || f is Or) ==> walk_events(n) == child_events(n.left) + seq![
            VisitEvent::EndTerm,
        ] + child_events(n.right) + seq![VisitEvent::EndTerm] + seq![VisitEvent::Token(n.token)],
{
}

proof fn lemma_walk_of_path(n: Node)
    requires
        is_path(n),
    ensures
        walk_events(node_view(n)).len() > 0,
        walk_events(node_view(n))[0] == VisitEvent::Token(leftmost(n)@),
    decreases n,
{
    match n.token {
        ParseToken::Absolute | ParseToken::Relative => {},
        _ => {
            let l = *n.left->Some_0;
            lemma_walk_of_path(l);
            let w = walk_events(node_view(n));
            let wl = walk_events(node_view(l));
            assert(w.len() >= wl.len());
            assert(w[0] == wl[0]);
        },
    }
}

/// A path that `compile` accepts is handed to a visitor starting with its
/// root `$`.
pub proof fn law_compiled_path_visits_root_first(n: Node)
    requires
        is_path(n),
        leftmost(n) is Absolute,
    ensures
        walk_events(node_view(n)).len() > 0,
        walk_events(node_view(n))[0] == VisitEvent::Token(ParseTokenView::Absolute),
{
    lemma_walk_of_path(n);
}

/// Hands the tokens of `node` to `v` and marks the ends of the operands of
/// comparisons, in the order of `walk_events`.
pub fn visit_node<V: NodeVisitor + ?Sized>(v: &mut V, node: &Node)
    ensures
        V::keeps_events() ==> final(v).events() == old(v).events() + walk_events(
            node_view(*node),
        ),
        old(v).inv() ==> final(v).inv(),
    decreases node,
{
    match &node.token {
        ParseToken::Absolute | ParseToken::Relative | ParseToken::All | ParseToken::Key(_)
        | ParseToken::Keys(_) | ParseToken::Range(_, _, _) | ParseToken::Union(_)
        | ParseToken::Number(_) | ParseToken::Bool(_) => {
            v.visit_token(&node.token);
        },
        ParseToken::In | ParseToken::Leaves => {
            match &node.left {
                Some(n) => visit_node(v, &**n),
                _ => {},
            }
            v.visit_token(&node.token);
            match &node.right {
                Some(n) => visit_node(v, &**n),
                _ => {},
            }
        },
        ParseToken::Array => {
            match &node.left {
                Some(n) => visit_node(v, &**n),
                _ => {},
            }
            v.visit_token(&node.token);
            match &node.right {
                Some(n) => visit_node(v, &**n),
                _ => {},
            }
            v.visit_token(&ParseToken::ArrayEof);
        },
        ParseToken::Filter(FilterToken::And) | ParseToken::Filter(FilterToken::Or) => {
            match &node.left {
                Some(n) => visit_node(v, &**n),
                _ => {},
            }
            match &node.right {
                Some(n) => visit_node(v, &**n),
                _ => {},
            }
            v.visit_token(&node.token);
        },
        ParseToken::Filter(_) => {
            match &node.left {
                Some(n) => visit_node(v, &**n),
                _ => {},
            }
            v.end_term();
            match &node.right {
                Some(n) => visit_node(v, &**n),
                _ => {},
            }
            v.end_term();
            v.visit_token(&node.token);
        },
        _ => {},
    }
    proof {
        if V::keeps_events() {
            assert(final(v).events() =~= old(v).events() + walk_events(node_view(*node)));
        }
    }
}

/// Receives the tokens of a parsed path and the ends of the operands of
/// its comparisons, in the order of `walk_events`.
pub trait NodeVisitor {
    /// Whether visitors of this type keep the record `events` of what they
    /// are handed. One that keeps none leaves this `false`, and the
    /// contracts below then state nothing of it.
    open spec fn keeps_events() -> bool {
        false
    }

    /// What this visitor has been handed so far, in order, where
    /// `keeps_events` holds.
    open spec fn events(&self) -> Seq<VisitEvent> {
        Seq::empty()
    }

    /// A property that each call keeps; none (`true`) unless a visitor
    /// states one.
    open spec fn inv(&self) -> bool {
        true
    }

    fn visit_token(&mut self, token: &ParseToken)
        ensures
            Self::keeps_events() ==> final(self).events() == old(self).events().push(
                VisitEvent::Token(token@),
            ),
            old(self).inv() ==> final(self).inv(),
    ;

    /// Marks the end of an operand of a comparison.
    fn end_term(&mut self)
        ensures
            Self::keeps_events() ==> final(self).events() == old(self).events().push(
                VisitEvent::EndTerm,
            ),
            old(self).inv() ==> final(self).inv(),
    ;

}

/// Walks a parsed path: every `NodeVisitor` has `visit`.
pub trait NodeVisit: NodeVisitor {
    /// Hands the tokens of `node` to `visit_token`, and the ends of the
    /// operands of its comparisons to `end_term`.
    fn visit(&mut self, node: &Node)
        ensures
            Self::keeps_events() ==> final(self).events() == old(self).events() + walk_events(
                node_view(*node),
            ),
            old(self).inv() ==> final(self).inv(),
    ;
}

impl<T: NodeVisitor + ?Sized> NodeVisit for T {
    fn visit(&mut self, node: &Node) {
        visit_node(self, node);
    }
}

} // verus!
