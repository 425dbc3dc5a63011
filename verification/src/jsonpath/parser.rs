use vstd::prelude::*;

use super::path_reader::{Error, ReadState};
use super::tokenizer::{
    self, alias_name, clone_chars, lemma_alias_names, law_token_read_takes_a_character, lex, next_prev, token_pos,
    Token, TokenView, Tokenizer,
};
use super::utils::{decimal, number_error, usize_to_string, vec_to_number, vec_to_string};
use crate::parser::path_reader::str_width;
use crate::parser::parser::{clone_indices, clone_strings};
use crate::parser::tokenizer::{push_char, str_equal};
use crate::parser::utils::parse_isize;

verus! {

const ABSOLUTE: &'static str = "Absolute";
const RELATIVE: &'static str = "Relative";
const RELATIVES: &'static str = "Relatives";
const RELATIVE_VALUES: &'static str = "RelativeValues";
const ALL_VALUES: &'static str = "AllValues";
const ARRAY: &'static str = "Array";
const FILTER_GROUP: &'static str = "FilterGroup";
const KEY: &'static str = "Key";
const TOKEN: &'static str = "Token";

/// What the parser keeps on its stack: finished parts of the path, and
/// tokens still waiting for what closes them.
#[derive(Debug, PartialEq)]
pub enum Context {
    Absolute,
    Relative,
    Relatives,
    RelativeValues,
    AllValues,
    Array(ArrayValue),
    FilterGroup(Vec<Filter>),
    Key(String),
    Token(Token),
}

#[derive(Debug, PartialEq)]
pub enum ArrayValue {
    UnionString(Vec<String>),
    UnionNum(Vec<isize>),
    Split(Option<isize>, Option<isize>),
}

#[derive(Debug, Clone, Copy, PartialEq, Eq)]
pub enum FilterOp {
    Equal,
    GraterOrEqual,
    Grater,
    Little,
    LittleOrEqual,
    NotEqual,
}

#[derive(Debug, PartialEq)]
pub enum FilterPath {
    Relative,
    Key(String),
}

#[derive(Debug, PartialEq)]
pub enum FilterContext {
    Path(Vec<FilterPath>),
    NumValue(isize),
    StrValue(String),
    Op(FilterOp),
    And,
    Or,
}

#[derive(Debug, PartialEq)]
pub enum FilterValue {
    Path(Vec<FilterPath>),
    NumValue(isize),
    StrValue(String),
}

#[derive(Debug, PartialEq)]
pub enum Filter {
    And(FilterValue, FilterOp, FilterValue),
    Or(FilterValue, FilterOp, FilterValue),
}

pub enum ArrayValueView {
    UnionString(Seq<Seq<char>>),
    UnionNum(Seq<isize>),
    Split(Option<isize>, Option<isize>),
}

pub enum FilterPathView {
    Relative,
    Key(Seq<char>),
}

pub enum FilterValueView {
    Path(Seq<FilterPathView>),
    NumValue(isize),
    StrValue(Seq<char>),
}

pub enum FilterView {
    And(FilterValueView, FilterOp, FilterValueView),
    Or(FilterValueView, FilterOp, FilterValueView),
}

pub enum FilterContextView {
    Path(Seq<FilterPathView>),
    NumValue(isize),
    StrValue(Seq<char>),
    Op(FilterOp),
    And,
    Or,
}

pub enum ContextView {
    Absolute,
    Relative,
    Relatives,
    RelativeValues,
    AllValues,
    Array(ArrayValueView),
    FilterGroup(Seq<FilterView>),
    Key(Seq<char>),
    Token(TokenView),
}

pub open spec fn strings_view(v: Seq<String>) -> Seq<Seq<char>> {
    v.map_values(|s: String| s@)
}

impl View for ArrayValue {
    type V = ArrayValueView;

    open spec fn view(&self) -> ArrayValueView {
        match self {
            ArrayValue::UnionString(v) => ArrayValueView::UnionString(strings_view(v@)),
            ArrayValue::UnionNum(v) => ArrayValueView::UnionNum(v@),
            ArrayValue::Split(a, b) => ArrayValueView::Split(*a, *b),
        }
    }
}

impl View for FilterPath {
    type V = FilterPathView;

    open spec fn view(&self) -> FilterPathView {
        match self {
            FilterPath::Relative => FilterPathView::Relative,
            FilterPath::Key(k) => FilterPathView::Key(k@),
        }
    }
}

pub open spec fn paths_view(v: Seq<FilterPath>) -> Seq<FilterPathView> {
    v.map_values(|p: FilterPath| p@)
}

impl View for FilterValue {
    type V = FilterValueView;

    open spec fn view(&self) -> FilterValueView {
        match self {
            FilterValue::Path(v) => FilterValueView::Path(paths_view(v@)),
            FilterValue::NumValue(n) => FilterValueView::NumValue(*n),
            FilterValue::StrValue(s) => FilterValueView::StrValue(s@),
        }
    }
}

impl View for Filter {
    type V = FilterView;

    open spec fn view(&self) -> FilterView {
        match self {
            Filter::And(a, op, b) => FilterView::And(a@, *op, b@),
            Filter::Or(a, op, b) => FilterView::Or(a@, *op, b@),
        }
    }
}

pub open spec fn filters_view(v: Seq<Filter>) -> Seq<FilterView> {
    v.map_values(|f: Filter| f@)
}

impl View for FilterContext {
    type V = FilterContextView;

    open spec fn view(&self) -> FilterContextView {
        match self {
            FilterContext::Path(v) => FilterContextView::Path(paths_view(v@)),
            FilterContext::NumValue(n) => FilterContextView::NumValue(*n),
            FilterContext::StrValue(s) => FilterContextView::StrValue(s@),
            FilterContext::Op(op) => FilterContextView::Op(*op),
            FilterContext::And => FilterContextView::And,
            FilterContext::Or => FilterContextView::Or,
        }
    }
}

impl View for Context {
    type V = ContextView;

    open spec fn view(&self) -> ContextView {
        match self {
            Context::Absolute => ContextView::Absolute,
            Context::Relative => ContextView::Relative,
            Context::Relatives => ContextView::Relatives,
            Context::RelativeValues => ContextView::RelativeValues,
            Context::AllValues => ContextView::AllValues,
            Context::Array(a) => ContextView::Array(a@),
            Context::FilterGroup(v) => ContextView::FilterGroup(filters_view(v@)),
            Context::Key(k) => ContextView::Key(k@),
            Context::Token(t) => ContextView::Token(t@),
        }
    }
}

pub open spec fn stack_view(v: Seq<Context>) -> Seq<ContextView> {
    v.map_values(|c: Context| c@)
}

pub open spec fn locals_view(v: Seq<FilterContext>) -> Seq<FilterContextView> {
    v.map_values(|c: FilterContext| c@)
}

/// The name of each kind of context.
pub open spec fn context_alias(c: ContextView) -> Seq<char> {
    match c {
        ContextView::Absolute => "Absolute"@,
        ContextView::Relative => "Relative"@,
        ContextView::Relatives => "Relatives"@,
        ContextView::RelativeValues => "RelativeValues"@,
        ContextView::AllValues => "AllValues"@,
        ContextView::Array(_) => "Array"@,
        ContextView::FilterGroup(_) => "FilterGroup"@,
        ContextView::Key(_) => "Key"@,
        ContextView::Token(_) => "Token"@,
    }
}

/// Only a `Relative` context is named `Relative`, and only a `Relatives`
/// context is named `Relatives`.
pub proof fn lemma_context_alias(c: ContextView)
    ensures
        (context_alias(c) == "Relative"@) <==> c is Relative,
        (context_alias(c) == "Relatives"@) <==> c is Relatives,
{
    reveal_strlit("Absolute");
    reveal_strlit("Relative");
    reveal_strlit("Relatives");
    reveal_strlit("RelativeValues");
    reveal_strlit("AllValues");
    reveal_strlit("Array");
    reveal_strlit("FilterGroup");
    reveal_strlit("Key");
    reveal_strlit("Token");
    assert(context_alias(c).len() > 0);
    assert(context_alias(c)[0] == RELATIVE@[0] ==> context_alias(c).len() != RELATIVE@.len()
        || c is Relative);
    assert(context_alias(c)[0] == RELATIVES@[0] ==> context_alias(c).len() != RELATIVES@.len()
        || c is Relatives);
}

impl Context {
    /// Whether the context is of the kind named `type_str`.
    pub fn alias_of(&self, type_str: &'static str) -> (r: bool)
        ensures
            r == (context_alias(self@) == type_str@),
    {
        str_equal(self.to_alias(), type_str)
    }

    fn to_alias(&self) -> (s: &'static str)
        ensures
            s@ == context_alias(self@),
    {
        match self {
            Context::Absolute => ABSOLUTE,
            Context::Relative => RELATIVE,
            Context::Relatives => RELATIVES,
            Context::RelativeValues => RELATIVE_VALUES,
            Context::AllValues => ALL_VALUES,
            Context::Array(_) => ARRAY,
            Context::FilterGroup(_) => FILTER_GROUP,
            Context::Key(_) => KEY,
            Context::Token(_) => TOKEN,
        }
    }
}

fn clone_paths(v: &Vec<FilterPath>) -> (r: Vec<FilterPath>)
    ensures
        paths_view(r@) == paths_view(v@),
{
    let mut r: Vec<FilterPath> = Vec::new();
    let mut i: usize = 0;
    while i < v.len()
        invariant
            i <= v@.len(),
            r@.len() == i,
            forall|j: int| 0 <= j < i ==> (#[trigger] r@[j])@ == v@[j]@,
        decreases v@.len() - i,
    {
        let c = v[i].clone();
        r.push(c);
        i = i + 1;
    }
    assert(paths_view(r@) =~= paths_view(v@));
    r
}

fn clone_filters(v: &Vec<Filter>) -> (r: Vec<Filter>)
    ensures
        filters_view(r@) == filters_view(v@),
{
    let mut r: Vec<Filter> = Vec::new();
    let mut i: usize = 0;
    while i < v.len()
        invariant
            i <= v@.len(),
            r@.len() == i,
            forall|j: int| 0 <= j < i ==> (#[trigger] r@[j])@ == v@[j]@,
        decreases v@.len() - i,
    {
        let c = v[i].clone();
        r.push(c);
        i = i + 1;
    }
    assert(filters_view(r@) =~= filters_view(v@));
    r
}

impl Clone for ArrayValue {
    fn clone(&self) -> (r: Self)
        ensures
            r@ == self@,
    {
        match self {
            ArrayValue::UnionString(v) => ArrayValue::UnionString(clone_strings(v)),
            ArrayValue::UnionNum(v) => ArrayValue::UnionNum(clone_indices(v)),
            ArrayValue::Split(a, b) => ArrayValue::Split(*a, *b),
        }
    }
}

impl Clone for FilterPath {
    fn clone(&self) -> (r: Self)
        ensures
            r@ == self@,
    {
        match self {
            FilterPath::Relative => FilterPath::Relative,
            FilterPath::Key(k) => FilterPath::Key(k.clone()),
        }
    }
}

impl Clone for FilterValue {
    fn clone(&self) -> (r: Self)
        ensures
            r@ == self@,
    {
        match self {
            FilterValue::Path(v) => FilterValue::Path(clone_paths(v)),
            FilterValue::NumValue(n) => FilterValue::NumValue(*n),
            FilterValue::StrValue(s) => FilterValue::StrValue(s.clone()),
        }
    }
}

impl Clone for Filter {
    fn clone(&self) -> (r: Self)
        ensures
            r@ == self@,
    {
        match self {
            Filter::And(a, op, b) => Filter::And(a.clone(), *op, b.clone()),
            Filter::Or(a, op, b) => Filter::Or(a.clone(), *op, b.clone()),
        }
    }
}

impl Clone for Context {
    fn clone(&self) -> (r: Self)
        ensures
            r@ == self@,
    {
        match self {
            Context::Absolute => Context::Absolute,
            Context::Relative => Context::Relative,
            Context::Relatives => Context::Relatives,
            Context::RelativeValues => Context::RelativeValues,
            Context::AllValues => Context::AllValues,
            Context::Array(a) => Context::Array(a.clone()),
            Context::FilterGroup(v) => Context::FilterGroup(clone_filters(v)),
            Context::Key(k) => Context::Key(k.clone()),
            Context::Token(t) => Context::Token(t.clone()),
        }
    }
}

fn clone_stack(v: &Vec<Context>) -> (r: Vec<Context>)
    ensures
        stack_view(r@) == stack_view(v@),
{
    let mut r: Vec<Context> = Vec::new();
    let mut i: usize = 0;
    while i < v.len()
        invariant
            i <= v@.len(),
            r@.len() == i,
            forall|j: int| 0 <= j < i ==> (#[trigger] r@[j])@ == v@[j]@,
        decreases v@.len() - i,
    {
        let c = v[i].clone();
        r.push(c);
        i = i + 1;
    }
    assert(stack_view(r@) =~= stack_view(v@));
    r
}

/// What `{:?}` prints for a token.
pub uninterp spec fn debug_token(t: TokenView) -> Seq<char>;

/// What `{:?}` prints for a context.
pub uninterp spec fn debug_context(c: ContextView) -> Seq<char>;

/// What `{:?}` prints for a context that may be missing.
pub uninterp spec fn debug_opt_context(c: Option<ContextView>) -> Seq<char>;

/// What `{:?}` prints for a filter part that may be missing.
pub uninterp spec fn debug_opt_filter_context(c: Option<FilterContextView>) -> Seq<char>;

pub open spec fn opt_context_view(c: Option<Context>) -> Option<ContextView> {
    match c {
        Some(c) => Some(c@),
        None => None,
    }
}

pub open spec fn opt_filter_context_view(c: Option<FilterContext>) -> Option<FilterContextView> {
    match c {
        Some(c) => Some(c@),
        None => None,
    }
}

/// `format!("{:?}", t)` on a token.
#[verifier::external_body]
fn debug_token_string(t: &Token) -> (s: String)
    ensures
        s@ == debug_token(t@),
{
    format!("{:?}", t)
}

/// `format!("{:?}", c)` on a context.
#[verifier::external_body]
fn debug_context_string(c: &Context) -> (s: String)
    ensures
        s@ == debug_context(c@),
{
    format!("{:?}", c)
}

/// `format!("{:?}", c)` on a context that may be missing.
#[verifier::external_body]
fn debug_opt_context_string(c: Option<&Context>) -> (s: String)
    ensures
        s@ == debug_opt_context(
            match c {
                Some(c) => Some(c@),
                None => None,
            },
        ),
{
    format!("{:?}", c)
}

/// `format!("{:?}", c)` on a filter part that may be missing.
#[verifier::external_body]
fn debug_opt_filter_context_string(c: &Option<FilterContext>) -> (s: String)
    ensures
        s@ == debug_opt_filter_context(opt_filter_context_view(*c)),
{
    format!("{:?}", c)
}

/// `head` followed by `tail`.
fn message(head: &str, tail: &str) -> (s: String)
    ensures
        s@ == head@ + tail@,
{
    let mut s = String::from_str(head);
    s.append(tail);
    s
}

pub open spec fn union_err(t: TokenView) -> Seq<char> {
    "parse_union: "@ + debug_token(t)
}

pub open spec fn union_string_err(comma: nat, values: nat) -> Seq<char> {
    "parse_union string: invalid syntax. comma: "@ + decimal(comma) + ", values: "@ + decimal(values)
}

pub open spec fn union_number_err(comma: nat, values: nat) -> Seq<char> {
    "parse_union number: invalid syntax. comma: "@ + decimal(comma) + ", values: "@ + decimal(values)
}

pub open spec fn split_err(c: Option<ContextView>) -> Seq<char> {
    "parse_split: invalid syntax. "@ + debug_opt_context(c)
}

pub open spec fn split_from_err(c: Option<ContextView>) -> Seq<char> {
    "parse_split_from: invalid syntax. "@ + debug_opt_context(c)
}

pub open spec fn group_err(c: Option<ContextView>) -> Seq<char> {
    "parse_filter_group: invalid syntax: "@ + debug_opt_context(c)
}

pub open spec fn close_array_err(c: ContextView) -> Seq<char> {
    "parse_close_array: invalid syntax. "@ + debug_context(c)
}

pub open spec fn value_err(c: Option<FilterContextView>) -> Seq<char> {
    "parse_close_paren: invalid syntax. "@ + debug_opt_filter_context(c)
}

pub open spec fn op_err(c: Option<FilterContextView>) -> Seq<char> {
    "parse_filter_op: invalid syntax. "@ + debug_opt_filter_context(c)
}

pub open spec fn path_err(c: ContextView) -> Seq<char> {
    "parse_path: invalid syntax. "@ + debug_context(c)
}

pub open spec fn position_err(p: nat) -> Seq<char> {
    "Parse error. position:'"@ + decimal(p) + "'"@
}

/// What a step of the parser leaves on its stack; or the message of its
/// error and what it leaves then; or a panic.
pub enum Outcome {
    Done(Seq<ContextView>),
    Fail(Seq<char>, Seq<ContextView>),
    Panic,
}

pub open spec fn pop<A>(s: Seq<A>) -> (Option<A>, Seq<A>) {
    if s.len() == 0 {
        (None, s)
    } else {
        (Some(s.last()), s.drop_last())
    }
}

pub open spec fn top<A>(s: Seq<A>) -> Option<A> {
    pop(s).0
}

/// Whether the top of the stack is a relative step, single or double.
pub open spec fn relative_on_top(s: Seq<ContextView>) -> bool {
    top(s) matches Some(c) && (c is Relative || c is Relatives)
}

/// A value of a union: a quoted or plain key.
pub open spec fn is_union_value(c: ContextView) -> bool {
    ||| c matches ContextView::Token(TokenView::DoubleQuoted(_, _))
    ||| c matches ContextView::Token(TokenView::SingleQuoted(_, _))
    ||| c matches ContextView::Token(TokenView::Key(_, _))
}

/// The text of a quoted or plain key token.
pub open spec fn chars_of(c: ContextView) -> Seq<char> {
    match c {
        ContextView::Token(TokenView::Key(_, v)) => v,
        ContextView::Token(TokenView::DoubleQuoted(_, v)) => v,
        ContextView::Token(TokenView::SingleQuoted(_, v)) => v,
        _ => Seq::empty(),
    }
}

/// The `isize` values of `vs`, in order; or the message of the first that
/// is not one.
pub open spec fn numbers(vs: Seq<Seq<char>>) -> Result<Seq<isize>, Seq<char>>
    decreases vs.len(),
{
    if vs.len() == 0 {
        Ok(Seq::empty())
    } else {
        match numbers(vs.drop_last()) {
            Err(e) => Err(e),
            Ok(ns) => match parse_isize(vs.last()) {
                None => Err(number_error(vs.last())),
                Some(n) => Ok(ns.push(n as isize)),
            },
        }
    }
}

/// The end of a union: keys when one of them was quoted, else numbers,
/// as many as the commas between them allow.
pub open spec fn union_end(s: Seq<ContextView>, comma: nat, quoted: nat, values: Seq<Seq<char>>) -> Outcome {
    let v = values.reverse();
    if quoted > 0 {
        if comma == v.len() - 1 {
            Outcome::Done(s.push(ContextView::Array(ArrayValueView::UnionString(v))))
        } else {
            Outcome::Fail(union_string_err(comma, v.len()), s)
        }
    } else {
        match numbers(v) {
            Err(e) => Outcome::Fail(e, s),
            Ok(ns) => if comma == ns.len() - 1 {
                Outcome::Done(s.push(ContextView::Array(ArrayValueView::UnionNum(ns))))
            } else {
                Outcome::Fail(union_number_err(comma, ns.len()), s)
            },
        }
    }
}

/// Pops the rest of a union down to its `[`.
pub open spec fn union_loop(s: Seq<ContextView>, comma: nat, quoted: nat, values: Seq<Seq<char>>) -> Outcome
    decreases s.len(),
{
    if s.len() == 0 {
        union_end(s, comma, quoted, values)
    } else {
        let r = s.drop_last();
        match s.last() {
            ContextView::Token(t) => match t {
                TokenView::OpenArray(_) => union_end(r, comma, quoted, values),
                TokenView::Comma(_) => union_loop(r, comma + 1, quoted, values),
                TokenView::Key(_, v) => union_loop(r, comma, quoted, values.push(v)),
                TokenView::DoubleQuoted(_, v) | TokenView::SingleQuoted(_, v) => union_loop(
                    r,
                    comma,
                    quoted + 1,
                    values.push(v),
                ),
                _ => Outcome::Fail(union_err(t), r),
            },
            _ => union_end(r, comma, quoted, values),
        }
    }
}

/// A union whose last value `peek` has been popped.
pub open spec fn union_spec(s: Seq<ContextView>, peek: ContextView) -> Outcome {
    let quoted: nat = if peek matches ContextView::Token(TokenView::DoubleQuoted(_, _))
        || peek matches ContextView::Token(TokenView::SingleQuoted(_, _)) {
        1
    } else {
        0
    };
    union_loop(s, 0, quoted, seq![chars_of(peek)])
}

/// Puts a range in place of its `[`.
pub open spec fn split_end(s: Seq<ContextView>, range: ArrayValueView) -> Outcome {
    let (o, r) = pop(s);
    match o {
        Some(ContextView::Token(TokenView::OpenArray(_))) => Outcome::Done(
            r.push(ContextView::Array(range)),
        ),
        _ => Outcome::Fail(split_err(o), r),
    }
}

/// A range `[a:b]` or `[:b]` whose end `to` has been popped.
pub open spec fn split_spec(s: Seq<ContextView>, to: isize) -> Outcome {
    let s1 = pop(s).1;
    match top(s1) {
        Some(ContextView::Token(TokenView::Key(_, v))) => match parse_isize(v) {
            None => Outcome::Fail(number_error(v), s1.drop_last()),
            Some(n) => split_end(s1.drop_last(), ArrayValueView::Split(Some(n as isize), Some(to))),
        },
        _ => split_end(s1, ArrayValueView::Split(None, Some(to))),
    }
}

/// A range `[a:]` whose `:` has been popped; its `[` stays below it.
pub open spec fn split_from_spec(s: Seq<ContextView>) -> Outcome {
    let (o, s1) = pop(s);
    match o {
        Some(ContextView::Token(TokenView::Key(_, v))) => match parse_isize(v) {
            None => Outcome::Fail(number_error(v), s1),
            Some(n) => if top(s1) matches Some(ContextView::Token(TokenView::OpenArray(_))) {
                Outcome::Done(
                    s1.push(ContextView::Array(ArrayValueView::Split(Some(n as isize), None))),
                )
            } else {
                Outcome::Fail(split_from_err(top(s1)), s1)
            },
        },
        _ => Outcome::Fail("parse_split_from: invalid syntax"@, s1),
    }
}

/// A filter group that has been popped takes the place of its `[`.
pub open spec fn group_spec(s: Seq<ContextView>, group: ContextView) -> Outcome {
    let (o, s1) = pop(s);
    match o {
        Some(ContextView::Token(TokenView::OpenArray(_))) => Outcome::Done(s1.push(group)),
        _ => Outcome::Fail(group_err(o), s1),
    }
}

/// What `]` does to the stack.
pub open spec fn close_array_spec(stack: Seq<ContextView>) -> Outcome {
    if stack.len() == 0 {
        Outcome::Done(stack)
    } else {
        let c = stack.last();
        let s = stack.drop_last();
        if c matches ContextView::Token(TokenView::OpenArray(_)) {
            Outcome::Done(s)
        } else if is_union_value(c) && top(s) matches Some(ContextView::Token(TokenView::Comma(_))) {
            union_spec(s, c)
        } else if c matches ContextView::Token(TokenView::Key(_, _)) && top(s) matches Some(
            ContextView::Token(TokenView::Split(_)),
        ) {
            match parse_isize(chars_of(c)) {
                None => Outcome::Fail(number_error(chars_of(c)), s),
                Some(n) => split_spec(s, n as isize),
            }
        } else if c matches ContextView::Token(TokenView::Split(_)) && top(s) matches Some(
            ContextView::Token(TokenView::Key(_, _)),
        ) {
            split_from_spec(s)
        } else if c is FilterGroup {
            group_spec(s, c)
        } else {
            Outcome::Fail(close_array_err(c), s)
        }
    }
}

/// `]` consumes the `[` it closes and leaves what lies below untouched:
/// over a bare `[` the stack goes back to what lay below it, and a filter
/// group that sits on a `[` takes that bracket's place.
pub proof fn law_close_array_consumes_its_bracket(
    s: Seq<ContextView>,
    p: nat,
    q: nat,
    fs: Seq<FilterView>,
)
    ensures
        step(s.push(ContextView::Token(TokenView::OpenArray(p))), TokenView::CloseArray(q))
            == Outcome::Done(s),
        step(
            s.push(ContextView::Token(TokenView::OpenArray(p))).push(ContextView::FilterGroup(fs)),
            TokenView::CloseArray(q),
        ) == Outcome::Done(s.push(ContextView::FilterGroup(fs))),
{
    let s1 = s.push(ContextView::Token(TokenView::OpenArray(p)));
    assert(s1.drop_last() =~= s);
    let s2 = s1.push(ContextView::FilterGroup(fs));
    assert(s2.drop_last() =~= s1);
}

pub open spec fn chars_view(v: Seq<Vec<char>>) -> Seq<Seq<char>> {
    v.map_values(|x: Vec<char>| x@)
}

/// The result and stack that a step leaves match the outcome `o`.
pub open spec fn outcome_is(o: Outcome, res: Result<(), String>, after: Seq<ContextView>) -> bool {
    match o {
        Outcome::Done(s) => res is Ok && after == s,
        Outcome::Fail(m, s) => res matches Err(e) && e@ == m && after == s,
        Outcome::Panic => false,
    }
}

proof fn lemma_stack_pop(v: Seq<Context>)
    requires
        v.len() > 0,
    ensures
        stack_view(v.subrange(0, v.len() - 1)) == stack_view(v).drop_last(),
        stack_view(v).last() == v.last()@,
        stack_view(v).len() == v.len(),
{
    assert(stack_view(v.subrange(0, v.len() - 1)) =~= stack_view(v).drop_last());
}

proof fn lemma_stack_push(v: Seq<Context>, c: Context)
    ensures
        stack_view(v.push(c)) == stack_view(v).push(c@),
{
    assert(stack_view(v.push(c)) =~= stack_view(v).push(c@));
}

/// Pops the top of the stack.
fn pop_context(stack: &mut Vec<Context>) -> (r: Option<Context>)
    ensures
        opt_context_view(r) == pop(stack_view(old(stack)@)).0,
        stack_view(final(stack)@) == pop(stack_view(old(stack)@)).1,
        final(stack)@.len() == if old(stack)@.len() > 0 {
            old(stack)@.len() - 1
        } else {
            0
        },
{
    proof {
        if stack@.len() > 0 {
            lemma_stack_pop(stack@);
        }
    }
    stack.pop()
}

/// Pushes onto the stack.
fn push_context(stack: &mut Vec<Context>, c: Context)
    ensures
        stack_view(final(stack)@) == stack_view(old(stack)@).push(c@),
        final(stack)@.len() == old(stack)@.len() + 1,
{
    proof {
        lemma_stack_push(stack@, c);
    }
    stack.push(c);
}

/// Whether the top of the stack is a token that `fun` accepts.
fn is_token_match<F>(v: Option<&Context>, fun: F) -> (r: bool) where F: Fn(&Token) -> bool
    requires
        forall|t: &Token| call_requires(fun, (t,)),
    ensures
        match v {
            Some(Context::Token(t)) => call_ensures(fun, (t,), r),
            _ => !r,
        },
{
    match v {
        Some(Context::Token(t)) => fun(t),
        _ => false,
    }
}

/// Whether there is a top of the stack that `fun` accepts.
fn is_match<F>(v: Option<&Context>, fun: F) -> (r: bool) where F: Fn(&Context) -> bool
    requires
        forall|c: &Context| call_requires(fun, (c,)),
    ensures
        match v {
            Some(c) => call_ensures(fun, (c,), r),
            None => !r,
        },
{
    match v {
        Some(t) => fun(t),
        _ => false,
    }
}

/// Whether the top of the stack is a token of the kind named `name`.
fn top_token_is(stack: &Vec<Context>, name: &'static str) -> (r: bool)
    ensures
        r == (top(stack_view(stack@)) matches Some(ContextView::Token(t)) && alias_name(t) == name@),
{
    proof {
        if stack@.len() > 0 {
            lemma_stack_pop(stack@);
        }
    }
    let f = |t: &Token| -> (b: bool)
        ensures
            b == (alias_name(t@) == name@),
        { t.alias_of(name) };
    is_token_match(stack.last(), f)
}

/// Whether the top of the stack is a relative step, single or double.
fn top_is_relative(stack: &Vec<Context>) -> (r: bool)
    ensures
        r == relative_on_top(stack_view(stack@)),
{
    proof {
        if stack@.len() > 0 {
            lemma_stack_pop(stack@);
            lemma_context_alias(stack@.last()@);
        }
    }
    let f = |c: &Context| -> (b: bool)
        ensures
            b == (context_alias(c@) == RELATIVE@ || context_alias(c@) == RELATIVES@),
        { c.alias_of(RELATIVE) || c.alias_of(RELATIVES) };
    is_match(stack.last(), f)
}

fn union_strings(values: &Vec<Vec<char>>) -> (v: Vec<String>)
    ensures
        strings_view(v@) == chars_view(values@).reverse(),
{
    let len = values.len();
    let mut v: Vec<String> = Vec::new();
    let mut i: usize = 0;
    while i < len
        invariant
            len == values@.len(),
            i <= len,
            v@.len() == i,
            forall|j: int| 0 <= j < i ==> (#[trigger] v@[j])@ == values@[len - 1 - j]@,
        decreases len - i,
    {
        v.push(vec_to_string(&values[len - 1 - i]));
        i = i + 1;
    }
    assert(strings_view(v@) =~= chars_view(values@).reverse());
    v
}

fn union_numbers(values: &Vec<Vec<char>>) -> (res: Result<Vec<isize>, String>)
    ensures
        match numbers(chars_view(values@).reverse()) {
            Ok(ns) => res matches Ok(v) && v@ == ns,
            Err(m) => res matches Err(e) && e@ == m,
        },
{
    let len = values.len();
    let ghost rev = chars_view(values@).reverse();
    let mut v: Vec<isize> = Vec::new();
    let mut i: usize = 0;
    while i < len
        invariant
            len == values@.len(),
            rev == chars_view(values@).reverse(),
            i <= len,
            numbers(rev.take(i as int)) == Ok::<Seq<isize>, Seq<char>>(v@),
        decreases len - i,
    {
        assert(rev.take(i + 1).drop_last() =~= rev.take(i as int));
        assert(rev[i as int] == values@[len - 1 - i]@);
        match vec_to_number(&values[len - 1 - i]) {
            Ok(n) => v.push(n),
            Err(e) => {
                proof {
                    lemma_numbers_prefix_err(rev, i as int);
                }
                return Err(e);
            },
        }
        i = i + 1;
    }
    assert(rev.take(len as int) =~= rev);
    Ok(v)
}

proof fn lemma_numbers_prefix_err(vs: Seq<Seq<char>>, i: int)
    requires
        0 <= i < vs.len(),
        numbers(vs.take(i)) is Ok,
        parse_isize(vs[i]) is None,
    ensures
        numbers(vs) == Err::<Seq<isize>, Seq<char>>(number_error(vs[i])),
    decreases vs.len() - i,
{
    assert(vs.take(i + 1).drop_last() =~= vs.take(i));
    assert(numbers(vs.take(i + 1)) == Err::<Seq<isize>, Seq<char>>(number_error(vs[i])));
    lemma_numbers_err_extends(vs, i + 1);
}

proof fn lemma_numbers_err_extends(vs: Seq<Seq<char>>, k: int)
    requires
        0 <= k <= vs.len(),
        numbers(vs.take(k)) is Err,
    ensures
        numbers(vs) == numbers(vs.take(k)),
    decreases vs.len() - k,
{
    if k == vs.len() {
        assert(vs.take(k) =~= vs);
    } else {
        assert(vs.take(k + 1).drop_last() =~= vs.take(k));
        lemma_numbers_err_extends(vs, k + 1);
    }
}

/// Reads a union whose last value `peek_value` has been popped, down to
/// its `[`, and puts it in place of them.
fn parse_union(stack: &mut Vec<Context>, peek_value: &Context) -> (res: Result<(), String>)
    requires
        is_union_value(peek_value@),
        old(stack)@.len() < usize::MAX,
    ensures
        outcome_is(
            union_spec(stack_view(old(stack)@), peek_value@),
            res,
            stack_view(final(stack)@),
        ),
{
    let mut comm_count: usize = 0;
    let mut quota_count: usize = match peek_value {
        Context::Token(Token::DoubleQuoted(_, _)) | Context::Token(Token::SingleQuoted(_, _)) => 1,
        _ => 0,
    };
    let mut values: Vec<Vec<char>> = Vec::new();
    match peek_value {
        Context::Token(Token::Key(_, vec)) | Context::Token(Token::SingleQuoted(_, vec))
        | Context::Token(Token::DoubleQuoted(_, vec)) => {
            values.push(clone_chars(vec));
        },
        _ => {},
    }
    assert(chars_view(values@) =~= seq![chars_of(peek_value@)]);
    let ghost target = union_spec(stack_view(stack@), peek_value@);
    let ghost n0 = stack@.len();
    loop
        invariant_except_break
            union_loop(
                stack_view(stack@),
                comm_count as nat,
                quota_count as nat,
                chars_view(values@),
            ) == target,
        invariant
            target == union_spec(stack_view(old(stack)@), peek_value@),
            comm_count + stack@.len() <= n0,
            quota_count + stack@.len() <= n0 + 1,
            n0 < usize::MAX,
            values@.len() >= 1,
        ensures
            union_end(
                stack_view(stack@),
                comm_count as nat,
                quota_count as nat,
                chars_view(values@),
            ) == target,
            values@.len() >= 1,
        decreases stack@.len(),
    {
        proof {
            if stack@.len() > 0 {
                lemma_stack_pop(stack@);
            }
        }
        let ghost before = stack@;
        let popped = stack.pop();
        proof {
            if before.len() > 0 {
                assert(stack@ == before.subrange(0, before.len() - 1));
                assert(stack_view(stack@) == stack_view(before).drop_last());
                assert(opt_context_view(popped) == Some(stack_view(before).last()));
            }
        }
        match popped {
            Some(Context::Token(token)) => match token {
                Token::OpenArray(_) => break,
                Token::Comma(_) => {
                    comm_count = comm_count + 1;
                },
                Token::Key(_, vec) => {
                    let ghost vals0 = values@;
                    let ghost vv = vec@;
                    values.push(vec);
                    assert(chars_view(values@) =~= chars_view(vals0).push(vv));
                },
                Token::DoubleQuoted(_, vec) | Token::SingleQuoted(_, vec) => {
                    let ghost vals0 = values@;
                    let ghost vv = vec@;
                    values.push(vec);
                    assert(chars_view(values@) =~= chars_view(vals0).push(vv));
                    quota_count = quota_count + 1;
                },
                _ => {
                    let d = debug_token_string(&token);
                    return Err(message("parse_union: ", d.as_str()));
                },
            },
            _ => break,
        }
    }
    let len = values.len();
    if quota_count > 0 {
        let v = union_strings(&values);
        if comm_count == v.len() - 1 {
            push_context(stack, Context::Array(ArrayValue::UnionString(v)));
            Ok(())
        } else {
            let mut m = String::from_str("parse_union string: invalid syntax. comma: ");
            let c = usize_to_string(comm_count);
            m.append(c.as_str());
            m.append(", values: ");
            let n = usize_to_string(v.len());
            m.append(n.as_str());
            Err(m)
        }
    } else {
        let v = match union_numbers(&values) {
            Ok(v) => v,
            Err(e) => return Err(e),
        };
        if comm_count == v.len() - 1 {
            push_context(stack, Context::Array(ArrayValue::UnionNum(v)));
            Ok(())
        } else {
            let mut m = String::from_str("parse_union number: invalid syntax. comma: ");
            let c = usize_to_string(comm_count);
            m.append(c.as_str());
            m.append(", values: ");
            let n = usize_to_string(v.len());
            m.append(n.as_str());
            Err(m)
        }
    }
}

fn opt_context_ref(c: &Option<Context>) -> (r: Option<&Context>)
    ensures
        match r {
            Some(x) => opt_context_view(*c) == Some(x@),
            None => c is None,
        },
{
    match c {
        Some(x) => Some(x),
        None => None,
    }
}

/// Puts a range in place of its `[`.
fn finish_split(stack: &mut Vec<Context>, split_ctx: ArrayValue) -> (res: Result<(), String>)
    ensures
        outcome_is(split_end(stack_view(old(stack)@), split_ctx@), res, stack_view(final(stack)@)),
{
    let other = pop_context(stack);
    match other {
        Some(Context::Token(Token::OpenArray(_))) => {
            push_context(stack, Context::Array(split_ctx));
            Ok(())
        },
        _ => {
            let d = debug_opt_context_string(opt_context_ref(&other));
            Err(message("parse_split: invalid syntax. ", d.as_str()))
        },
    }
}

/// Reads a range `[a:b]` or `[:b]` whose end `peek_value` has been popped.
fn parse_split(stack: &mut Vec<Context>, peek_value: isize) -> (res: Result<(), String>)
    ensures
        outcome_is(split_spec(stack_view(old(stack)@), peek_value), res, stack_view(final(stack)@)),
{
    pop_context(stack);
    proof {
        if stack@.len() > 0 {
            lemma_stack_pop(stack@);
        }
    }
    let split_ctx = match stack.last() {
        Some(Context::Token(Token::Key(_, _))) => {
            match pop_context(stack) {
                Some(Context::Token(Token::Key(_, vec))) => match vec_to_number(&vec) {
                    Ok(n) => ArrayValue::Split(Some(n), Some(peek_value)),
                    Err(e) => return Err(e),
                },
                _ => return Err(String::from_str("parse_split: invalid syntax")),
            }
        },
        _ => ArrayValue::Split(None, Some(peek_value)),
    };
    finish_split(stack, split_ctx)
}

/// Reads a range `[a:]` whose `:` has been popped. Its `[` stays below it.
fn parse_split_from(stack: &mut Vec<Context>) -> (res: Result<(), String>)
    ensures
        outcome_is(split_from_spec(stack_view(old(stack)@)), res, stack_view(final(stack)@)),
{
    let split_ctx = match pop_context(stack) {
        Some(Context::Token(Token::Key(_, vec))) => match vec_to_number(&vec) {
            Ok(n) => ArrayValue::Split(Some(n), None),
            Err(e) => return Err(e),
        },
        _ => return Err(String::from_str("parse_split_from: invalid syntax")),
    };
    proof {
        if stack@.len() > 0 {
            lemma_stack_pop(stack@);
        }
    }
    if match stack.last() {
        Some(Context::Token(Token::OpenArray(_))) => true,
        _ => false,
    } {
        push_context(stack, Context::Array(split_ctx));
        Ok(())
    } else {
        let d = debug_opt_context_string(stack.last());
        Err(message("parse_split_from: invalid syntax. ", d.as_str()))
    }
}

/// A filter group that has been popped takes the place of its `[`.
fn parse_filter_group(stack: &mut Vec<Context>, peek_value: Context) -> (res: Result<(), String>)
    ensures
        outcome_is(group_spec(stack_view(old(stack)@), peek_value@), res, stack_view(final(stack)@)),
{
    let other = pop_context(stack);
    match other {
        Some(Context::Token(Token::OpenArray(_))) => {
            push_context(stack, peek_value);
            Ok(())
        },
        _ => {
            let d = debug_opt_context_string(opt_context_ref(&other));
            Err(message("parse_filter_group: invalid syntax: ", d.as_str()))
        },
    }
}

/// What `]` does: closes a union, a range or a filter group, and puts it
/// in place of its `[`.
fn parse_close_array(stack: &mut Vec<Context>) -> (res: Result<(), String>)
    ensures
        outcome_is(close_array_spec(stack_view(old(stack)@)), res, stack_view(final(stack)@)),
{
    let n = stack.len();
    let ctx = match pop_context(stack) {
        Some(ctx) => ctx,
        None => return Ok(()),
    };
    assert(stack@.len() < n);
    proof {
        if stack@.len() > 0 {
            lemma_stack_pop(stack@);
            match stack@.last()@ {
                ContextView::Token(t) => lemma_alias_names(t),
                _ => {},
            }
        }
    }
    let after_comma = top_token_is(stack, tokenizer::COMMA);
    let after_split = top_token_is(stack, tokenizer::SPLIT);
    let after_key = top_token_is(stack, tokenizer::KEY);
    let union_value = match &ctx {
        Context::Token(Token::DoubleQuoted(_, _)) | Context::Token(Token::SingleQuoted(_, _))
        | Context::Token(Token::Key(_, _)) => true,
        _ => false,
    };
    if union_value && after_comma {
        return parse_union(stack, &ctx);
    }
    match ctx {
        Context::Token(Token::OpenArray(_)) => Ok(()),
        Context::Token(Token::Key(_, ref vec)) if after_split => {
            let n = match vec_to_number(vec) {
                Ok(n) => n,
                Err(e) => return Err(e),
            };
            parse_split(stack, n)
        },
        Context::Token(Token::Split(_)) if after_key => parse_split_from(stack),
        Context::FilterGroup(_) => parse_filter_group(stack, ctx),
        _ => {
            let d = debug_context_string(&ctx);
            Err(message("parse_close_array: invalid syntax. ", d.as_str()))
        },
    }
}

/// Pops from the top of `s` while `p` says so; stops, without popping,
/// where it says no or fails. Gives the popped contexts, top first.
pub open spec fn take_spec(s: Seq<ContextView>, p: spec_fn(ContextView) -> Result<bool, Seq<char>>) -> (
    Result<Seq<ContextView>, Seq<char>>,
    Seq<ContextView>,
)
    decreases s.len(),
{
    if s.len() == 0 {
        (Ok(Seq::empty()), s)
    } else {
        match p(s.last()) {
            Err(e) => (Err(e), s),
            Ok(false) => (Ok(Seq::empty()), s),
            Ok(true) => {
                let (r, s2) = take_spec(s.drop_last(), p);
                (
                    match r {
                        Ok(v) => Ok(seq![s.last()] + v),
                        Err(e) => Err(e),
                    },
                    s2,
                )
            },
        }
    }
}

/// The test of a filter path: relative steps and keys go on, `@` ends it.
pub open spec fn path_test() -> spec_fn(ContextView) -> Result<bool, Seq<char>> {
    |c: ContextView|
        match c {
            ContextView::Token(TokenView::At(_)) => Ok(false),
            ContextView::Relative | ContextView::Token(TokenView::Key(_, _)) => Ok(true),
            _ => Err(path_err(c)),
        }
}

pub open spec fn to_filter_path(c: ContextView) -> FilterPathView {
    match c {
        ContextView::Token(TokenView::Key(_, v)) => FilterPathView::Key(v),
        _ => FilterPathView::Relative,
    }
}

/// A filter path that ends in the key `value`: its steps are popped down
/// to its `@`.
pub open spec fn path_spec(stack: Seq<ContextView>, local: Seq<FilterContextView>, value: Seq<char>) -> (
    Result<(), Seq<char>>,
    Seq<ContextView>,
    Seq<FilterContextView>,
) {
    let (r, s1) = take_spec(stack, path_test());
    match r {
        Err(e) => (Err(e), s1, local),
        Ok(cs) => if cs.len() == 0 {
            (Err("parse_path: invalid syntax. empty filter."@), s1, local)
        } else {
            (
                Ok(()),
                pop(s1).1,
                local.push(
                    FilterContextView::Path(
                        cs.map_values(|c: ContextView| to_filter_path(c)).push(
                            FilterPathView::Key(value),
                        ),
                    ),
                ),
            )
        },
    }
}

pub open spec fn filter_value(o: Option<FilterContextView>) -> Result<FilterValueView, Seq<char>> {
    match o {
        Some(FilterContextView::Path(v)) => Ok(FilterValueView::Path(v)),
        Some(FilterContextView::NumValue(n)) => Ok(FilterValueView::NumValue(n)),
        Some(FilterContextView::StrValue(v)) => Ok(FilterValueView::StrValue(v)),
        _ => Err(value_err(o)),
    }
}

pub open spec fn filter_op(o: Option<FilterContextView>) -> Result<FilterOp, Seq<char>> {
    match o {
        Some(FilterContextView::Op(op)) => Ok(op),
        _ => Err(op_err(o)),
    }
}

/// A comparison whose left value is `first`; its operator and right value
/// are popped from `local`.
pub open spec fn comparison(first: Option<FilterContextView>, local: Seq<FilterContextView>) -> (
    Result<(FilterValueView, FilterOp, FilterValueView), Seq<char>>,
    Seq<FilterContextView>,
) {
    match filter_value(first) {
        Err(e) => (Err(e), local),
        Ok(a) => {
            let (o2, l2) = pop(local);
            match filter_op(o2) {
                Err(e) => (Err(e), l2),
                Ok(op) => {
                    let (o3, l3) = pop(l2);
                    match filter_value(o3) {
                        Err(e) => (Err(e), l3),
                        Ok(b) => (Ok((a, op, b)), l3),
                    }
                },
            }
        },
    }
}

pub proof fn lemma_comparison_shrinks(first: Option<FilterContextView>, local: Seq<FilterContextView>)
    ensures
        comparison(first, local).1.len() <= local.len(),
{
}

/// The filters of a group, read from the top of `local` and added to `acc`.
pub open spec fn filters_loop(local: Seq<FilterContextView>, acc: Seq<FilterView>) -> (
    Result<Seq<FilterView>, Seq<char>>,
    Seq<FilterContextView>,
)
    decreases local.len(),
{
    if local.len() == 0 {
        (Ok(acc), local)
    } else {
        let v = local.last();
        let l1 = local.drop_last();
        let (r, l2) = if v is And || v is Or {
            comparison(pop(l1).0, pop(l1).1)
        } else {
            comparison(Some(v), l1)
        };
        proof {
            lemma_comparison_shrinks(pop(l1).0, pop(l1).1);
            lemma_comparison_shrinks(Some(v), l1);
        }
        match r {
            Err(e) => (Err(e), l2),
            Ok((a, op, b)) => filters_loop(
                l2,
                acc.push(
                    if v is Or {
                        FilterView::Or(a, op, b)
                    } else {
                        FilterView::And(a, op, b)
                    },
                ),
            ),
        }
    }
}

/// A filter `?(..)` whose `(` has been popped; its `?` is on top.
pub open spec fn filter_spec(stack: Seq<ContextView>, local: Seq<FilterContextView>) -> (
    Result<(), Seq<char>>,
    Seq<ContextView>,
) {
    let s1 = pop(stack).1;
    match filters_loop(local, Seq::empty()).0 {
        Err(e) => (Err(e), s1),
        Ok(fs) => if fs.len() == 0 {
            (Err("parse_filter: invalid syntax."@), s1)
        } else {
            (Ok(()), s1.push(ContextView::FilterGroup(fs)))
        },
    }
}

pub proof fn lemma_take_shrinks(s: Seq<ContextView>, p: spec_fn(ContextView) -> Result<bool, Seq<char>>)
    ensures
        take_spec(s, p).1.len() <= s.len(),
    decreases s.len(),
{
    if s.len() > 0 {
        lemma_take_shrinks(s.drop_last(), p);
    }
}

/// The filter part that an operator token stands for.
pub open spec fn operator_part(t: TokenView) -> Option<FilterContextView> {
    match t {
        TokenView::And(_) => Some(FilterContextView::And),
        TokenView::Or(_) => Some(FilterContextView::Or),
        TokenView::Equal(_) => Some(FilterContextView::Op(FilterOp::Equal)),
        TokenView::NotEqual(_) => Some(FilterContextView::Op(FilterOp::NotEqual)),
        TokenView::Little(_) => Some(FilterContextView::Op(FilterOp::Little)),
        TokenView::LittleOrEqual(_) => Some(FilterContextView::Op(FilterOp::LittleOrEqual)),
        TokenView::Greater(_) => Some(FilterContextView::Op(FilterOp::Grater)),
        TokenView::GreaterOrEqual(_) => Some(FilterContextView::Op(FilterOp::GraterOrEqual)),
        _ => None,
    }
}

/// The name of the kind of token that each comparison is written with.
pub open spec fn op_token_name(op: FilterOp) -> Seq<char> {
    match op {
        FilterOp::Equal => "Equal"@,
        FilterOp::GraterOrEqual => "GreaterOrEqual"@,
        FilterOp::Grater => "Greater"@,
        FilterOp::Little => "Little"@,
        FilterOp::LittleOrEqual => "LittleOrEqual"@,
        FilterOp::NotEqual => "NotEqual"@,
    }
}

/// An operator token becomes the filter part it names: a comparison
/// becomes the comparison written with a token of its kind, `&&` becomes
/// `And` and `||` becomes `Or`; no other token becomes a part. So `>=`
/// stays `GraterOrEqual` and is never confused with `>`.
pub proof fn law_operator_part_is_named_by_its_token(t: TokenView)
    ensures
        operator_part(t) matches Some(FilterContextView::Op(op)) ==> op_token_name(op)
            == alias_name(t),
        operator_part(t) == Some(FilterContextView::And) <==> t is And,
        operator_part(t) == Some(FilterContextView::Or) <==> t is Or,
        operator_part(t) is Some <==> (t is And || t is Or || t is Equal || t is NotEqual
            || t is Little || t is LittleOrEqual || t is Greater || t is GreaterOrEqual),
{
    reveal_strlit("Equal");
    reveal_strlit("GreaterOrEqual");
    reveal_strlit("Greater");
    reveal_strlit("Little");
    reveal_strlit("LittleOrEqual");
    reveal_strlit("NotEqual");
}

/// Two comparison tokens give the same comparison only when they are of
/// one kind.
pub proof fn law_operator_parts_stay_apart(a: TokenView, b: TokenView)
    requires
        operator_part(a) matches Some(FilterContextView::Op(_)),
        operator_part(a) == operator_part(b),
    ensures
        alias_name(a) == alias_name(b),
{
    law_operator_part_is_named_by_its_token(a);
    law_operator_part_is_named_by_its_token(b);
}

/// Pops the content of a filter down to its `(`, collecting its parts in
/// `local`.
pub open spec fn close_paren_loop(stack: Seq<ContextView>, local: Seq<FilterContextView>) -> Outcome
    decreases stack.len(),
{
    if stack.len() == 0 {
        Outcome::Done(stack)
    } else {
        let c = stack.last();
        let s = stack.drop_last();
        match c {
            ContextView::Token(TokenView::OpenParenthesis(_)) => if top(s) matches Some(
                ContextView::Token(TokenView::Question(_)),
            ) {
                let (r, s2) = filter_spec(s, local);
                match r {
                    Ok(_) => Outcome::Done(s2),
                    Err(e) => Outcome::Fail(e, s2),
                }
            } else {
                Outcome::Panic
            },
            ContextView::Token(TokenView::DoubleQuoted(_, v))
            | ContextView::Token(TokenView::SingleQuoted(_, v)) => close_paren_loop(
                s,
                local.push(FilterContextView::StrValue(v)),
            ),
            ContextView::Token(TokenView::Key(_, v)) => if relative_on_top(s) {
                let (r, s2, l2) = path_spec(s, local, v);
                proof {
                    lemma_take_shrinks(s, path_test());
                }
                match r {
                    Err(e) => Outcome::Fail(e, s2),
                    Ok(_) => close_paren_loop(s2, l2),
                }
            } else {
                match parse_isize(v) {
                    None => Outcome::Fail(number_error(v), s),
                    Some(n) => close_paren_loop(s, local.push(FilterContextView::NumValue(n as isize))),
                }
            },
            ContextView::Key(v) => if relative_on_top(s) {
                let (r, s2, l2) = path_spec(s, local, v);
                proof {
                    lemma_take_shrinks(s, path_test());
                }
                match r {
                    Err(e) => Outcome::Fail(e, s2),
                    Ok(_) => close_paren_loop(s2, l2),
                }
            } else {
                Outcome::Panic
            },
            ContextView::Token(t) => match operator_part(t) {
                Some(part) => close_paren_loop(s, local.push(part)),
                None => Outcome::Panic,
            },
            _ => Outcome::Panic,
        }
    }
}

/// What `)` does to the stack.
pub open spec fn close_paren_spec(stack: Seq<ContextView>) -> Outcome {
    close_paren_loop(stack, Seq::empty())
}

pub open spec fn test_view(r: Result<bool, String>) -> Result<bool, Seq<char>> {
    match r {
        Ok(b) => Ok(b),
        Err(e) => Err(e@),
    }
}

/// Pops from the top of the stack while `fun` says so, and gives the
/// popped contexts, top first; stops where `fun` says no or fails.
fn take_while<F>(
    stack: &mut Vec<Context>,
    fun: F,
    Ghost(p): Ghost<spec_fn(ContextView) -> Result<bool, Seq<char>>>,
) -> (res: Result<Vec<Context>, String>) where F: Fn(&Context) -> Result<bool, String>
    requires
        forall|c: &Context| call_requires(fun, (c,)),
        forall|c: &Context, r: Result<bool, String>|
            call_ensures(fun, (c,), r) ==> test_view(r) == p(c@),
    ensures
        ({
            let (r, s) = take_spec(stack_view(old(stack)@), p);
            &&& stack_view(final(stack)@) == s
            &&& match r {
                Ok(v) => res matches Ok(w) && stack_view(w@) == v,
                Err(m) => res matches Err(e) && e@ == m,
            }
        }),
{
    let ghost target = take_spec(stack_view(stack@), p);
    let mut ret: Vec<Context> = Vec::new();
    loop
        invariant_except_break
            take_spec(stack_view(stack@), p).1 == target.1,
            match take_spec(stack_view(stack@), p).0 {
                Ok(v) => target.0 == Ok::<Seq<ContextView>, Seq<char>>(stack_view(ret@) + v),
                Err(e) => target.0 == Err::<Seq<ContextView>, Seq<char>>(e),
            },
        invariant
            target == take_spec(stack_view(old(stack)@), p),
            forall|c: &Context| call_requires(fun, (c,)),
            forall|c: &Context, r: Result<bool, String>|
                call_ensures(fun, (c,), r) ==> test_view(r) == p(c@),
        ensures
            stack_view(stack@) == target.1,
            target.0 == Ok::<Seq<ContextView>, Seq<char>>(stack_view(ret@)),
        decreases stack@.len(),
    {
        proof {
            if stack@.len() > 0 {
                lemma_stack_pop(stack@);
            }
        }
        let go = match stack.last() {
            Some(ctx) => match fun(ctx) {
                Ok(b) => b,
                Err(e) => return Err(e),
            },
            None => false,
        };
        if !go {
            assert(stack_view(ret@) + Seq::<ContextView>::empty() =~= stack_view(ret@));
            break;
        }
        let ghost before = stack@;
        let ghost r0 = stack_view(ret@);
        let c = pop_context(stack);
        match c {
            Some(c) => {
                proof {
                    lemma_stack_push(ret@, c);
                    let sv = stack_view(before);
                    assert(p(sv.last()) == Ok::<bool, Seq<char>>(true));
                    assert(stack_view(stack@) == sv.drop_last());
                    match take_spec(sv.drop_last(), p).0 {
                        Ok(v) => {
                            assert(r0 + (seq![sv.last()] + v) =~= r0.push(sv.last()) + v);
                        },
                        Err(e) => {},
                    }
                }
                ret.push(c);
            },
            None => {},
        }
    }
    Ok(ret)
}

proof fn lemma_locals_push(v: Seq<FilterContext>, c: FilterContext)
    ensures
        locals_view(v.push(c)) == locals_view(v).push(c@),
{
    assert(locals_view(v.push(c)) =~= locals_view(v).push(c@));
}

/// Pops the top of the filter parts.
fn pop_local(local: &mut Vec<FilterContext>) -> (r: Option<FilterContext>)
    ensures
        opt_filter_context_view(r) == pop(locals_view(old(local)@)).0,
        locals_view(final(local)@) == pop(locals_view(old(local)@)).1,
        final(local)@.len() == if old(local)@.len() > 0 {
            old(local)@.len() - 1
        } else {
            0
        },
{
    proof {
        let v = local@;
        if v.len() > 0 {
            assert(locals_view(v.subrange(0, v.len() - 1)) =~= locals_view(v).drop_last());
        }
    }
    local.pop()
}

/// Pushes onto the filter parts.
fn push_local(local: &mut Vec<FilterContext>, c: FilterContext)
    ensures
        locals_view(final(local)@) == locals_view(old(local)@).push(c@),
{
    proof {
        lemma_locals_push(local@, c);
    }
    local.push(c);
}

/// A filter path that ends in the key `value`; its steps are popped down
/// to its `@`, which is popped too.
fn parse_path(stack: &mut Vec<Context>, local_stack: &mut Vec<FilterContext>, value: String) -> (res:
    Result<(), String>)
    ensures
        ({
            let (r, s, l) = path_spec(
                stack_view(old(stack)@),
                locals_view(old(local_stack)@),
                value@,
            );
            &&& stack_view(final(stack)@) == s
            &&& locals_view(final(local_stack)@) == l
            &&& match r {
                Ok(_) => res is Ok,
                Err(m) => res matches Err(e) && e@ == m,
            }
        }),
{
    let f = |ctx: &Context| -> (r: Result<bool, String>)
        ensures
            test_view(r) == (path_test())(ctx@),
        {
            match ctx {
                Context::Token(Token::At(_)) => Ok(false),
                Context::Relative | Context::Token(Token::Key(_, _)) => Ok(true),
                _ => {
                    let d = debug_context_string(ctx);
                    Err(message("parse_path: invalid syntax. ", d.as_str()))
                },
            }
        };
    let ret = match take_while(stack, f, Ghost(path_test())) {
        Ok(r) => r,
        Err(e) => return Err(e),
    };
    let mut filter_pathes: Vec<FilterPath> = Vec::new();
    let mut i: usize = 0;
    while i < ret.len()
        invariant
            i <= ret@.len(),
            filter_pathes@.len() == i,
            forall|j: int|
                0 <= j < i ==> (#[trigger] filter_pathes@[j])@ == to_filter_path(ret@[j]@),
        decreases ret@.len() - i,
    {
        let fp = match &ret[i] {
            Context::Token(Token::Key(_, vec)) => FilterPath::Key(vec_to_string(vec)),
            _ => FilterPath::Relative,
        };
        filter_pathes.push(fp);
        i = i + 1;
    }
    if filter_pathes.len() == 0 {
        return Err(String::from_str("parse_path: invalid syntax. empty filter."));
    }
    pop_context(stack);
    let ghost fp0 = filter_pathes@;
    filter_pathes.push(FilterPath::Key(value));
    assert(paths_view(filter_pathes@) =~= stack_view(ret@).map_values(
        |c: ContextView| to_filter_path(c),
    ).push(FilterPathView::Key(value@)));
    push_local(local_stack, FilterContext::Path(filter_pathes));
    Ok(())
}

fn parse_filter_value(c: Option<FilterContext>) -> (res: Result<FilterValue, String>)
    ensures
        match filter_value(opt_filter_context_view(c)) {
            Ok(v) => res matches Ok(x) && x@ == v,
            Err(m) => res matches Err(e) && e@ == m,
        },
{
    match &c {
        Some(FilterContext::Path(vec)) => Ok(FilterValue::Path(clone_paths(vec))),
        Some(FilterContext::NumValue(v)) => Ok(FilterValue::NumValue(*v)),
        Some(FilterContext::StrValue(v)) => Ok(FilterValue::StrValue(v.clone())),
        _ => {
            let d = debug_opt_filter_context_string(&c);
            Err(message("parse_close_paren: invalid syntax. ", d.as_str()))
        },
    }
}

fn parse_filter_op(c: Option<FilterContext>) -> (res: Result<FilterOp, String>)
    ensures
        match filter_op(opt_filter_context_view(c)) {
            Ok(op) => res == Ok::<FilterOp, String>(op),
            Err(m) => res matches Err(e) && e@ == m,
        },
{
    match &c {
        Some(FilterContext::Op(op)) => Ok(*op),
        _ => {
            let d = debug_opt_filter_context_string(&c);
            Err(message("parse_filter_op: invalid syntax. ", d.as_str()))
        },
    }
}

/// A comparison whose left value is `first`; its operator and right value
/// are popped from `local_stack`.
fn read_comparison(first: Option<FilterContext>, local_stack: &mut Vec<FilterContext>) -> (res: Result<
    (FilterValue, FilterOp, FilterValue),
    String,
>)
    ensures
        ({
            let (r, l) = comparison(opt_filter_context_view(first), locals_view(old(local_stack)@));
            &&& locals_view(final(local_stack)@) == l
            &&& match r {
                Ok((a, op, b)) => res matches Ok((x, y, z)) && x@ == a && y == op && z@ == b,
                Err(m) => res matches Err(e) && e@ == m,
            }
        }),
{
    let a = match parse_filter_value(first) {
        Ok(a) => a,
        Err(e) => return Err(e),
    };
    let op = match parse_filter_op(pop_local(local_stack)) {
        Ok(op) => op,
        Err(e) => return Err(e),
    };
    let b = match parse_filter_value(pop_local(local_stack)) {
        Ok(b) => b,
        Err(e) => return Err(e),
    };
    Ok((a, op, b))
}

/// A filter `?(..)` whose `(` has been popped: its comparisons become a
/// filter group in place of its `?`.
fn parse_filter(stack: &mut Vec<Context>, local_stack: &mut Vec<FilterContext>) -> (res: Result<
    (),
    String,
>)
    ensures
        ({
            let (r, s) = filter_spec(stack_view(old(stack)@), locals_view(old(local_stack)@));
            &&& stack_view(final(stack)@) == s
            &&& match r {
                Ok(_) => res is Ok,
                Err(m) => res matches Err(e) && e@ == m,
            }
        }),
{
    pop_context(stack);
    let mut filters: Vec<Filter> = Vec::new();
    let ghost target = filters_loop(locals_view(local_stack@), Seq::empty());
    assert(filters_view(filters@) =~= Seq::<FilterView>::empty());
    loop
        invariant_except_break
            filters_loop(locals_view(local_stack@), filters_view(filters@)).0 == target.0,
        invariant
            target == filters_loop(locals_view(old(local_stack)@), Seq::empty()),
            stack_view(stack@) == pop(stack_view(old(stack)@)).1,
        ensures
            target.0 == Ok::<Seq<FilterView>, Seq<char>>(filters_view(filters@)),
            stack_view(stack@) == pop(stack_view(old(stack)@)).1,
        decreases local_stack@.len(),
    {
        let ghost l0 = locals_view(local_stack@);
        let ghost f0 = filters_view(filters@);
        let ghost n0 = local_stack@.len();
        proof {
            if l0.len() > 0 {
                lemma_comparison_shrinks(pop(l0.drop_last()).0, pop(l0.drop_last()).1);
                lemma_comparison_shrinks(Some(l0.last()), l0.drop_last());
            }
        }
        let v = match pop_local(local_stack) {
            Some(v) => v,
            None => break,
        };
        let is_or = match v {
            FilterContext::Or => true,
            _ => false,
        };
        let first = match v {
            FilterContext::And | FilterContext::Or => pop_local(local_stack),
            _ => Some(v),
        };
        let (a, op, b) = match read_comparison(first, local_stack) {
            Ok(x) => x,
            Err(e) => return Err(e),
        };
        let f = if is_or {
            Filter::Or(a, op, b)
        } else {
            Filter::And(a, op, b)
        };
        filters.push(f);
        assert(filters_view(filters@) =~= f0.push(f@));
        assert(locals_view(local_stack@).len() == local_stack@.len());
        assert(local_stack@.len() < n0);
    }
    if filters.len() == 0 {
        Err(String::from_str("parse_filter: invalid syntax."))
    } else {
        push_context(stack, Context::FilterGroup(filters));
        Ok(())
    }
}

/// The filter part that an operator token stands for.
fn operator_context(t: &Token) -> (r: Option<FilterContext>)
    ensures
        opt_filter_context_view(r) == operator_part(t@),
{
    match t {
        Token::And(_) => Some(FilterContext::And),
        Token::Or(_) => Some(FilterContext::Or),
        Token::Equal(_) => Some(FilterContext::Op(FilterOp::Equal)),
        Token::NotEqual(_) => Some(FilterContext::Op(FilterOp::NotEqual)),
        Token::Little(_) => Some(FilterContext::Op(FilterOp::Little)),
        Token::LittleOrEqual(_) => Some(FilterContext::Op(FilterOp::LittleOrEqual)),
        Token::Greater(_) => Some(FilterContext::Op(FilterOp::Grater)),
        Token::GreaterOrEqual(_) => Some(FilterContext::Op(FilterOp::GraterOrEqual)),
        _ => None,
    }
}

/// What `)` does: the content of a filter, down to its `?(`, becomes a
/// filter group. A `(` that no `?` comes before, or a part that no filter
/// holds, has no meaning here: on those stacks the result is `None`, and
/// the stack is left as far as it was read.
fn parse_close_paren(stack: &mut Vec<Context>) -> (res: Option<Result<(), String>>)
    ensures
        res is None <==> close_paren_spec(stack_view(old(stack)@)) is Panic,
        res matches Some(r) ==> outcome_is(
            close_paren_spec(stack_view(old(stack)@)),
            r,
            stack_view(final(stack)@),
        ),
{
    let mut local_stack: Vec<FilterContext> = Vec::new();
    let ghost target = close_paren_spec(stack_view(stack@));
    assert(locals_view(local_stack@) =~= Seq::<FilterContextView>::empty());
    loop
        invariant_except_break
            close_paren_loop(stack_view(stack@), locals_view(local_stack@)) == target,
        invariant
            target == close_paren_spec(stack_view(old(stack)@)),
        ensures
            target == Outcome::Done(stack_view(stack@)),
        decreases stack@.len(),
    {
        let ghost sv = stack_view(stack@);
        let ghost lv = locals_view(local_stack@);
        let ctx = match pop_context(stack) {
            Some(c) => c,
            None => break,
        };
        proof {
            if stack@.len() > 0 {
                lemma_stack_pop(stack@);
                match stack@.last()@ {
                    ContextView::Token(t) => lemma_alias_names(t),
                    _ => {},
                }
            }
        }
        let after_question = top_token_is(stack, tokenizer::QUESTION);
        let after_relative = top_is_relative(stack);
        match ctx {
            Context::Token(Token::OpenParenthesis(_)) => {
                if after_question {
                    match parse_filter(stack, &mut local_stack) {
                        Ok(()) => break,
                        Err(e) => return Some(Err(e)),
                    }
                } else {
                    return None;
                }
            },
            Context::Token(Token::DoubleQuoted(_, vec)) | Context::Token(
                Token::SingleQuoted(_, vec),
            ) => {
                push_local(&mut local_stack, FilterContext::StrValue(vec_to_string(&vec)));
            },
            Context::Token(Token::Key(_, vec)) => {
                if after_relative {
                    let ghost n0 = stack@.len();
                    proof {
                        lemma_take_shrinks(stack_view(stack@), path_test());
                    }
                    match parse_path(stack, &mut local_stack, vec_to_string(&vec)) {
                        Ok(()) => {},
                        Err(e) => return Some(Err(e)),
                    }
                    assert(stack_view(stack@).len() == stack@.len());
                } else {
                    let n = match vec_to_number(&vec) {
                        Ok(n) => n,
                        Err(e) => return Some(Err(e)),
                    };
                    push_local(&mut local_stack, FilterContext::NumValue(n));
                }
            },
            Context::Key(value) => {
                if after_relative {
                    proof {
                        lemma_take_shrinks(stack_view(stack@), path_test());
                    }
                    match parse_path(stack, &mut local_stack, value) {
                        Ok(()) => {},
                        Err(e) => return Some(Err(e)),
                    }
                    assert(stack_view(stack@).len() == stack@.len());
                } else {
                    return None;
                }
            },
            Context::Token(t) => {
                match operator_context(&t) {
                    Some(part) => push_local(&mut local_stack, part),
                    None => {
                        return None;
                    },
                }
            },
            _ => {
                return None;
            },
        }
    }
    Some(Ok(()))
}

/// `[` after a key: the key becomes a finished key.
pub open spec fn path_key_spec(stack: Seq<ContextView>, token: TokenView) -> Outcome {
    let (o, s1) = pop(stack);
    match o {
        Some(ContextView::Token(TokenView::Key(_, v))) => Outcome::Done(
            s1.push(ContextView::Key(v)).push(ContextView::Token(token)),
        ),
        _ => Outcome::Fail("parse_path_key: unreachable"@, s1),
    }
}

/// What reading the token `t` does to the stack.
pub open spec fn step(stack: Seq<ContextView>, t: TokenView) -> Outcome {
    match t {
        TokenView::Absolute(_) => Outcome::Done(stack.push(ContextView::Absolute)),
        TokenView::Relative(_) => if top(stack) matches Some(ContextView::Relative) {
            Outcome::Done(stack.drop_last().push(ContextView::Relatives))
        } else {
            Outcome::Done(stack.push(ContextView::Relative))
        },
        TokenView::Asterisk(_) => if top(stack) matches Some(ContextView::Relative) {
            Outcome::Done(stack.drop_last().push(ContextView::RelativeValues))
        } else if top(stack) matches Some(ContextView::Relatives) {
            Outcome::Done(stack.drop_last().push(ContextView::AllValues))
        } else {
            Outcome::Done(stack.push(ContextView::Token(t)))
        },
        TokenView::OpenArray(_) => if top(stack) matches Some(
            ContextView::Token(TokenView::Key(_, _)),
        ) {
            path_key_spec(stack, t)
        } else {
            Outcome::Done(stack.push(ContextView::Token(t)))
        },
        TokenView::CloseParenthesis(_) => close_paren_spec(stack),
        TokenView::CloseArray(_) => close_array_spec(stack),
        TokenView::Float(_, _) | TokenView::Whitespace(_) => Outcome::Done(stack),
        _ => Outcome::Done(stack.push(ContextView::Token(t))),
    }
}

/// The parse of what is left of the path: the reader state `st`, the token
/// `prev` before it, the recorded error `err` and the stack. Tokens are
/// read until reading fails; a recorded error at an offset fails the parse.
pub open spec fn run(
    st: ReadState,
    prev: Option<TokenView>,
    err: Option<Error>,
    stack: Seq<ContextView>,
) -> Outcome
    decreases st.rest.len(),
{
    let (r, st2) = lex(st, prev);
    match r {
        Err(e) => {
            let err2 = if st.rest.len() == 0 {
                err
            } else {
                Some(e)
            };
            match err2 {
                Some(Error::Position(p)) => Outcome::Fail(position_err(p as nat), stack),
                _ => Outcome::Done(stack),
            }
        },
        Ok(t) => {
            proof {
                law_token_read_takes_a_character(st, prev);
            }
            match step(stack, t) {
                Outcome::Done(s2) => run(st2, next_prev(prev, Ok(t)), err, s2),
                Outcome::Fail(m, s2) => Outcome::Fail(m, s2),
                Outcome::Panic => Outcome::Panic,
            }
        },
    }
}

/// `[` after a key: the key becomes a finished key, then `token` is pushed.
fn parse_path_key(stack: &mut Vec<Context>, token: Token) -> (res: Result<(), String>)
    ensures
        outcome_is(path_key_spec(stack_view(old(stack)@), token@), res, stack_view(final(stack)@)),
{
    match pop_context(stack) {
        Some(Context::Token(Token::Key(_, vec))) => {
            push_context(stack, Context::Key(vec_to_string(&vec)));
        },
        _ => {
            return Err(String::from_str("parse_path_key: unreachable"));
        },
    }
    push_context(stack, Context::Token(token));
    Ok(())
}

/// Whether the top of the stack is a context of the kind named `name`.
fn top_context_is(stack: &Vec<Context>, name: &'static str) -> (r: bool)
    ensures
        r == (top(stack_view(stack@)) matches Some(c) && context_alias(c) == name@),
{
    proof {
        if stack@.len() > 0 {
            lemma_stack_pop(stack@);
        }
    }
    let f = |c: &Context| -> (b: bool)
        ensures
            b == (context_alias(c@) == name@),
        { c.alias_of(name) };
    is_match(stack.last(), f)
}

/// What reading `token` does to the stack.
/// Where the step has no meaning (`Outcome::Panic`) the result is `None`.
fn read_token(stack: &mut Vec<Context>, token: Token) -> (res: Option<Result<(), String>>)
    ensures
        res is None <==> step(stack_view(old(stack)@), token@) is Panic,
        res matches Some(r) ==> outcome_is(
            step(stack_view(old(stack)@), token@),
            r,
            stack_view(final(stack)@),
        ),
{
    proof {
        if stack@.len() > 0 {
            lemma_stack_pop(stack@);
            lemma_context_alias(stack@.last()@);
            match stack@.last()@ {
                ContextView::Token(t) => lemma_alias_names(t),
                _ => {},
            }
        }
    }
    match token {
        Token::Absolute(_) => push_context(stack, Context::Absolute),
        Token::Relative(_) => {
            if top_context_is(stack, RELATIVE) {
                pop_context(stack);
                push_context(stack, Context::Relatives);
            } else {
                push_context(stack, Context::Relative);
            }
        },
        Token::Asterisk(_) => {
            if top_context_is(stack, RELATIVE) {
                pop_context(stack);
                push_context(stack, Context::RelativeValues);
            } else if top_context_is(stack, RELATIVES) {
                pop_context(stack);
                push_context(stack, Context::AllValues);
            } else {
                push_context(stack, Context::Token(token));
            }
        },
        Token::OpenArray(_) => {
            if top_token_is(stack, tokenizer::KEY) {
                return Some(parse_path_key(stack, token));
            } else {
                push_context(stack, Context::Token(token));
            }
        },
        Token::CloseParenthesis(_) => return parse_close_paren(stack),
        Token::CloseArray(_) => return Some(parse_close_array(stack)),
        Token::Float(_, _) | Token::Whitespace(_) => {},
        _ => push_context(stack, Context::Token(token)),
    }
    Some(Ok(()))
}

/// Reads a path with a stack of contexts.
pub struct Parser<'a> {
    tokenizer: Tokenizer<'a>,
    stack: Vec<Context>,
}

impl<'a> Parser<'a> {
    pub closed spec fn state(&self) -> ReadState {
        self.tokenizer.state()
    }

    pub closed spec fn prev(&self) -> Option<TokenView> {
        self.tokenizer.prev()
    }

    pub closed spec fn last_error(&self) -> Option<Error> {
        self.tokenizer.last_error()
    }

    pub closed spec fn contexts(&self) -> Seq<ContextView> {
        stack_view(self.stack@)
    }

    pub closed spec fn fits(&self) -> bool {
        self.tokenizer.fits()
    }

    /// What `parse` comes to from here.
    pub open spec fn outcome(&self) -> Outcome {
        run(self.state(), self.prev(), self.last_error(), self.contexts())
    }

    pub fn new(input: &'a str) -> (p: Self)
        ensures
            p.state() == (ReadState { rest: input@, pos: 0, len: str_width(input@) }),
            p.prev() is None,
            p.last_error() is None,
            p.contexts() == Seq::<ContextView>::empty(),
            p.fits(),
    {
        let t = Tokenizer::new(input);
        proof {
            t.lemma_wf_fits();
        }
        let p = Parser { tokenizer: t, stack: Vec::new() };
        assert(stack_view(p.stack@) =~= Seq::<ContextView>::empty());
        p
    }

    /// Reads all the tokens that the tokenizer gives and builds the
    /// contexts of the path, as `parse` does. Where the parse meets a `(`
    /// without `?`, or a part that no filter holds (`Outcome::Panic`), the
    /// result is `None`.
    pub fn try_parse(&mut self) -> (res: Option<Result<Vec<Context>, String>>)
        requires
            old(self).fits(),
        ensures
            match old(self).outcome() {
                Outcome::Done(s) => res matches Some(Ok(v)) && stack_view(v@) == s
                    && final(self).contexts() == s,
                Outcome::Fail(m, s) => res matches Some(Err(e)) && e@ == m
                    && final(self).contexts() == s,
                Outcome::Panic => res is None,
            },
    {
        let ghost target = self.outcome();
        loop
            invariant_except_break
                self.outcome() == target,
                self.fits(),
            invariant
                target == old(self).outcome(),
            ensures
                target == (match self.last_error() {
                    Some(Error::Position(p)) => Outcome::Fail(position_err(p as nat), self.contexts()),
                    _ => Outcome::Done(self.contexts()),
                }),
            decreases self.state().rest.len(),
        {
            let ghost st = self.state();
            let ghost prev = self.prev();
            let ghost sv = self.contexts();
            proof {
                law_token_read_takes_a_character(st, prev);
            }
            let token = match self.tokenizer.next() {
                Some(t) => t,
                None => break,
            };
            match read_token(&mut self.stack, token) {
                Some(Ok(())) => {},
                Some(Err(e)) => return Some(Err(e)),
                None => return None,
            }
        }
        match self.tokenizer.get_error() {
            Some(Error::Position(p)) => {
                let mut m = String::from_str("Parse error. position:'");
                let d = usize_to_string(*p);
                m.append(d.as_str());
                m.append("'");
                Some(Err(m))
            },
            _ => Some(Ok(clone_stack(&self.stack))),
        }
    }

    /// Reads all the tokens that the tokenizer gives and builds the
    /// contexts of the path. Paths whose parse would meet a `(` without
    /// `?`, or a part that no filter holds, are left out (`Outcome::Panic`);
    /// `try_parse` tells them apart.
    pub fn parse(&mut self) -> (res: Result<Vec<Context>, String>)
        requires
            old(self).fits(),
            !(old(self).outcome() is Panic),
        ensures
            match old(self).outcome() {
                Outcome::Done(s) => res matches Ok(v) && stack_view(v@) == s
                    && final(self).contexts() == s,
                Outcome::Fail(m, s) => res matches Err(e) && e@ == m && final(self).contexts() == s,
                Outcome::Panic => false,
            },
    {
        match self.try_parse() {
            Some(r) => r,
            None => {
                proof {
                    assert(false);
                }
                Err(String::new())
            },
        }
    }

    /// The offset at which `token` starts.
    pub fn token_position(&self, token: &Token) -> (pos: usize)
        ensures
            pos == token_pos(token@),
    {
        match token {
            Token::Absolute(pos) => *pos,
            Token::Relative(pos) => *pos,
            Token::At(pos) => *pos,
            Token::OpenArray(pos) => *pos,
            Token::CloseArray(pos) => *pos,
            Token::Asterisk(pos) => *pos,
            Token::Question(pos) => *pos,
            Token::Comma(pos) => *pos,
            Token::Split(pos) => *pos,
            Token::OpenParenthesis(pos) => *pos,
            Token::CloseParenthesis(pos) => *pos,
            Token::Key(pos, _) => *pos,
            Token::DoubleQuoted(pos, _) => *pos,
            Token::SingleQuoted(pos, _) => *pos,
            Token::Equal(pos) => *pos,
            Token::GreaterOrEqual(pos) => *pos,
            Token::Greater(pos) => *pos,
            Token::Little(pos) => *pos,
            Token::LittleOrEqual(pos) => *pos,
            Token::NotEqual(pos) => *pos,
            Token::And(pos) => *pos,
            Token::Or(pos) => *pos,
            Token::Float(pos, _) => *pos,
            Token::Whitespace(pos) => *pos,
        }
    }
}

} // verus!
