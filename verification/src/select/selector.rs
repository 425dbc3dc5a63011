use vstd::prelude::*;

use super::json_value::{null_ref, JsonValue};
use super::JsonPathError;
use crate::parser::parser::{
    compile_spec, node_view, walk_events, FilterToken, Node, NodeVisitor, NodeView, ParseToken,
    ParseTokenView, Parser, VisitEvent,
};
use crate::parser::tokenizer::str_equal;
use crate::parser::utils::{parse_isize, parse_isize_str};

verus! {

/// The values of the members of an object, in order.
pub open spec fn member_values(ms: Seq<(String, JsonValue)>) -> Seq<JsonValue> {
    ms.map_values(|m: (String, JsonValue)| m.1)
}

/// The value of the first member named `key`.
pub open spec fn member(ms: Seq<(String, JsonValue)>, key: Seq<char>) -> Option<JsonValue>
    decreases ms.len(),
{
    if ms.len() == 0 {
        None
    } else if ms[0].0@ == key {
        Some(ms[0].1)
    } else {
        member(ms.drop_first(), key)
    }
}

/// The elements of an array or the member values of an object.
pub open spec fn children(v: JsonValue) -> Seq<JsonValue> {
    match v {
        JsonValue::Array(vs) => vs@,
        JsonValue::Object(ms) => member_values(ms@),
        _ => Seq::empty(),
    }
}

pub open spec fn opt_seq(o: Option<JsonValue>) -> Seq<JsonValue> {
    match o {
        Some(v) => seq![v],
        None => Seq::empty(),
    }
}

/// An index counted from the end when negative, brought into `0..=len`.
pub open spec fn abs_idx(i: int, len: int) -> int {
    if i < 0 {
        if i + len < 0 {
            0
        } else {
            i + len
        }
    } else if i < len {
        i
    } else {
        len
    }
}

/// The element at position `i`, if there is one.
pub open spec fn at_pos(vs: Seq<JsonValue>, i: int) -> Seq<JsonValue> {
    if 0 <= i < vs.len() {
        seq![vs[i]]
    } else {
        Seq::empty()
    }
}

/// The element that the index `i` names, counting from the end when `i` is
/// negative.
pub open spec fn at_index(vs: Seq<JsonValue>, i: int) -> Seq<JsonValue> {
    at_pos(vs, abs_idx(i, vs.len() as int))
}

/// What a descent picks out of each value it passes.
pub enum Pick {
    /// The elements or member values.
    All,
    /// The member with this name.
    Key(Seq<char>),
    /// The element at this position of an array.
    Index(int),
}

pub open spec fn picked(v: JsonValue, p: Pick) -> Seq<JsonValue> {
    match p {
        Pick::All => children(v),
        Pick::Key(k) => match v {
            JsonValue::Object(ms) => opt_seq(member(ms@, k)),
            _ => Seq::empty(),
        },
        Pick::Index(i) => match v {
            JsonValue::Array(vs) => at_pos(vs@, i),
            _ => Seq::empty(),
        },
    }
}

/// What `p` picks out of `v` and of everything below it, `v` first, then
/// each element or member in order.
pub open spec fn walk(v: JsonValue, p: Pick) -> Seq<JsonValue>
    decreases v,
{
    picked(v, p) + match v {
        JsonValue::Array(vs) => walk_list(vs@, p),
        JsonValue::Object(ms) => walk_members(ms@, p),
        _ => Seq::empty(),
    }
}

pub open spec fn walk_list(vs: Seq<JsonValue>, p: Pick) -> Seq<JsonValue>
    decreases vs,
{
    if vs.len() == 0 {
        Seq::empty()
    } else {
        walk_list(vs.drop_last(), p) + walk(vs.last(), p)
    }
}

pub open spec fn walk_members(ms: Seq<(String, JsonValue)>, p: Pick) -> Seq<JsonValue>
    decreases ms,
{
    if ms.len() == 0 {
        Seq::empty()
    } else {
        walk_members(ms.drop_last(), p) + walk(ms.last().1, p)
    }
}

/// The values that a list of references points at.
pub open spec fn vals<'a>(v: Seq<&'a JsonValue>) -> Seq<JsonValue> {
    v.map_values(|r: &'a JsonValue| *r)
}

fn push_val<'a>(acc: &mut Vec<&'a JsonValue>, r: &'a JsonValue)
    ensures
        vals(final(acc)@) == vals(old(acc)@).push(*r),
{
    acc.push(r);
    assert(vals(acc@) =~= vals(old(acc)@).push(*r));
}

/// The first member of `ms` named `key`.
fn get_member<'a>(ms: &'a Vec<(String, JsonValue)>, key: &str) -> (r: Option<&'a JsonValue>)
    ensures
        match r {
            Some(x) => member(ms@, key@) == Some(*x),
            None => member(ms@, key@) is None,
        },
{
    let mut i: usize = 0;
    assert(ms@.skip(0) =~= ms@);
    while i < ms.len()
        invariant
            i <= ms@.len(),
            member(ms@, key@) == member(ms@.skip(i as int), key@),
        decreases ms@.len() - i,
    {
        assert(ms@.skip(i as int)[0] == ms@[i as int]);
        if str_equal(ms[i].0.as_str(), key) {
            return Some(&ms[i].1);
        }
        assert(ms@.skip(i as int).drop_first() =~= ms@.skip(i + 1));
        i = i + 1;
    }
    None
}

/// Appends the elements or member values of `c`.
fn push_children<'a>(c: &'a JsonValue, acc: &mut Vec<&'a JsonValue>)
    ensures
        vals(final(acc)@) == vals(old(acc)@) + children(*c),
{
    match c {
        JsonValue::Array(vs) => {
            let mut j: usize = 0;
            while j < vs.len()
                invariant
                    j <= vs@.len(),
                    vals(acc@) == vals(old(acc)@) + vs@.take(j as int),
                decreases vs@.len() - j,
            {
                push_val(acc, &vs[j]);
                assert(vs@.take(j + 1) =~= vs@.take(j as int).push(vs@[j as int]));
                j = j + 1;
            }
            assert(vs@.take(vs@.len() as int) =~= vs@);
        },
        JsonValue::Object(ms) => {
            let mut j: usize = 0;
            while j < ms.len()
                invariant
                    j <= ms@.len(),
                    vals(acc@) == vals(old(acc)@) + member_values(ms@.take(j as int)),
                decreases ms@.len() - j,
            {
                push_val(acc, &ms[j].1);
                assert(member_values(ms@.take(j + 1)) =~= member_values(ms@.take(j as int)).push(
                    ms@[j as int].1,
                ));
                j = j + 1;
            }
            assert(ms@.take(ms@.len() as int) =~= ms@);
        },
        _ => {
            assert(vals(acc@) =~= vals(old(acc)@) + children(*c));
        },
    }
}

/// What a descent picks, as the walker holds it.
enum PickBy<'k> {
    All,
    Key(&'k str),
    Index(usize),
}

spec fn pick_of(p: PickBy) -> Pick {
    match p {
        PickBy::All => Pick::All,
        PickBy::Key(k) => Pick::Key(k@),
        PickBy::Index(i) => Pick::Index(i as int),
    }
}

fn push_picked<'a>(c: &'a JsonValue, p: &PickBy, acc: &mut Vec<&'a JsonValue>)
    ensures
        vals(final(acc)@) == vals(old(acc)@) + picked(*c, pick_of(*p)),
{
    match p {
        PickBy::All => push_children(c, acc),
        PickBy::Key(k) => {
            match c {
                JsonValue::Object(ms) => {
                    match get_member(ms, k) {
                        Some(x) => push_val(acc, x),
                        None => {},
                    }
                },
                _ => {},
            }
            assert(vals(acc@) =~= vals(old(acc)@) + picked(*c, pick_of(*p)));
        },
        PickBy::Index(i) => {
            match c {
                JsonValue::Array(vs) => {
                    if *i < vs.len() {
                        push_val(acc, &vs[*i]);
                    }
                },
                _ => {},
            }
            assert(vals(acc@) =~= vals(old(acc)@) + picked(*c, pick_of(*p)));
        },
    }
}

/// Appends what `p` picks out of `c` and everything below it.
fn walk_into<'a>(c: &'a JsonValue, p: &PickBy, acc: &mut Vec<&'a JsonValue>)
    ensures
        vals(final(acc)@) == vals(old(acc)@) + walk(*c, pick_of(*p)),
    decreases c,
{
    push_picked(c, p, acc);
    let ghost base = vals(acc@);
    match c {
        JsonValue::Array(vs) => {
            let mut j: usize = 0;
            while j < vs.len()
                invariant
                    j <= vs@.len(),
                    vals(acc@) == base + walk_list(vs@.take(j as int), pick_of(*p)),
                    *c is Array && c->Array_0 == *vs,
                decreases vs@.len() - j,
            {
                assert(decreases_to!(*c => c->Array_0));
                assert(decreases_to!(*vs => vs@));
                assert(decreases_to!(vs@ => vs@[j as int]));
                assert(decreases_to!(*c => vs@[j as int]));
                walk_into(&vs[j], p, acc);
                assert(vs@.take(j + 1).drop_last() =~= vs@.take(j as int));
                j = j + 1;
            }
            assert(vs@.take(vs@.len() as int) =~= vs@);
        },
        JsonValue::Object(ms) => {
            let mut j: usize = 0;
            while j < ms.len()
                invariant
                    j <= ms@.len(),
                    vals(acc@) == base + walk_members(ms@.take(j as int), pick_of(*p)),
                    *c is Object && c->Object_0 == *ms,
                decreases ms@.len() - j,
            {
                assert(decreases_to!(*c => c->Object_0));
                assert(decreases_to!(*ms => ms@));
                assert(decreases_to!(ms@ => ms@[j as int]));
                assert(decreases_to!(ms@[j as int] => ms@[j as int].1));
                assert(decreases_to!(*c => ms@[j as int].1));
                walk_into(&ms[j].1, p, acc);
                assert(ms@.take(j + 1).drop_last() =~= ms@.take(j as int));
                j = j + 1;
            }
            assert(ms@.take(ms@.len() as int) =~= ms@);
        },
        _ => {},
    }
    assert(vals(acc@) =~= vals(old(acc)@) + walk(*c, pick_of(*p)));
}

/// `p` walked from each value of `cs` in turn.
pub open spec fn descend(cs: Seq<JsonValue>, p: Pick) -> Seq<JsonValue>
    decreases cs.len(),
{
    if cs.len() == 0 {
        Seq::empty()
    } else {
        descend(cs.drop_last(), p) + walk(cs.last(), p)
    }
}

/// The elements and member values of each value of `cs`.
pub open spec fn next_all(cs: Seq<JsonValue>) -> Seq<JsonValue>
    decreases cs.len(),
{
    if cs.len() == 0 {
        Seq::empty()
    } else {
        next_all(cs.drop_last()) + children(cs.last())
    }
}

/// The members of `ms` named by `keys`, key by key.
pub open spec fn keys_of(ms: Seq<(String, JsonValue)>, keys: Seq<Seq<char>>) -> Seq<JsonValue>
    decreases keys.len(),
{
    if keys.len() == 0 {
        Seq::empty()
    } else {
        keys_of(ms, keys.drop_last()) + opt_seq(member(ms, keys.last()))
    }
}

/// The members named by `keys` of each object of `cs`.
pub open spec fn next_keys(cs: Seq<JsonValue>, keys: Seq<Seq<char>>) -> Seq<JsonValue>
    decreases cs.len(),
{
    if cs.len() == 0 {
        Seq::empty()
    } else {
        next_keys(cs.drop_last(), keys) + match cs.last() {
            JsonValue::Object(ms) => keys_of(ms@, keys),
            _ => Seq::empty(),
        }
    }
}

/// The element at index `i` of each array among the member values of `ms`.
pub open spec fn arrays_at(ms: Seq<(String, JsonValue)>, i: int) -> Seq<JsonValue>
    decreases ms.len(),
{
    if ms.len() == 0 {
        Seq::empty()
    } else {
        arrays_at(ms.drop_last(), i) + match ms.last().1 {
            JsonValue::Array(vs) => at_index(vs@, i),
            _ => Seq::empty(),
        }
    }
}

/// The element at index `i` of each array of `cs`, and of each array that
/// an object of `cs` holds as a member value.
pub open spec fn next_num(cs: Seq<JsonValue>, i: int) -> Seq<JsonValue>
    decreases cs.len(),
{
    if cs.len() == 0 {
        Seq::empty()
    } else {
        next_num(cs.drop_last(), i) + match cs.last() {
            JsonValue::Object(ms) => arrays_at(ms@, i),
            JsonValue::Array(vs) => at_index(vs@, i),
            _ => Seq::empty(),
        }
    }
}

/// The elements at `i`, `i + step`, ... below `to`.
pub open spec fn range_from(vs: Seq<JsonValue>, i: int, to: int, step: int) -> Seq<JsonValue>
    decreases to - i,
    when step > 0
{
    if i < to {
        at_pos(vs, i) + if i + step < to {
            range_from(vs, i + step, to, step)
        } else {
            Seq::empty()
        }
    } else {
        Seq::empty()
    }
}

/// A bound of a slice, or `default` where none is given.
pub open spec fn bound(b: Option<isize>, len: int, default: int) -> int {
    match b {
        Some(i) => abs_idx(i as int, len),
        None => default,
    }
}

/// The slice `from:to:step` of each array of `cs`.
pub open spec fn pick_range(
    cs: Seq<JsonValue>,
    from: Option<isize>,
    to: Option<isize>,
    step: int,
) -> Seq<JsonValue>
    decreases cs.len(),
{
    if cs.len() == 0 {
        Seq::empty()
    } else {
        pick_range(cs.drop_last(), from, to, step) + match cs.last() {
            JsonValue::Array(vs) => range_from(
                vs@,
                bound(from, vs@.len() as int, 0),
                bound(to, vs@.len() as int, vs@.len() as int),
                step,
            ),
            _ => Seq::empty(),
        }
    }
}

/// The elements at the indices `ix`, in their order.
pub open spec fn union_at(vs: Seq<JsonValue>, ix: Seq<isize>) -> Seq<JsonValue>
    decreases ix.len(),
{
    if ix.len() == 0 {
        Seq::empty()
    } else {
        union_at(vs, ix.drop_last()) + at_index(vs, ix.last() as int)
    }
}

/// The elements at the indices `ix` of each array of `cs`.
pub open spec fn pick_union(cs: Seq<JsonValue>, ix: Seq<isize>) -> Seq<JsonValue>
    decreases cs.len(),
{
    if cs.len() == 0 {
        Seq::empty()
    } else {
        pick_union(cs.drop_last(), ix) + match cs.last() {
            JsonValue::Array(vs) => union_at(vs@, ix),
            _ => Seq::empty(),
        }
    }
}

pub open spec fn has_array(cs: Seq<JsonValue>) -> bool {
    exists|i: int| 0 <= i < cs.len() && #[trigger] cs[i] is Array
}

fn abs_pos(i: isize, len: usize) -> (r: usize)
    ensures
        r == abs_idx(i as int, len as int),
{
    if i < 0 {
        let back: u128 = (0i128 - (i as i128)) as u128;
        if back > len as u128 {
            0
        } else {
            (len as u128 - back) as usize
        }
    } else if (i as u128) < (len as u128) {
        i as usize
    } else {
        len
    }
}

fn push_at_index<'a>(vs: &'a Vec<JsonValue>, i: isize, acc: &mut Vec<&'a JsonValue>)
    ensures
        vals(final(acc)@) == vals(old(acc)@) + at_index(vs@, i as int),
{
    let j = abs_pos(i, vs.len());
    if j < vs.len() {
        push_val(acc, &vs[j]);
    } else {
        assert(vals(acc@) =~= vals(old(acc)@) + at_index(vs@, i as int));
    }
}

fn descend_all<'a>(cs: &Vec<&'a JsonValue>, p: &PickBy) -> (r: Vec<&'a JsonValue>)
    ensures
        vals(r@) == descend(vals(cs@), pick_of(*p)),
{
    let mut acc: Vec<&'a JsonValue> = Vec::new();
    let mut i: usize = 0;
    while i < cs.len()
        invariant
            i <= cs@.len(),
            vals(acc@) == descend(vals(cs@).take(i as int), pick_of(*p)),
        decreases cs@.len() - i,
    {
        walk_into(cs[i], p, &mut acc);
        assert(vals(cs@).take(i + 1).drop_last() =~= vals(cs@).take(i as int));
        i = i + 1;
    }
    assert(vals(cs@).take(cs@.len() as int) =~= vals(cs@));
    acc
}

fn children_all<'a>(cs: &Vec<&'a JsonValue>) -> (r: Vec<&'a JsonValue>)
    ensures
        vals(r@) == next_all(vals(cs@)),
{
    let mut acc: Vec<&'a JsonValue> = Vec::new();
    let mut i: usize = 0;
    while i < cs.len()
        invariant
            i <= cs@.len(),
            vals(acc@) == next_all(vals(cs@).take(i as int)),
        decreases cs@.len() - i,
    {
        push_children(cs[i], &mut acc);
        assert(vals(cs@).take(i + 1).drop_last() =~= vals(cs@).take(i as int));
        i = i + 1;
    }
    assert(vals(cs@).take(cs@.len() as int) =~= vals(cs@));
    acc
}

pub open spec fn keys_view(keys: Seq<String>) -> Seq<Seq<char>> {
    keys.map_values(|k: String| k@)
}

fn push_keys<'a>(ms: &'a Vec<(String, JsonValue)>, keys: &Vec<String>, acc: &mut Vec<&'a JsonValue>)
    ensures
        vals(final(acc)@) == vals(old(acc)@) + keys_of(ms@, keys_view(keys@)),
{
    let mut i: usize = 0;
    while i < keys.len()
        invariant
            i <= keys@.len(),
            vals(acc@) == vals(old(acc)@) + keys_of(ms@, keys_view(keys@).take(i as int)),
        decreases keys@.len() - i,
    {
        match get_member(ms, keys[i].as_str()) {
            Some(x) => push_val(acc, x),
            None => {},
        }
        assert(keys_view(keys@).take(i + 1).drop_last() =~= keys_view(keys@).take(i as int));
        assert(vals(acc@) =~= vals(old(acc)@) + keys_of(ms@, keys_view(keys@).take(i + 1)));
        i = i + 1;
    }
    assert(keys_view(keys@).take(keys@.len() as int) =~= keys_view(keys@));
}

fn keys_all<'a>(cs: &Vec<&'a JsonValue>, keys: &Vec<String>) -> (r: Vec<&'a JsonValue>)
    ensures
        vals(r@) == next_keys(vals(cs@), keys_view(keys@)),
{
    let mut acc: Vec<&'a JsonValue> = Vec::new();
    let mut i: usize = 0;
    while i < cs.len()
        invariant
            i <= cs@.len(),
            vals(acc@) == next_keys(vals(cs@).take(i as int), keys_view(keys@)),
        decreases cs@.len() - i,
    {
        let c: &'a JsonValue = cs[i];
        match c {
            JsonValue::Object(ms) => push_keys(ms, keys, &mut acc),
            _ => {},
        }
        assert(vals(cs@).take(i + 1).drop_last() =~= vals(cs@).take(i as int));
        assert(vals(acc@) =~= next_keys(vals(cs@).take(i + 1), keys_view(keys@)));
        i = i + 1;
    }
    assert(vals(cs@).take(cs@.len() as int) =~= vals(cs@));
    acc
}

fn push_arrays_at<'a>(ms: &'a Vec<(String, JsonValue)>, n: isize, acc: &mut Vec<&'a JsonValue>)
    ensures
        vals(final(acc)@) == vals(old(acc)@) + arrays_at(ms@, n as int),
{
    let mut i: usize = 0;
    while i < ms.len()
        invariant
            i <= ms@.len(),
            vals(acc@) == vals(old(acc)@) + arrays_at(ms@.take(i as int), n as int),
        decreases ms@.len() - i,
    {
        match &ms[i].1 {
            JsonValue::Array(vs) => push_at_index(vs, n, acc),
            _ => {},
        }
        assert(ms@.take(i + 1).drop_last() =~= ms@.take(i as int));
        assert(vals(acc@) =~= vals(old(acc)@) + arrays_at(ms@.take(i + 1), n as int));
        i = i + 1;
    }
    assert(ms@.take(ms@.len() as int) =~= ms@);
}

fn num_all<'a>(cs: &Vec<&'a JsonValue>, n: isize) -> (r: Vec<&'a JsonValue>)
    ensures
        vals(r@) == next_num(vals(cs@), n as int),
{
    let mut acc: Vec<&'a JsonValue> = Vec::new();
    let mut i: usize = 0;
    while i < cs.len()
        invariant
            i <= cs@.len(),
            vals(acc@) == next_num(vals(cs@).take(i as int), n as int),
        decreases cs@.len() - i,
    {
        let c: &'a JsonValue = cs[i];
        match c {
            JsonValue::Object(ms) => push_arrays_at(ms, n, &mut acc),
            JsonValue::Array(vs) => push_at_index(vs, n, &mut acc),
            _ => {},
        }
        assert(vals(cs@).take(i + 1).drop_last() =~= vals(cs@).take(i as int));
        assert(vals(acc@) =~= next_num(vals(cs@).take(i + 1), n as int));
        i = i + 1;
    }
    assert(vals(cs@).take(cs@.len() as int) =~= vals(cs@));
    acc
}

fn push_range<'a>(vs: &'a Vec<JsonValue>, from: usize, to: usize, step: usize, acc: &mut Vec<&'a JsonValue>)
    requires
        step > 0,
        to <= vs@.len(),
    ensures
        vals(final(acc)@) == vals(old(acc)@) + range_from(vs@, from as int, to as int, step as int),
{
    let mut i: usize = from;
    while i < to
        invariant
            step > 0,
            to <= vs@.len(),
            vals(acc@) + range_from(vs@, i as int, to as int, step as int) == vals(old(acc)@)
                + range_from(vs@, from as int, to as int, step as int),
        decreases to - i,
    {
        let ghost before = vals(acc@);
        push_val(acc, &vs[i]);
        assert(range_from(vs@, i as int, to as int, step as int) == seq![vs@[i as int]]
            + range_from(vs@, i + step, to as int, step as int));
        assert(before + range_from(vs@, i as int, to as int, step as int) =~= vals(acc@)
            + range_from(vs@, i + step, to as int, step as int));
        if to - i <= step {
            assert(range_from(vs@, i + step, to as int, step as int) =~= Seq::<JsonValue>::empty());
            assert(vals(acc@) + Seq::<JsonValue>::empty() =~= vals(acc@));
            return;
        }
        i = i + step;
    }
    assert(vals(acc@) + Seq::<JsonValue>::empty() =~= vals(acc@));
}

/// Where a step of zero meets an array the result is `None`.
fn range_all<'a>(cs: &Vec<&'a JsonValue>, from: Option<isize>, to: Option<isize>, step: usize)
    -> (r: Option<Vec<&'a JsonValue>>)
    ensures
        r is None <==> step == 0 && has_array(vals(cs@)),
        r matches Some(v) ==> vals(v@) == pick_range(vals(cs@), from, to, step as int),
{
    let mut acc: Vec<&'a JsonValue> = Vec::new();
    let mut i: usize = 0;
    while i < cs.len()
        invariant
            i <= cs@.len(),
            vals(acc@) == pick_range(vals(cs@).take(i as int), from, to, step as int),
            step == 0 ==> !has_array(vals(cs@).take(i as int)),
        decreases cs@.len() - i,
    {
        let c: &'a JsonValue = cs[i];
        match c {
            JsonValue::Array(vs) => {
                if step == 0 {
                    assert(vals(cs@)[i as int] is Array);
                    return None;
                }
                let f = match from {
                    Some(x) => abs_pos(x, vs.len()),
                    None => 0,
                };
                let t = match to {
                    Some(x) => abs_pos(x, vs.len()),
                    None => vs.len(),
                };
                push_range(vs, f, t, step, &mut acc);
            },
            _ => {},
        }
        assert(vals(cs@).take(i + 1).drop_last() =~= vals(cs@).take(i as int));
        assert(vals(acc@) =~= pick_range(vals(cs@).take(i + 1), from, to, step as int));
        assert(step == 0 ==> !has_array(vals(cs@).take(i + 1))) by {
            if step == 0 && has_array(vals(cs@).take(i + 1)) {
                let k = choose|k: int| 0 <= k < i + 1 && #[trigger] vals(cs@).take(i + 1)[k] is Array;
                if k < i {
                    assert(vals(cs@).take(i as int)[k] is Array);
                }
            }
        }
        i = i + 1;
    }
    assert(vals(cs@).take(cs@.len() as int) =~= vals(cs@));
    Some(acc)
}

fn push_union<'a>(vs: &'a Vec<JsonValue>, ix: &Vec<isize>, acc: &mut Vec<&'a JsonValue>)
    ensures
        vals(final(acc)@) == vals(old(acc)@) + union_at(vs@, ix@),
{
    let mut i: usize = 0;
    while i < ix.len()
        invariant
            i <= ix@.len(),
            vals(acc@) == vals(old(acc)@) + union_at(vs@, ix@.take(i as int)),
        decreases ix@.len() - i,
    {
        push_at_index(vs, ix[i], acc);
        assert(ix@.take(i + 1).drop_last() =~= ix@.take(i as int));
        assert(vals(acc@) =~= vals(old(acc)@) + union_at(vs@, ix@.take(i + 1)));
        i = i + 1;
    }
    assert(ix@.take(ix@.len() as int) =~= ix@);
}

fn union_all<'a>(cs: &Vec<&'a JsonValue>, ix: &Vec<isize>) -> (r: Vec<&'a JsonValue>)
    ensures
        vals(r@) == pick_union(vals(cs@), ix@),
{
    let mut acc: Vec<&'a JsonValue> = Vec::new();
    let mut i: usize = 0;
    while i < cs.len()
        invariant
            i <= cs@.len(),
            vals(acc@) == pick_union(vals(cs@).take(i as int), ix@),
        decreases cs@.len() - i,
    {
        let c: &'a JsonValue = cs[i];
        match c {
            JsonValue::Array(vs) => push_union(vs, ix, &mut acc),
            _ => {},
        }
        assert(vals(cs@).take(i + 1).drop_last() =~= vals(cs@).take(i as int));
        assert(vals(acc@) =~= pick_union(vals(cs@).take(i + 1), ix@));
        i = i + 1;
    }
    assert(vals(cs@).take(cs@.len() as int) =~= vals(cs@));
    acc
}

/// A path step that waits for what follows it.
#[derive(Debug, PartialEq, Eq, Structural, Clone, Copy)]
pub enum StepToken {
    In,
    Leaves,
    Array,
}

/// What stands between brackets, waiting for the bracket to close: an
/// index, a key or a boolean.
#[derive(Debug)]
pub enum Term {
    Num(isize),
    Str(String),
    Flag(bool),
}

pub enum TermView {
    Num(int),
    Str(Seq<char>),
    Flag(bool),
}

pub open spec fn term_view(t: Term) -> TermView {
    match t {
        Term::Num(n) => TermView::Num(n as int),
        Term::Str(k) => TermView::Str(k@),
        Term::Flag(b) => TermView::Flag(b),
    }
}

/// The state of a selection: the value selected from, the steps and terms
/// that wait, the values selected so far, and whether the path asked for a
/// filter, which this selector does not evaluate.
#[verifier::ext_equal]
pub struct SelectorView {
    pub root: Option<JsonValue>,
    pub tokens: Seq<StepToken>,
    pub terms: Seq<TermView>,
    pub current: Option<Seq<JsonValue>>,
    pub refused: bool,
}

pub open spec fn refuse(s: SelectorView) -> SelectorView {
    SelectorView { refused: true, ..s }
}

pub open spec fn set_current(s: SelectorView, c: Seq<JsonValue>) -> SelectorView {
    SelectorView { current: Some(c), ..s }
}

pub open spec fn push_tok(s: SelectorView, t: StepToken) -> SelectorView {
    SelectorView { tokens: s.tokens.push(t), ..s }
}

pub open spec fn pop_tok(s: SelectorView) -> SelectorView {
    if s.tokens.len() == 0 {
        s
    } else {
        SelectorView { tokens: s.tokens.drop_last(), ..s }
    }
}

pub open spec fn last_tok(s: SelectorView) -> Option<StepToken> {
    if s.tokens.len() == 0 {
        None
    } else {
        Some(s.tokens.last())
    }
}

/// The step below the last one.
pub open spec fn before_last(s: SelectorView) -> Option<StepToken> {
    if s.tokens.len() > 1 {
        Some(s.tokens[s.tokens.len() - 2])
    } else {
        None
    }
}

pub open spec fn push_term(s: SelectorView, t: TermView) -> SelectorView {
    SelectorView { terms: s.terms.push(t), ..s }
}

pub open spec fn pop_term(s: SelectorView) -> SelectorView {
    if s.terms.len() == 0 {
        s
    } else {
        SelectorView { terms: s.terms.drop_last(), ..s }
    }
}

pub open spec fn or_null(t: Seq<JsonValue>) -> Seq<JsonValue> {
    if t.len() == 0 {
        seq![JsonValue::Null]
    } else {
        t
    }
}

/// `[n]`: the element at index `n`; where there is none, `null`, and the
/// term below is dropped.
pub open spec fn num_step(s: SelectorView, n: int) -> SelectorView {
    match s.current {
        Some(cs) => {
            let t = next_num(cs, n);
            if t.len() == 0 {
                set_current(pop_term(s), seq![JsonValue::Null])
            } else {
                set_current(s, t)
            }
        },
        None => s,
    }
}

/// `.key` or `['k1', 'k2']`: the members so named; where there is none,
/// `null`.
pub open spec fn keys_step(s: SelectorView, keys: Seq<Seq<char>>) -> SelectorView {
    match s.current {
        Some(cs) => set_current(s, or_null(next_keys(cs, keys))),
        None => s,
    }
}

/// `.*`: all elements and member values.
pub open spec fn all_step(s: SelectorView) -> SelectorView {
    match s.current {
        Some(cs) => set_current(s, next_all(cs)),
        None => s,
    }
}

/// `..`: what `p` picks at every depth.
pub open spec fn descend_step(s: SelectorView, p: Pick) -> SelectorView {
    match s.current {
        Some(cs) => set_current(s, descend(cs, p)),
        None => s,
    }
}

pub open spec fn visit_all_spec(s: SelectorView) -> SelectorView {
    let s1 = if last_tok(s) == Some(StepToken::Array) {
        pop_tok(s)
    } else {
        s
    };
    match last_tok(s1) {
        Some(StepToken::Leaves) => descend_step(pop_tok(s1), Pick::All),
        Some(StepToken::In) => all_step(pop_tok(s1)),
        _ => all_step(s1),
    }
}

pub open spec fn visit_key_spec(s: SelectorView, k: Seq<char>) -> SelectorView {
    match last_tok(s) {
        Some(StepToken::Array) => push_term(s, TermView::Str(k)),
        None => s,
        Some(t) => {
            let s1 = pop_tok(s);
            if s1.terms.len() == 0 {
                match t {
                    StepToken::Leaves => descend_step(s1, Pick::Key(k)),
                    _ => keys_step(s1, seq![k]),
                }
            } else {
                refuse(s1)
            }
        },
    }
}

pub open spec fn visit_keys_spec(s: SelectorView, ks: Seq<Seq<char>>) -> SelectorView {
    if s.terms.len() > 0 {
        refuse(s)
    } else if last_tok(s) == Some(StepToken::Array) {
        keys_step(pop_tok(s), ks)
    } else {
        refuse(pop_tok(s))
    }
}

pub open spec fn visit_range_spec(
    s: SelectorView,
    from: Option<isize>,
    to: Option<isize>,
    step: Option<usize>,
) -> SelectorView {
    if s.terms.len() > 0 {
        refuse(s)
    } else if last_tok(s) == Some(StepToken::Array) {
        let s1 = pop_tok(s);
        let st: int = match step {
            Some(x) => x as int,
            None => 1,
        };
        match s1.current {
            Some(cs) => if st == 0 && has_array(cs) {
                refuse(s1)
            } else {
                set_current(s1, pick_range(cs, from, to, st))
            },
            None => set_current(s1, Seq::empty()),
        }
    } else {
        refuse(pop_tok(s))
    }
}

pub open spec fn visit_union_spec(s: SelectorView, ix: Seq<isize>) -> SelectorView {
    if s.terms.len() > 0 {
        refuse(s)
    } else if last_tok(s) == Some(StepToken::Array) {
        let s1 = pop_tok(s);
        match s1.current {
            Some(cs) => set_current(s1, pick_union(cs, ix)),
            None => set_current(s1, Seq::empty()),
        }
    } else {
        refuse(pop_tok(s))
    }
}

/// The closing bracket of what the last term holds.
pub open spec fn close_term_spec(s: SelectorView) -> SelectorView {
    if s.terms.len() > 0 {
        let s1 = pop_term(s);
        match s.terms.last() {
            TermView::Num(n) => num_step(s1, n),
            TermView::Str(k) => keys_step(s1, seq![k]),
            TermView::Flag(false) => set_current(s1, seq![JsonValue::Null]),
            TermView::Flag(true) => s1,
        }
    } else {
        s
    }
}

pub open spec fn array_eof_spec(s: SelectorView) -> SelectorView {
    if before_last(s) == Some(StepToken::Array) && s.terms.len() > 0 && s.terms.last() is Str {
        refuse(s)
    } else if before_last(s) == Some(StepToken::Leaves) {
        let s1 = pop_tok(pop_tok(s));
        if s1.terms.len() > 0 && s1.terms.last() is Num {
            let n = s1.terms.last()->Num_0;
            pop_term(pop_term(descend_step(s1, Pick::Index(if n < 0 { 0 } else { n }))))
        } else {
            pop_tok(close_term_spec(s1))
        }
    } else {
        pop_tok(close_term_spec(s))
    }
}

/// What a token of a path does to a selection.
#[verifier::opaque]
pub open spec fn step_spec(s: SelectorView, t: ParseTokenView) -> SelectorView {
    if s.refused {
        s
    } else {
        match t {
            ParseTokenView::Absolute => if s.current is Some {
                refuse(s)
            } else {
                match s.root {
                    Some(v) => set_current(s, seq![v]),
                    None => s,
                }
            },
            ParseTokenView::Relative | ParseTokenView::Filter(_) => refuse(s),
            ParseTokenView::In => push_tok(s, StepToken::In),
            ParseTokenView::Leaves => push_tok(s, StepToken::Leaves),
            ParseTokenView::Array => push_tok(s, StepToken::Array),
            ParseTokenView::ArrayEof => array_eof_spec(s),
            ParseTokenView::All => visit_all_spec(s),
            ParseTokenView::Bool(b) => push_term(s, TermView::Flag(b)),
            ParseTokenView::Key(k) => visit_key_spec(s, k),
            ParseTokenView::Keys(ks) => visit_keys_spec(s, ks),
            ParseTokenView::Number(text) => match parse_isize(text) {
                Some(d) => push_term(s, TermView::Num(d)),
                None => refuse(s),
            },
            ParseTokenView::Range(f, t, st) => visit_range_spec(s, f, t, st),
            ParseTokenView::Union(ix) => visit_union_spec(s, ix),
            ParseTokenView::Eof => s,
        }
    }
}

pub open spec fn event_step(s: SelectorView, e: VisitEvent) -> SelectorView {
    match e {
        VisitEvent::Token(t) => step_spec(s, t),
        VisitEvent::EndTerm => s,
    }
}

/// The selection after the events `es`.
pub open spec fn run_events(s: SelectorView, es: Seq<VisitEvent>) -> SelectorView
    decreases es.len(),
{
    if es.len() == 0 {
        s
    } else {
        event_step(run_events(s, es.drop_last()), es.last())
    }
}

/// A selection from `root` that has not started.
pub open spec fn start_with(root: Option<JsonValue>) -> SelectorView {
    SelectorView {
        root,
        tokens: Seq::empty(),
        terms: Seq::empty(),
        current: None,
        refused: false,
    }
}

/// A selection from `json` that has not started.
pub open spec fn start(json: JsonValue) -> SelectorView {
    SelectorView {
        root: Some(json),
        tokens: Seq::empty(),
        terms: Seq::empty(),
        current: None,
        refused: false,
    }
}

/// What selecting from `json` with the parsed path `n` gives: `None` where
/// the path asks for a filter (or for a key, union or range inside one);
/// else the values selected, or `None` inside where nothing was selected
/// from.
pub open spec fn select_spec(n: NodeView, json: JsonValue) -> Option<Option<Seq<JsonValue>>> {
    let st = run_events(start(json), walk_events(n));
    if st.refused {
        None
    } else {
        Some(st.current)
    }
}

/// Selects values from a JSON value with the parsed path it visits.
pub struct Selector<'a> {
    path: Option<Node>,
    value: Option<&'a JsonValue>,
    tokens: Vec<StepToken>,
    terms: Vec<Term>,
    current: Option<Vec<&'a JsonValue>>,
    refused: bool,
    log: Ghost<Seq<VisitEvent>>,
}

pub open spec fn opt_vals<'a>(c: Option<Vec<&'a JsonValue>>) -> Option<Seq<JsonValue>> {
    match c {
        Some(v) => Some(vals(v@)),
        None => None,
    }
}

impl<'a> View for Selector<'a> {
    type V = SelectorView;

    closed spec fn view(&self) -> SelectorView {
        SelectorView {
            root: match self.value {
                Some(v) => Some(*v),
                None => None,
            },
            tokens: self.tokens@,
            terms: self.terms@.map_values(|t: Term| term_view(t)),
            current: opt_vals(self.current),
            refused: self.refused,
        }
    }
}

impl<'a> Selector<'a> {
    /// Whether the selection is the run, from its start, of the events
    /// handed to it so far.
    pub closed spec fn tracks_events(&self) -> bool {
        self@ == run_events(start_with(self@.root), self.log@)
    }

    closed spec fn same_record(&self, other: &Self) -> bool {
        self.log == other.log
    }

    /// A selector with no value to select from.
    pub fn new() -> (s: Self)
        ensures
            s@ == (SelectorView {
                root: None,
                tokens: Seq::empty(),
                terms: Seq::empty(),
                current: None,
                refused: false,
            }),
            s.events() == Seq::<VisitEvent>::empty(),
            s.tracks_events(),
    {
        let s = Selector {
            path: None,
            value: None,
            tokens: Vec::new(),
            terms: Vec::new(),
            current: None,
            refused: false,
            log: Ghost(Seq::empty()),
        };
        assert(s@ =~= start_with(None));
        s
    }

    /// Sets the value to select from.
    pub fn value(&mut self, v: &'a JsonValue)
        ensures
            final(self)@ == (SelectorView { root: Some(*v), ..old(self)@ }),
            final(self).events() == old(self).events(),
    {
        self.value = Some(v);
        assert(self@ =~= SelectorView { root: Some(*v), ..old(self)@ });
    }

    /// Forgets the values selected so far.
    pub fn reset_value(&mut self)
        ensures
            final(self)@ == (SelectorView { current: None, ..old(self)@ }),
            final(self).events() == old(self).events(),
    {
        self.current = None;
        assert(self@ =~= SelectorView { current: None, ..old(self)@ });
    }

    /// A selector from `json` that has been handed nothing yet.
    fn start_from(json: &'a JsonValue) -> (s: Self)
        ensures
            s@ == start(*json),
            s.events() == Seq::<VisitEvent>::empty(),
            s.inv(),
    {
        let s = Selector {
            path: None,
            value: Some(json),
            tokens: Vec::new(),
            terms: Vec::new(),
            current: None,
            refused: false,
            log: Ghost(Seq::empty()),
        };
        assert(s@ =~= start(*json));
        assert(s@ =~= start_with(s@.root));
        s
    }

    /// The values selected, or `None` where no value was selected from.
    pub fn current_values(&self) -> (r: Option<Vec<&'a JsonValue>>)
        ensures
            opt_vals(r) == self@.current,
    {
        match &self.current {
            Some(c) => Some(c.clone()),
            None => None,
        }
    }

    /// Whether the path asked for what this selector does not evaluate.
    pub fn refused(&self) -> (r: bool)
        ensures
            r == self@.refused,
    {
        self.refused
    }

    fn refuse_now(&mut self)
        ensures
            final(self)@ == refuse(old(self)@),
            final(self).same_record(old(self)),
    {
        self.refused = true;
        assert(self@ =~= refuse(old(self)@));
    }

    fn set_cur(&mut self, c: Vec<&'a JsonValue>)
        ensures
            final(self)@ == set_current(old(self)@, vals(c@)),
            final(self).same_record(old(self)),
    {
        self.current = Some(c);
        assert(self@ =~= set_current(old(self)@, vals(c@)));
    }

    fn push_token(&mut self, t: StepToken)
        ensures
            final(self)@ == push_tok(old(self)@, t),
            final(self).same_record(old(self)),
    {
        self.tokens.push(t);
        assert(self@ =~= push_tok(old(self)@, t));
    }

    fn pop_token(&mut self) -> (r: Option<StepToken>)
        ensures
            final(self)@ == pop_tok(old(self)@),
            r == last_tok(old(self)@),
            final(self).same_record(old(self)),
    {
        let r = self.tokens.pop();
        assert(self@ =~= pop_tok(old(self)@));
        r
    }

    fn last_token(&self) -> (r: Option<StepToken>)
        ensures
            r == last_tok(self@),
    {
        if self.tokens.len() == 0 {
            None
        } else {
            Some(self.tokens[self.tokens.len() - 1])
        }
    }

    fn before_last_token(&self) -> (r: Option<StepToken>)
        ensures
            r == before_last(self@),
    {
        if self.tokens.len() > 1 {
            Some(self.tokens[self.tokens.len() - 2])
        } else {
            None
        }
    }

    fn push_term_exec(&mut self, t: Term)
        ensures
            final(self)@ == push_term(old(self)@, term_view(t)),
            final(self).same_record(old(self)),
    {
        self.terms.push(t);
        assert(self.terms@.map_values(|t: Term| term_view(t)) =~= old(self).terms@.map_values(
            |t: Term| term_view(t),
        ).push(term_view(t)));
        assert(self@ =~= push_term(old(self)@, term_view(t)));
    }

    fn pop_term_exec(&mut self) -> (r: Option<Term>)
        ensures
            final(self)@ == pop_term(old(self)@),
            match r {
                Some(t) => old(self)@.terms.len() > 0 && term_view(t) == old(self)@.terms.last(),
                None => old(self)@.terms.len() == 0,
            },
            final(self).same_record(old(self)),
    {
        let r = self.terms.pop();
        assert(self.terms@.map_values(|t: Term| term_view(t)) =~= pop_term(old(self)@).terms);
        assert(self@ =~= pop_term(old(self)@));
        r
    }

    fn has_terms(&self) -> (r: bool)
        ensures
            r == (self@.terms.len() > 0),
    {
        self.terms.len() > 0
    }

    fn num_step_exec(&mut self, n: isize)
        ensures
            final(self)@ == num_step(old(self)@, n as int),
            final(self).same_record(old(self)),
    {
        match &self.current {
            Some(cs) => {
                let t = num_all(cs, n);
                if t.len() == 0 {
                    self.pop_term_exec();
                    let mut one: Vec<&'a JsonValue> = Vec::new();
                    one.push(null_ref());
                    assert(vals(one@) =~= seq![JsonValue::Null]);
                    self.set_cur(one);
                } else {
                    self.set_cur(t);
                }
            },
            None => {},
        }
    }

    fn keys_step_exec(&mut self, keys: &Vec<String>)
        ensures
            final(self)@ == keys_step(old(self)@, keys_view(keys@)),
            final(self).same_record(old(self)),
    {
        match &self.current {
            Some(cs) => {
                let t = keys_all(cs, keys);
                if t.len() == 0 {
                    let mut one: Vec<&'a JsonValue> = Vec::new();
                    one.push(null_ref());
                    assert(vals(one@) =~= seq![JsonValue::Null]);
                    self.set_cur(one);
                } else {
                    self.set_cur(t);
                }
            },
            None => {},
        }
    }

    fn all_step_exec(&mut self)
        ensures
            final(self)@ == all_step(old(self)@),
            final(self).same_record(old(self)),
    {
        match &self.current {
            Some(cs) => {
                let t = children_all(cs);
                self.set_cur(t);
            },
            None => {},
        }
    }

    fn descend_step_exec(&mut self, p: &PickBy)
        ensures
            final(self)@ == descend_step(old(self)@, pick_of(*p)),
            final(self).same_record(old(self)),
    {
        match &self.current {
            Some(cs) => {
                let t = descend_all(cs, p);
                self.set_cur(t);
            },
            None => {},
        }
    }
}

impl<'a> Selector<'a> {
    fn visit_all(&mut self)
        ensures
            final(self)@ == visit_all_spec(old(self)@),
            final(self).same_record(old(self)),
    {
        if self.last_token() == Some(StepToken::Array) {
            self.pop_token();
        }
        match self.last_token() {
            Some(StepToken::Leaves) => {
                self.pop_token();
                self.descend_step_exec(&PickBy::All);
            },
            Some(StepToken::In) => {
                self.pop_token();
                self.all_step_exec();
            },
            _ => self.all_step_exec(),
        }
    }

    fn visit_key(&mut self, key: &String)
        ensures
            final(self)@ == visit_key_spec(old(self)@, key@),
            final(self).same_record(old(self)),
    {
        match self.last_token() {
            Some(StepToken::Array) => {
                self.push_term_exec(Term::Str(key.clone()));
            },
            None => {},
            Some(t) => {
                self.pop_token();
                if !self.has_terms() {
                    match t {
                        StepToken::Leaves => self.descend_step_exec(&PickBy::Key(key.as_str())),
                        _ => {
                            let mut keys: Vec<String> = Vec::new();
                            keys.push(key.clone());
                            assert(keys_view(keys@) =~= seq![key@]);
                            self.keys_step_exec(&keys);
                        },
                    }
                } else {
                    self.refuse_now();
                }
            },
        }
    }

    fn visit_keys(&mut self, keys: &Vec<String>)
        ensures
            final(self)@ == visit_keys_spec(old(self)@, keys_view(keys@)),
            final(self).same_record(old(self)),
    {
        if self.has_terms() {
            self.refuse_now();
        } else if self.last_token() == Some(StepToken::Array) {
            self.pop_token();
            self.keys_step_exec(keys);
        } else {
            self.pop_token();
            self.refuse_now();
        }
    }

    fn visit_range(&mut self, from: Option<isize>, to: Option<isize>, step: Option<usize>)
        ensures
            final(self)@ == visit_range_spec(old(self)@, from, to, step),
            final(self).same_record(old(self)),
    {
        if self.has_terms() {
            self.refuse_now();
        } else if self.last_token() == Some(StepToken::Array) {
            self.pop_token();
            let st: usize = match step {
                Some(x) => x,
                None => 1,
            };
            let picked = match &self.current {
                Some(cs) => range_all(cs, from, to, st),
                None => Some(Vec::new()),
            };
            match picked {
                Some(t) => {
                    proof {
                        if self@.current is None {
                            assert(vals(t@) =~= Seq::<JsonValue>::empty());
                        }
                    }
                    self.set_cur(t);
                },
                None => self.refuse_now(),
            }
        } else {
            self.pop_token();
            self.refuse_now();
        }
    }

    fn visit_union(&mut self, ix: &Vec<isize>)
        ensures
            final(self)@ == visit_union_spec(old(self)@, ix@),
            final(self).same_record(old(self)),
    {
        if self.has_terms() {
            self.refuse_now();
        } else if self.last_token() == Some(StepToken::Array) {
            self.pop_token();
            let t = match &self.current {
                Some(cs) => union_all(cs, ix),
                None => Vec::new(),
            };
            proof {
                if self@.current is None {
                    assert(vals(t@) =~= Seq::<JsonValue>::empty());
                }
            }
            self.set_cur(t);
        } else {
            self.pop_token();
            self.refuse_now();
        }
    }

    fn close_term(&mut self)
        ensures
            final(self)@ == close_term_spec(old(self)@),
            final(self).same_record(old(self)),
    {
        match self.pop_term_exec() {
            Some(Term::Num(n)) => self.num_step_exec(n),
            Some(Term::Str(k)) => {
                let mut keys: Vec<String> = Vec::new();
                keys.push(k);
                assert(keys_view(keys@) =~= seq![k@]);
                self.keys_step_exec(&keys);
            },
            Some(Term::Flag(false)) => {
                let mut one: Vec<&'a JsonValue> = Vec::new();
                one.push(null_ref());
                assert(vals(one@) =~= seq![JsonValue::Null]);
                self.set_cur(one);
            },
            Some(Term::Flag(true)) => {},
            None => {},
        }
    }

    fn last_term_is_str(&self) -> (r: bool)
        ensures
            r == (self@.terms.len() > 0 && self@.terms.last() is Str),
    {
        if self.terms.len() == 0 {
            false
        } else {
            match &self.terms[self.terms.len() - 1] {
                Term::Str(_) => true,
                _ => false,
            }
        }
    }

    fn last_term_num(&self) -> (r: Option<isize>)
        ensures
            match r {
                Some(n) => self@.terms.len() > 0 && self@.terms.last() == TermView::Num(n as int),
                None => !(self@.terms.len() > 0 && self@.terms.last() is Num),
            },
    {
        if self.terms.len() == 0 {
            None
        } else {
            match &self.terms[self.terms.len() - 1] {
                Term::Num(n) => Some(*n),
                _ => None,
            }
        }
    }

    fn visit_array_eof(&mut self)
        ensures
            final(self)@ == array_eof_spec(old(self)@),
            final(self).same_record(old(self)),
    {
        let before = self.before_last_token();
        if before == Some(StepToken::Array) && self.last_term_is_str() {
            self.refuse_now();
        } else if before == Some(StepToken::Leaves) {
            self.pop_token();
            self.pop_token();
            match self.last_term_num() {
                Some(n) => {
                    let i: usize = if n < 0 {
                        0
                    } else {
                        n as usize
                    };
                    self.descend_step_exec(&PickBy::Index(i));
                    self.pop_term_exec();
                    self.pop_term_exec();
                },
                None => {
                    self.close_term();
                    self.pop_token();
                },
            }
        } else {
            self.close_term();
            self.pop_token();
        }
    }

    fn step(&mut self, token: &ParseToken)
        ensures
            final(self)@ == step_spec(old(self)@, token@),
            final(self).same_record(old(self)),
    {
        reveal(step_spec);
        if self.refused {
            return;
        }
        match token {
            ParseToken::Absolute => {
                if self.current.is_some() {
                    self.refuse_now();
                } else {
                    match self.value {
                        Some(v) => {
                            let mut one: Vec<&'a JsonValue> = Vec::new();
                            one.push(v);
                            assert(vals(one@) =~= seq![*v]);
                            self.set_cur(one);
                        },
                        None => {},
                    }
                }
            },
            ParseToken::Relative | ParseToken::Filter(_) => self.refuse_now(),
            ParseToken::In => self.push_token(StepToken::In),
            ParseToken::Leaves => self.push_token(StepToken::Leaves),
            ParseToken::Array => self.push_token(StepToken::Array),
            ParseToken::ArrayEof => self.visit_array_eof(),
            ParseToken::All => self.visit_all(),
            ParseToken::Bool(b) => self.push_term_exec(Term::Flag(*b)),
            ParseToken::Key(k) => self.visit_key(k),
            ParseToken::Keys(ks) => self.visit_keys(ks),
            ParseToken::Number(text) => match parse_isize_str(text.as_str()) {
                Some(d) => self.push_term_exec(Term::Num(d)),
                None => self.refuse_now(),
            },
            ParseToken::Range(f, t, st) => self.visit_range(*f, *t, *st),
            ParseToken::Union(ix) => self.visit_union(ix),
            ParseToken::Eof => {},
        }
    }
}

proof fn lemma_run_concat(s: SelectorView, a: Seq<VisitEvent>, b: Seq<VisitEvent>)
    ensures
        run_events(s, a + b) == run_events(run_events(s, a), b),
    decreases b.len(),
{
    if b.len() == 0 {
        assert(a + b =~= a);
    } else {
        lemma_run_concat(s, a, b.drop_last());
        assert((a + b).drop_last() =~= a + b.drop_last());
    }
}

proof fn lemma_run_one(s: SelectorView, e: VisitEvent)
    ensures
        run_events(s, seq![e]) == event_step(s, e),
{
    assert(seq![e].drop_last() =~= Seq::<VisitEvent>::empty());
    assert(run_events(s, Seq::<VisitEvent>::empty()) == s);
}

proof fn lemma_step_keeps_root(s: SelectorView, t: ParseTokenView)
    ensures
        step_spec(s, t).root == s.root,
{
    reveal(step_spec);
}

impl<'a> NodeVisitor for Selector<'a> {
    open spec fn keeps_events() -> bool {
        true
    }

    closed spec fn events(&self) -> Seq<VisitEvent> {
        self.log@
    }

    closed spec fn inv(&self) -> bool {
        self.tracks_events()
    }

    fn visit_token(&mut self, token: &ParseToken)
        ensures
            final(self)@ == step_spec(old(self)@, token@),
    {
        proof {
            lemma_step_keeps_root(self@, token@);
        }
        self.step(token);
        self.log = Ghost(self.log@.push(VisitEvent::Token(token@)));
        assert(self.log@.drop_last() =~= old(self).log@);
    }

    fn end_term(&mut self)
        ensures
            final(self)@ == old(self)@,
    {
        self.log = Ghost(self.log@.push(VisitEvent::EndTerm));
        assert(self.log@.drop_last() =~= old(self).log@);
    }
}

/// Selects from `json` the values that `path` names. A path that does not
/// compile gives its error. A path that asks for a filter, whose
/// comparisons this library does not evaluate, gives `None`.
#[verifier::spinoff_prover]
#[verifier::rlimit(40)]
pub fn select<'a>(json: &'a JsonValue, path: &str) -> (res: Option<
    Result<Vec<&'a JsonValue>, JsonPathError>,
>)
    ensures
        match compile_spec(path@) {
            Err(m) => res matches Some(Err(JsonPathError::Path(e))) && e@ == m,
            Ok(n) => match select_spec(n, *json) {
                None => res is None,
                Some(Some(cs)) => res matches Some(Ok(v)) && vals(v@) == cs,
                Some(None) => res matches Some(Err(JsonPathError::EmptyValue)),
            },
        },
{
    let node = match Parser::compile(path) {
        Ok(n) => n,
        Err(m) => return Some(Err(JsonPathError::Path(m))),
    };
    let mut s = Selector::start_from(json);
    s.visit_path(&node);
    if s.refused {
        None
    } else {
        match s.current {
            Some(c) => Some(Ok(c)),
            None => Some(Err(JsonPathError::EmptyValue)),
        }
    }
}

/// The events of a child, or none where there is no child.
pub open spec fn side_events(o: Option<Box<NodeView>>) -> Seq<VisitEvent> {
    match o {
        Some(x) => walk_events(*x),
        None => Seq::empty(),
    }
}

impl<'a> Selector<'a> {
    /// Hands the tokens of `node` to this selector in the order of
    /// `walk_events`.
    #[verifier::spinoff_prover]
    fn visit_path(&mut self, node: &Node)
        ensures
            final(self)@ == run_events(old(self)@, walk_events(node_view(*node))),
            final(self).events() == old(self).events() + walk_events(node_view(*node)),
        decreases node_view(*node), 2int,
    {
        let t = node.token();
        match t {
            ParseToken::In | ParseToken::Leaves | ParseToken::Array => self.visit_step(node),
            ParseToken::Filter(_) => self.visit_filter(node),
            ParseToken::Eof | ParseToken::ArrayEof => {
                proof {
                    assert(walk_events(node_view(*node)) =~= Seq::<VisitEvent>::empty());
                    assert(self.events() =~= old(self).events() + walk_events(node_view(*node)));
                }
            },
            _ => {
                self.visit_token(t);
                proof {
                    lemma_run_one(old(self)@, VisitEvent::Token(t@));
                    assert(walk_events(node_view(*node)) =~= seq![VisitEvent::Token(t@)]);
                }
            },
        }
    }

    #[verifier::spinoff_prover]
    fn visit_step(&mut self, node: &Node)
        requires
            node_view(*node).token is In || node_view(*node).token is Leaves
                || node_view(*node).token is Array,
        ensures
            final(self)@ == run_events(old(self)@, walk_events(node_view(*node))),
            final(self).events() == old(self).events() + walk_events(node_view(*node)),
        decreases node_view(*node), 1int,
    {
        let ghost nv = node_view(*node);
        let ghost s0 = old(self)@;
        let ghost lw = side_events(nv.left);
        let ghost rw = side_events(nv.right);
        let t = node.token();
        let ghost te = VisitEvent::Token(t@);
        self.visit_left(node);
        let ghost s1 = self@;
        self.visit_token(t);
        self.visit_right(node);
        let ghost s3 = self@;
        proof {
            lemma_run_one(s1, te);
            lemma_run_concat(s0, lw, seq![te]);
            lemma_run_concat(s0, lw + seq![te], rw);
        }
        let is_array = match t {
            ParseToken::Array => true,
            _ => false,
        };
        if is_array {
            let ghost ee = VisitEvent::Token(ParseTokenView::ArrayEof);
            self.visit_token(&ParseToken::ArrayEof);
            proof {
                lemma_run_one(s3, ee);
                lemma_run_concat(s0, lw + seq![te] + rw, seq![ee]);
                assert(walk_events(nv) =~= lw + seq![te] + rw + seq![ee]);
                assert(self.events() =~= old(self).events() + walk_events(nv));
            }
        } else {
            proof {
                assert(walk_events(nv) =~= lw + seq![te] + rw);
                assert(self.events() =~= old(self).events() + walk_events(nv));
            }
        }
    }

    #[verifier::spinoff_prover]
    fn visit_filter(&mut self, node: &Node)
        requires
            node_view(*node).token is Filter,
        ensures
            final(self)@ == run_events(old(self)@, walk_events(node_view(*node))),
            final(self).events() == old(self).events() + walk_events(node_view(*node)),
        decreases node_view(*node), 1int,
    {
        let ghost nv = node_view(*node);
        let ghost s0 = old(self)@;
        let ghost lw = side_events(nv.left);
        let ghost rw = side_events(nv.right);
        let ghost et = VisitEvent::EndTerm;
        let t = node.token();
        let ghost te = VisitEvent::Token(t@);
        let cmp = match t {
            ParseToken::Filter(FilterToken::And) | ParseToken::Filter(FilterToken::Or) => false,
            _ => true,
        };
        let ghost pre: Seq<VisitEvent> = if cmp {
            lw + seq![et]
        } else {
            lw
        };
        let ghost pre2: Seq<VisitEvent> = if cmp {
            pre + rw + seq![et]
        } else {
            pre + rw
        };
        self.visit_left(node);
        let ghost s1 = self@;
        if cmp {
            self.end_term();
            proof {
                lemma_run_one(s1, et);
                lemma_run_concat(s0, lw, seq![et]);
            }
        }
        self.visit_right(node);
        let ghost s3 = self@;
        proof {
            lemma_run_concat(s0, pre, rw);
        }
        if cmp {
            self.end_term();
            proof {
                lemma_run_one(s3, et);
                lemma_run_concat(s0, pre + rw, seq![et]);
            }
        }
        let ghost s4 = self@;
        self.visit_token(t);
        proof {
            lemma_run_one(s4, te);
            lemma_run_concat(s0, pre2, seq![te]);
            assert(walk_events(nv) =~= pre2 + seq![te]);
            assert(self.events() =~= old(self).events() + walk_events(nv));
        }
    }

    fn visit_left(&mut self, node: &Node)
        ensures
            final(self)@ == run_events(old(self)@, side_events(node_view(*node).left)),
            final(self).events() == old(self).events() + side_events(node_view(*node).left),
        decreases node_view(*node), 0int,
    {
        match node.left() {
            Some(x) => {
                assert(decreases_to!(node_view(*node) => node_view(*x)));
                self.visit_path(x);
            },
            None => {
                assert(self.events() =~= old(self).events() + Seq::<VisitEvent>::empty());
                assert(run_events(self@, Seq::<VisitEvent>::empty()) == self@);
            },
        }
    }

    fn visit_right(&mut self, node: &Node)
        ensures
            final(self)@ == run_events(old(self)@, side_events(node_view(*node).right)),
            final(self).events() == old(self).events() + side_events(node_view(*node).right),
        decreases node_view(*node), 0int,
    {
        match node.right() {
            Some(x) => {
                assert(decreases_to!(node_view(*node) => node_view(*x)));
                self.visit_path(x);
            },
            None => {
                assert(self.events() =~= old(self).events() + Seq::<VisitEvent>::empty());
                assert(run_events(self@, Seq::<VisitEvent>::empty()) == self@);
            },
        }
    }
}

/// A selection that finished a path: nothing waits and nothing was refused.
pub open spec fn settled(st: SelectorView, cs: Seq<JsonValue>) -> bool {
    &&& !st.refused
    &&& st.tokens.len() == 0
    &&& st.terms.len() == 0
    &&& st.current == Some(cs)
}

pub open spec fn leaf(t: ParseTokenView) -> NodeView {
    NodeView { token: t, left: None, right: None }
}

pub open spec fn join(t: ParseTokenView, l: NodeView, r: NodeView) -> NodeView {
    NodeView { token: t, left: Some(Box::new(l)), right: Some(Box::new(r)) }
}

/// `$` selects the value itself.
pub proof fn law_root_selects_the_value(json: JsonValue)
    ensures
        settled(run_events(start(json), walk_events(leaf(ParseTokenView::Absolute))), seq![json]),
{
    reveal(step_spec);
    let w = walk_events(leaf(ParseTokenView::Absolute));
    assert(w =~= seq![VisitEvent::Token(ParseTokenView::Absolute)]);
    lemma_run_one(start(json), VisitEvent::Token(ParseTokenView::Absolute));
    assert(run_events(start(json), w) =~= set_current(start(json), seq![json]));
}

proof fn lemma_after_step(
    json: JsonValue,
    l: NodeView,
    t: ParseTokenView,
    r: NodeView,
    st: SelectorView,
)
    requires
        st == run_events(start(json), walk_events(l)),
        r.left is None && r.right is None,
        t is In || t is Leaves,
        r.token is Key || r.token is All,
    ensures
        run_events(start(json), walk_events(join(t, l, r))) == step_spec(
            step_spec(st, t),
            r.token,
        ),
{
    let lw = walk_events(l);
    let te = VisitEvent::Token(t);
    let re = VisitEvent::Token(r.token);
    assert(walk_events(r) =~= seq![re]);
    assert(walk_events(join(t, l, r)) =~= lw + seq![te] + seq![re]);
    lemma_run_concat(start(json), lw, seq![te]);
    lemma_run_one(st, te);
    lemma_run_concat(start(json), lw + seq![te], seq![re]);
    lemma_run_one(step_spec(st, t), re);
}

/// `.key` after a path that selected `cs` selects the member `key` of each
/// object of `cs`, or `null` where there is none.
pub proof fn law_dot_key_selects_members(
    json: JsonValue,
    l: NodeView,
    cs: Seq<JsonValue>,
    key: Seq<char>,
)
    requires
        settled(run_events(start(json), walk_events(l)), cs),
    ensures
        settled(
            run_events(
                start(json),
                walk_events(join(ParseTokenView::In, l, leaf(ParseTokenView::Key(key)))),
            ),
            or_null(next_keys(cs, seq![key])),
        ),
{
    reveal(step_spec);
    let st = run_events(start(json), walk_events(l));
    lemma_after_step(json, l, ParseTokenView::In, leaf(ParseTokenView::Key(key)), st);
    assert(push_tok(st, StepToken::In).tokens.drop_last() =~= st.tokens);
}

/// `..key` after a path that selected `cs` selects the members `key` found
/// at any depth below and at each value of `cs`, in document order.
pub proof fn law_descent_key_selects_at_every_depth(
    json: JsonValue,
    l: NodeView,
    cs: Seq<JsonValue>,
    key: Seq<char>,
)
    requires
        settled(run_events(start(json), walk_events(l)), cs),
    ensures
        settled(
            run_events(
                start(json),
                walk_events(join(ParseTokenView::Leaves, l, leaf(ParseTokenView::Key(key)))),
            ),
            descend(cs, Pick::Key(key)),
        ),
{
    reveal(step_spec);
    let st = run_events(start(json), walk_events(l));
    lemma_after_step(json, l, ParseTokenView::Leaves, leaf(ParseTokenView::Key(key)), st);
    assert(push_tok(st, StepToken::Leaves).tokens.drop_last() =~= st.tokens);
}

/// `.*` after a path that selected `cs` selects every element and member
/// value of each value of `cs`.
pub proof fn law_dot_all_selects_children(json: JsonValue, l: NodeView, cs: Seq<JsonValue>)
    requires
        settled(run_events(start(json), walk_events(l)), cs),
    ensures
        settled(
            run_events(
                start(json),
                walk_events(join(ParseTokenView::In, l, leaf(ParseTokenView::All))),
            ),
            next_all(cs),
        ),
{
    reveal(step_spec);
    let st = run_events(start(json), walk_events(l));
    lemma_after_step(json, l, ParseTokenView::In, leaf(ParseTokenView::All), st);
    assert(push_tok(st, StepToken::In).tokens.drop_last() =~= st.tokens);
}

/// `[i]` after a path that selected `cs` selects the element at index `i`
/// (counted from the end when negative) of each array of `cs` and of each
/// array that an object of `cs` holds; `null` where there is none.
pub proof fn law_index_selects_elements(
    json: JsonValue,
    l: NodeView,
    cs: Seq<JsonValue>,
    text: Seq<char>,
    i: int,
)
    requires
        settled(run_events(start(json), walk_events(l)), cs),
        parse_isize(text) == Some(i),
    ensures
        settled(
            run_events(
                start(json),
                walk_events(join(ParseTokenView::Array, l, leaf(ParseTokenView::Number(text)))),
            ),
            or_null(next_num(cs, i)),
        ),
{
    reveal(step_spec);
    let st = run_events(start(json), walk_events(l));
    let lw = walk_events(l);
    let a = VisitEvent::Token(ParseTokenView::Array);
    let nu = VisitEvent::Token(ParseTokenView::Number(text));
    let e = VisitEvent::Token(ParseTokenView::ArrayEof);
    assert(walk_events(leaf(ParseTokenView::Number(text))) =~= seq![nu]);
    assert(walk_events(join(ParseTokenView::Array, l, leaf(ParseTokenView::Number(text))))
        =~= lw + seq![a] + seq![nu] + seq![e]);
    lemma_run_concat(start(json), lw, seq![a]);
    lemma_run_one(st, a);
    let s1 = push_tok(st, StepToken::Array);
    lemma_run_concat(start(json), lw + seq![a], seq![nu]);
    lemma_run_one(s1, nu);
    let s2 = push_term(s1, TermView::Num(i));
    lemma_run_concat(start(json), lw + seq![a] + seq![nu], seq![e]);
    lemma_run_one(s2, e);
    assert(pop_term(s2) =~= s1);
    assert(s1.tokens.drop_last() =~= st.tokens);
    assert(pop_term(s1) == s1);
}

impl<'a> Selector<'a> {
    /// The parsed path this selector holds, if any.
    pub closed spec fn path_view(&self) -> Option<NodeView> {
        match self.path {
            Some(n) => Some(node_view(n)),
            None => None,
        }
    }

    /// Parses `path` and holds it; a path that does not parse leaves the
    /// held one as it was and gives its error.
    pub fn str_path(&mut self, path: &str) -> (res: Result<(), JsonPathError>)
        ensures
            final(self)@ == old(self)@,
            final(self).events() == old(self).events(),
            match compile_spec(path@) {
                Ok(n) => res is Ok && final(self).path_view() == Some(n),
                Err(m) => res matches Err(JsonPathError::Path(e)) && e@ == m
                    && final(self).path_view() == old(self).path_view(),
            },
    {
        match Parser::compile(path) {
            Ok(n) => {
                self.path = Some(n);
                Ok(())
            },
            Err(m) => Err(JsonPathError::Path(m)),
        }
    }

    /// Visits the held path and gives the values selected: `None` where the
    /// path asks for a filter, which this selector does not evaluate.
    pub fn select(&mut self) -> (res: Option<Result<Vec<&'a JsonValue>, JsonPathError>>)
        ensures
            match old(self).path_view() {
                None => res matches Some(Err(JsonPathError::EmptyPath)) && final(self)@ == old(
                    self,
                )@,
                Some(n) => {
                    &&& final(self)@ == run_events(old(self)@, walk_events(n))
                    &&& final(self).events() == old(self).events() + walk_events(n)
                    &&& final(self).path_view() == old(self).path_view()
                    &&& if final(self)@.refused {
                        res is None
                    } else {
                        match final(self)@.current {
                            Some(cs) => res matches Some(Ok(v)) && vals(v@) == cs,
                            None => res matches Some(Err(JsonPathError::EmptyValue)),
                        }
                    }
                },
            },
    {
        let node = match self.path.take() {
            Some(n) => n,
            None => return Some(Err(JsonPathError::EmptyPath)),
        };
        assert(self@ == old(self)@);
        self.visit_path(&node);
        self.path = Some(node);
        if self.refused {
            None
        } else {
            match &self.current {
                Some(c) => Some(Ok(c.clone())),
                None => Some(Err(JsonPathError::EmptyValue)),
            }
        }
    }
}

/// `member` finds the first member with the name asked for, and only a name
/// that some member has.
pub proof fn law_member_is_first_named(ms: Seq<(String, JsonValue)>, k: Seq<char>)
    ensures
        member(ms, k) is Some <==> exists|i: int| 0 <= i < ms.len() && (#[trigger] ms[i]).0@ == k,
        member(ms, k) matches Some(v) ==> exists|i: int|
            0 <= i < ms.len() && (#[trigger] ms[i]).0@ == k && ms[i].1 == v && forall|j: int|
                0 <= j < i ==> (#[trigger] ms[j]).0@ != k,
    decreases ms.len(),
{
    if ms.len() > 0 {
        let rest = ms.drop_first();
        law_member_is_first_named(rest, k);
        if ms[0].0@ != k {
            if member(rest, k) is Some {
                let i = choose|i: int| 0 <= i < rest.len() && (#[trigger] rest[i]).0@ == k
                    && rest[i].1 == member(rest, k)->Some_0 && forall|j: int|
                    0 <= j < i ==> (#[trigger] rest[j]).0@ != k;
                assert(ms[i + 1] == rest[i]);
                assert forall|j: int| 0 <= j < i + 1 implies (#[trigger] ms[j]).0@ != k by {
                    if j > 0 {
                        assert(ms[j] == rest[j - 1]);
                    }
                }
            }
            if exists|i: int| 0 <= i < ms.len() && (#[trigger] ms[i]).0@ == k {
                let i = choose|i: int| 0 <= i < ms.len() && (#[trigger] ms[i]).0@ == k;
                assert(rest[i - 1] == ms[i]);
            }
        }
    }
}

/// Listing one more key appends that key's member, if there is one.
pub proof fn law_keys_of_appends(ms: Seq<(String, JsonValue)>, ks: Seq<Seq<char>>, k: Seq<char>)
    ensures
        keys_of(ms, ks.push(k)) == keys_of(ms, ks) + opt_seq(member(ms, k)),
{
    assert(ks.push(k).drop_last() =~= ks);
}

/// Where every listed key names a member, `['k1', .., 'kn']` on an object
/// gives exactly n values: the member of each key, in the order listed.
pub proof fn law_keys_of_each_member(ms: Seq<(String, JsonValue)>, ks: Seq<Seq<char>>)
    requires
        forall|i: int| 0 <= i < ks.len() ==> member(ms, #[trigger] ks[i]) is Some,
    ensures
        keys_of(ms, ks).len() == ks.len(),
        forall|i: int|
            0 <= i < ks.len() ==> keys_of(ms, ks)[i] == member(ms, #[trigger] ks[i])->Some_0,
    decreases ks.len(),
{
    if ks.len() > 0 {
        let init = ks.drop_last();
        assert forall|i: int| 0 <= i < init.len() implies member(ms, #[trigger] init[i]) is Some by {
            assert(init[i] == ks[i]);
        }
        law_keys_of_each_member(ms, init);
        assert(member(ms, ks[ks.len() - 1]) is Some);
        assert forall|i: int| 0 <= i < ks.len() implies keys_of(ms, ks)[i] == member(
            ms,
            #[trigger] ks[i],
        )->Some_0 by {
            if i < ks.len() - 1 {
                assert(init[i] == ks[i]);
            }
        }
    }
}

/// The keys listed select from a single object what `keys_of` picks.
pub proof fn law_next_keys_of_one_object(ms: Vec<(String, JsonValue)>, ks: Seq<Seq<char>>)
    ensures
        next_keys(seq![JsonValue::Object(ms)], ks) == keys_of(ms@, ks),
{
    let one = seq![JsonValue::Object(ms)];
    assert(one.drop_last() =~= Seq::<JsonValue>::empty());
    assert(next_keys(Seq::<JsonValue>::empty(), ks) == Seq::<JsonValue>::empty());
    assert(Seq::<JsonValue>::empty() + keys_of(ms@, ks) =~= keys_of(ms@, ks));
    assert(one.last() == JsonValue::Object(ms));
}

/// `['k1', .., 'kn']` after a path that selected `cs` selects, from each
/// object of `cs` in turn, the members of the listed keys in the order
/// listed; `null` where there are none.
pub proof fn law_key_list_selects_each_member(
    json: JsonValue,
    l: NodeView,
    cs: Seq<JsonValue>,
    ks: Seq<Seq<char>>,
)
    requires
        settled(run_events(start(json), walk_events(l)), cs),
    ensures
        settled(
            run_events(
                start(json),
                walk_events(join(ParseTokenView::Array, l, leaf(ParseTokenView::Keys(ks)))),
            ),
            or_null(next_keys(cs, ks)),
        ),
{
    reveal(step_spec);
    let st = run_events(start(json), walk_events(l));
    let lw = walk_events(l);
    let a = VisitEvent::Token(ParseTokenView::Array);
    let kk = VisitEvent::Token(ParseTokenView::Keys(ks));
    let e = VisitEvent::Token(ParseTokenView::ArrayEof);
    assert(walk_events(leaf(ParseTokenView::Keys(ks))) =~= seq![kk]);
    assert(walk_events(join(ParseTokenView::Array, l, leaf(ParseTokenView::Keys(ks)))) =~= lw
        + seq![a] + seq![kk] + seq![e]);
    lemma_run_concat(start(json), lw, seq![a]);
    lemma_run_one(st, a);
    let s1 = push_tok(st, StepToken::Array);
    assert(s1.tokens.drop_last() =~= st.tokens);
    lemma_run_concat(start(json), lw + seq![a], seq![kk]);
    lemma_run_one(s1, kk);
    let s2 = keys_step(st, ks);
    lemma_run_concat(start(json), lw + seq![a] + seq![kk], seq![e]);
    lemma_run_one(s2, e);
}

/// An index names the element at that position, counted from the front
/// when it is not negative and from the back when it is; past the back
/// there is nothing, and before the front the first element is taken.
pub proof fn law_index_counts_from_either_end(vs: Seq<JsonValue>, i: int)
    ensures
        0 <= i < vs.len() ==> at_index(vs, i) == seq![vs[i]],
        -vs.len() <= i < 0 ==> at_index(vs, i) == seq![vs[vs.len() + i]],
        i >= vs.len() ==> at_index(vs, i) == Seq::<JsonValue>::empty(),
        i < -vs.len() && vs.len() > 0 ==> at_index(vs, i) == seq![vs[0]],
{
}

/// A union gives one value for each index that names an element, in the
/// order of the indices.
pub proof fn law_union_follows_its_indices(vs: Seq<JsonValue>, ix: Seq<isize>)
    requires
        forall|k: int| 0 <= k < ix.len() ==> -vs.len() <= #[trigger] ix[k] < vs.len(),
    ensures
        union_at(vs, ix).len() == ix.len(),
        forall|k: int|
            0 <= k < ix.len() ==> union_at(vs, ix)[k] == vs[abs_idx(#[trigger] ix[k] as int, vs.len() as int)],
    decreases ix.len(),
{
    if ix.len() > 0 {
        let init = ix.drop_last();
        assert forall|k: int| 0 <= k < init.len() implies -vs.len() <= #[trigger] init[k] < vs.len() by {
            assert(init[k] == ix[k]);
        }
        law_union_follows_its_indices(vs, init);
        let last = ix[ix.len() - 1];
        assert(-vs.len() <= last < vs.len());
        assert forall|k: int| 0 <= k < ix.len() implies union_at(vs, ix)[k] == vs[abs_idx(
            #[trigger] ix[k] as int,
            vs.len() as int,
        )] by {
            if k < ix.len() - 1 {
                assert(init[k] == ix[k]);
            }
        }
    }
}

/// A slice with step 1 gives the elements from its start up to, not
/// including, its end.
pub proof fn law_slice_by_one_is_a_subrange(vs: Seq<JsonValue>, i: int, to: int)
    requires
        0 <= i <= to <= vs.len(),
    ensures
        range_from(vs, i, to, 1) == vs.subrange(i, to),
    decreases to - i,
{
    if i < to {
        law_slice_by_one_is_a_subrange(vs, i + 1, to);
        if i + 1 < to {
            assert(vs.subrange(i, to) =~= seq![vs[i]] + vs.subrange(i + 1, to));
        } else {
            assert(vs.subrange(i, to) =~= seq![vs[i]]);
            assert(seq![vs[i]] + Seq::<JsonValue>::empty() =~= seq![vs[i]]);
        }
    } else {
        assert(vs.subrange(i, to) =~= Seq::<JsonValue>::empty());
    }
}

/// Each step of a slice moves on by its step: the first value is the one
/// at the start, and the rest is the slice from the start plus the step.
pub proof fn law_slice_steps(vs: Seq<JsonValue>, i: int, to: int, step: int)
    requires
        0 <= i < to <= vs.len(),
        step > 0,
    ensures
        range_from(vs, i, to, step) == seq![vs[i]] + range_from(vs, i + step, to, step),
{
    if i + step >= to {
        assert(range_from(vs, i + step, to, step) == Seq::<JsonValue>::empty());
    }
}

/// `*` on values one after another gives their children one after another.
pub proof fn law_all_children_concatenate(a: Seq<JsonValue>, b: Seq<JsonValue>)
    ensures
        next_all(a + b) == next_all(a) + next_all(b),
    decreases b.len(),
{
    if b.len() == 0 {
        assert(a + b =~= a);
        assert(next_all(a) + Seq::<JsonValue>::empty() =~= next_all(a));
    } else {
        law_all_children_concatenate(a, b.drop_last());
        assert((a + b).drop_last() =~= a + b.drop_last());
        assert((a + b).last() == b.last());
    }
}

/// The children of an array are its elements; those of an object are the
/// values of its members, in order.
pub proof fn law_children_in_order(v: JsonValue)
    ensures
        v matches JsonValue::Array(vs) ==> children(v) == vs@,
        v matches JsonValue::Object(ms) ==> children(v).len() == ms@.len() && forall|i: int|
            0 <= i < ms@.len() ==> #[trigger] children(v)[i] == ms@[i].1,
        !(v is Array || v is Object) ==> children(v) == Seq::<JsonValue>::empty(),
{
}

/// A descent gives what it picks at a value before anything it picks below
/// it.
pub proof fn law_walk_picks_here_first(v: JsonValue, p: Pick)
    ensures
        walk(v, p).len() >= picked(v, p).len(),
        walk(v, p).take(picked(v, p).len() as int) == picked(v, p),
{
    let w = walk(v, p);
    assert(w.take(picked(v, p).len() as int) =~= picked(v, p));
}

/// A key picks the first member of that name of an object, and nothing of
/// other values.
pub proof fn law_key_picks_the_member(v: JsonValue, k: Seq<char>)
    ensures
        v matches JsonValue::Object(ms) ==> picked(v, Pick::Key(k)) == opt_seq(member(ms@, k)),
        !(v is Object) ==> picked(v, Pick::Key(k)) == Seq::<JsonValue>::empty(),
{
}

} // verus!
