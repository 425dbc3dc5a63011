use vstd::prelude::*;

use crate::parser::tokenizer::push_char;

verus! {

/// The index into a sequence of length `len` that `n` stands for: from
/// the end when negative, and clamped to `0..=len`.
pub open spec fn abs_index_spec(n: int, len: int) -> int {
    if n < 0 {
        if n + len < 0 {
            0
        } else {
            n + len
        }
    } else if n < len {
        n
    } else {
        len
    }
}

/// `len` is the length of a collection in memory, which never exceeds
/// `isize::MAX`.
pub fn abs_index(n: isize, len: usize) -> (r: usize)
    requires
        len <= isize::MAX,
    ensures
        r == abs_index_spec(n as int, len as int),
{
    let l = len as isize;
    if n < 0 {
        let m = n + l;
        if m < 0 {
            0
        } else {
            m as usize
        }
    } else if n < l {
        n as usize
    } else {
        l as usize
    }
}

pub open spec fn not_backslash() -> spec_fn(char) -> bool {
    |c: char| c != '\\'
}

/// Whether `key` starts with a quote.
pub open spec fn is_quoted(key: Seq<char>) -> bool {
    key.len() > 0 && (key[0] == '\'' || key[0] == '"')
}

/// A quoted key is cut at the byte offsets `1` and `len - 1`: it has a
/// character after the quote, and its last character takes one byte.
pub open spec fn cuttable(key: Seq<char>) -> bool {
    is_quoted(key) ==> key.len() >= 2 && (key.last() as u32) < 0x80
}

/// Splits the quotes off a quoted key: the text between them and, where
/// the key holds a backslash, that text without its backslashes. Any other
/// key is returned as it is.
pub fn to_path_str<'a>(key: &'a str) -> (r: (&'a str, Option<String>))
    requires
        cuttable(key@),
    ensures
        !is_quoted(key@) ==> r.0@ == key@ && r.1 is None,
        is_quoted(key@) ==> {
            let s = key@.subrange(1, key@.len() - 1);
            &&& r.0@ == s
            &&& key@.contains('\\') ==> (r.1 matches Some(t) && t@ == s.filter(not_backslash()))
            &&& !key@.contains('\\') ==> r.1 is None
        },
{
    let n = key.unicode_len();
    if n == 0 {
        return (key, None);
    }
    let first = key.get_char(0);
    if first != '\'' && first != '"' {
        return (key, None);
    }
    let s = key.substring_char(1, n - 1);
    let mut has_backslash = false;
    let mut i: usize = 0;
    while i < n
        invariant
            n == key@.len(),
            i <= n,
            has_backslash == (exists|j: int| 0 <= j < i && key@[j] == '\\'),
        decreases n - i,
    {
        if key.get_char(i) == '\\' {
            has_backslash = true;
        }
        i = i + 1;
    }
    if !has_backslash {
        return (s, None);
    }
    let m = s.unicode_len();
    let mut t = String::new();
    let mut k: usize = 0;
    while k < m
        invariant
            m == s@.len(),
            k <= m,
            t@ == s@.take(k as int).filter(not_backslash()),
        decreases m - k,
    {
        let c = s.get_char(k);
        proof {
            reveal(Seq::filter);
            assert(s@.take(k + 1).drop_last() =~= s@.take(k as int));
            assert(s@.take(k + 1).last() == c);
        }
        if c != '\\' {
            push_char(&mut t, c);
        }
        k = k + 1;
    }
    assert(s@.take(m as int) =~= s@);
    (s, Some(t))
}

} // verus!
