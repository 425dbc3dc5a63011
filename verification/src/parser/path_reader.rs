use vstd::prelude::*;

verus! {

/// Number of bytes that `c` takes in UTF-8.
pub open spec fn char_width(c: char) -> nat {
    let u = c as u32;
    if u < 0x80 {
        1
    } else if u < 0x800 {
        2
    } else if u < 0x10000 {
        3
    } else {
        4
    }
}

/// Number of bytes that the characters `s` take in UTF-8.
pub open spec fn str_width(s: Seq<char>) -> nat
    decreases s.len(),
{
    if s.len() == 0 {
        0
    } else {
        char_width(s[0]) + str_width(s.drop_first())
    }
}

/// The width of a concatenation is the sum of the widths.
pub proof fn lemma_str_width_concat(a: Seq<char>, b: Seq<char>)
    ensures
        str_width(a + b) == str_width(a) + str_width(b),
    decreases a.len(),
{
    if a.len() == 0 {
        assert(a + b =~= b);
    } else {
        assert((a + b).drop_first() =~= a.drop_first() + b);
        lemma_str_width_concat(a.drop_first(), b);
    }
}

/// Splitting a sequence at `k` splits its width.
pub proof fn lemma_str_width_split(s: Seq<char>, k: int)
    requires
        0 <= k <= s.len(),
    ensures
        str_width(s) == str_width(s.take(k)) + str_width(s.skip(k)),
{
    assert(s =~= s.take(k) + s.skip(k));
    lemma_str_width_concat(s.take(k), s.skip(k));
}

/// Taking one more character adds its width.
pub proof fn lemma_str_width_take_next(s: Seq<char>, k: int)
    requires
        0 <= k < s.len(),
    ensures
        str_width(s.take(k + 1)) == str_width(s.take(k)) + char_width(s[k]),
{
    assert(s.take(k + 1) =~= s.take(k) + seq![s[k]]);
    lemma_str_width_concat(s.take(k), seq![s[k]]);
    assert(seq![s[k]].drop_first() =~= Seq::<char>::empty());
    assert(str_width(seq![s[k]]) == char_width(s[k]) + str_width(Seq::<char>::empty()));
}

/// `char::len_utf8`: the number of bytes of `c` in UTF-8.
pub fn char_utf8_len(c: char) -> (n: usize)
    ensures
        n == char_width(c),
{
    let u = c as u32;
    if u < 0x80 {
        1
    } else if u < 0x800 {
        2
    } else if u < 0x10000 {
        3
    } else {
        4
    }
}

/// The UTF-8 encoding of `s` takes `str_width(s)` bytes.
pub proof fn lemma_encode_utf8_len(s: Seq<char>)
    ensures
        vstd::utf8::encode_utf8(s).len() == str_width(s),
    decreases s.len(),
{
    if s.len() > 0 {
        vstd::utf8::char_is_scalar(s[0]);
        lemma_encode_utf8_len(s.drop_first());
    }
}

/// The length of `s` in bytes, which is the sum of the UTF-8 widths of its
/// characters.
pub(crate) fn str_byte_len(s: &str) -> (n: usize)
    ensures
        n == str_width(s@),
{
    proof {
        lemma_encode_utf8_len(s@);
    }
    let bytes = s.as_bytes();
    proof {
        broadcast use vstd::slice::axiom_spec_len;
    }
    bytes.len()
}

#[derive(Debug, PartialEq, Eq, Clone, Copy)]
pub enum ReaderError {
    Eof,
}

/// A cursor over a path string. `input` is what is left to read and `pos`
/// the byte offset of its first character in the whole string.
pub struct PathReader<'a> {
    pub input: &'a str,
    pub pos: usize,
}

impl<'a> PathReader<'a> {
    /// The byte offset of the end of the input fits in a `usize`.
    pub open spec fn wf(&self) -> bool {
        self.pos + str_width(self.input@) <= usize::MAX
    }

    pub fn new(input: &'a str) -> (reader: Self)
        ensures
            reader.input@ == input@,
            reader.pos == 0,
            reader.wf(),
    {
        let _ = str_byte_len(input);
        PathReader { input, pos: 0 }
    }

    /// The next character and the offset just past it, without moving.
    pub fn peek_char(&self) -> (res: Result<(usize, char), ReaderError>)
        requires
            self.wf(),
        ensures
            self.input@.len() == 0 ==> res == Err::<(usize, char), ReaderError>(ReaderError::Eof),
            self.input@.len() > 0 ==> res == Ok::<(usize, char), ReaderError>(
                ((self.pos + char_width(self.input@[0])) as usize, self.input@[0]),
            ),
    {
        let len = self.input.unicode_len();
        if len == 0 {
            return Err(ReaderError::Eof);
        }
        let ch = self.input.get_char(0);
        proof {
            assert(self.input@ =~= seq![ch] + self.input@.drop_first());
            lemma_str_width_concat(seq![ch], self.input@.drop_first());
        }
        Ok((self.pos + char_utf8_len(ch), ch))
    }

    /// Reads the longest prefix whose characters all satisfy `fun`. Returns
    /// the offset after it and the prefix.
    pub fn take_while<F>(&mut self, fun: F) -> (res: Result<(usize, String), ReaderError>) where
        F: Fn(&char) -> bool,
        requires
            old(self).wf(),
            forall|c: char| call_requires(fun, (&c,)),
        ensures
            final(self).wf(),
            res is Ok,
            ({
                let (p, s) = res->Ok_0;
                let n = s@.len();
                &&& n <= old(self).input@.len()
                &&& s@ == old(self).input@.take(n as int)
                &&& final(self).input@ == old(self).input@.skip(n as int)
                &&& final(self).pos == old(self).pos + str_width(s@)
                &&& p == final(self).pos
                &&& forall|i: int| 0 <= i < n ==> call_ensures(fun, (&old(self).input@[i],), true)
                &&& n < old(self).input@.len() ==> call_ensures(
                    fun,
                    (&old(self).input@[n as int],),
                    false,
                )
            }),
    {
        let len = self.input.unicode_len();
        let mut n: usize = 0;
        let mut width: usize = 0;
        while n < len
            invariant
                len == self.input@.len(),
                n <= len,
                self.wf(),
                width == str_width(self.input@.take(n as int)),
                forall|c: char| call_requires(fun, (&c,)),
                forall|i: int| 0 <= i < n ==> call_ensures(fun, (&self.input@[i],), true),
            ensures
                n <= len,
                width == str_width(self.input@.take(n as int)),
                forall|i: int| 0 <= i < n ==> call_ensures(fun, (&self.input@[i],), true),
                n < len ==> call_ensures(fun, (&self.input@[n as int],), false),
            decreases len - n,
        {
            let c = self.input.get_char(n);
            let b = fun(&c);
            if !b {
                break;
            }
            proof {
                lemma_str_width_take_next(self.input@, n as int);
                lemma_str_width_split(self.input@, n as int + 1);
            }
            width = width + char_utf8_len(c);
            n = n + 1;
        }
        let taken = self.input.substring_char(0, n);
        let rest = self.input.substring_char(n, len);
        proof {
            assert(self.input@.subrange(0, n as int) =~= self.input@.take(n as int));
            assert(self.input@.subrange(n as int, len as int) =~= self.input@.skip(n as int));
            lemma_str_width_split(self.input@, n as int);
        }
        let ret = String::from_str(taken);
        self.pos = self.pos + width;
        self.input = rest;
        Ok((self.pos, ret))
    }

    /// Reads one character. Returns its offset and the character.
    pub fn next_char(&mut self) -> (res: Result<(usize, char), ReaderError>)
        requires
            old(self).wf(),
        ensures
            final(self).wf(),
            old(self).input@.len() == 0 ==> res == Err::<(usize, char), ReaderError>(
                ReaderError::Eof,
            ) && *final(self) == *old(self),
            old(self).input@.len() > 0 ==> {
                &&& res == Ok::<(usize, char), ReaderError>((old(self).pos, old(self).input@[0]))
                &&& final(self).input@ == old(self).input@.drop_first()
                &&& final(self).pos == old(self).pos + char_width(old(self).input@[0])
            },
    {
        let (_, ch) = self.peek_char()?;
        let len = self.input.unicode_len();
        let rest = self.input.substring_char(1, len);
        proof {
            assert(self.input@.subrange(1, len as int) =~= self.input@.drop_first());
        }
        let ret = Ok((self.pos, ch));
        self.pos = self.pos + char_utf8_len(ch);
        self.input = rest;
        ret
    }

    pub fn current_pos(&self) -> (pos: usize)
        ensures
            pos == self.pos,
    {
        self.pos
    }
}

} // verus!
