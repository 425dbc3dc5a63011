use vstd::prelude::*;

use crate::parser::path_reader::{
    char_utf8_len, char_width, lemma_str_width_concat, lemma_str_width_split,
    lemma_str_width_take_next, str_byte_len, str_width,
};

verus! {

#[derive(Debug, Clone, Copy, PartialEq, Eq)]
pub enum Error {
    Eof,
    Position(usize),
}

/// A cursor over a path string that also knows the byte length of the
/// whole string.
pub struct PathReader<'a> {
    input: &'a str,
    pos: usize,
    len: usize,
}

/// The length of the longest prefix of `s` that `fun` accepts character by
/// character, as far as the calls of `fun` show it.
pub open spec fn accepted_prefix<F: Fn(&char) -> bool>(fun: F, s: Seq<char>, n: nat) -> bool {
    &&& n <= s.len()
    &&& forall|i: int| 0 <= i < n ==> call_ensures(fun, (&s[i],), true)
    &&& n < s.len() ==> call_ensures(fun, (&s[n as int],), false)
}

/// A reader as a mathematical value: what is left, the offset it reports,
/// and the byte length of the whole string.
pub struct ReadState {
    pub rest: Seq<char>,
    pub pos: nat,
    pub len: nat,
}

/// What `take_while` gives back and leaves when the accepted prefix has
/// `n` characters.
pub open spec fn take_outcome(st: ReadState, n: nat) -> (Result<(nat, Seq<char>), Error>, ReadState) {
    let taken = st.rest.take(n as int);
    let pos = st.pos + str_width(taken);
    if n == 0 {
        (Ok((st.pos, Seq::<char>::empty())), st)
    } else if st.len <= pos {
        (Err(Error::Position(st.len as usize)), ReadState { rest: st.rest, pos, len: st.len })
    } else {
        (Ok((pos, taken)), ReadState { rest: st.rest.skip(n as int), pos, len: st.len })
    }
}

/// What `next_char` gives back and leaves.
pub open spec fn next_outcome(st: ReadState) -> (Result<(nat, char), Error>, ReadState) {
    if st.rest.len() == 0 {
        (Err(Error::Eof), st)
    } else {
        (
            Ok((st.pos, st.rest[0])),
            ReadState { rest: st.rest.drop_first(), pos: st.pos + char_width(st.rest[0]), len: st.len },
        )
    }
}

pub open spec fn take_view(r: Result<(usize, Vec<char>), Error>) -> Result<(nat, Seq<char>), Error> {
    match r {
        Ok((p, v)) => Ok((p as nat, v@)),
        Err(e) => Err(e),
    }
}

pub open spec fn char_view(r: Result<(usize, char), Error>) -> Result<(nat, char), Error> {
    match r {
        Ok((p, c)) => Ok((p as nat, c)),
        Err(e) => Err(e),
    }
}

impl<'a> PathReader<'a> {
    /// What is left to read.
    pub closed spec fn rest(&self) -> Seq<char> {
        self.input@
    }

    /// The byte offset that the reader reports.
    pub closed spec fn offset(&self) -> nat {
        self.pos as nat
    }

    /// The byte length of the whole string.
    pub closed spec fn total(&self) -> nat {
        self.len as nat
    }

    pub open spec fn state(&self) -> ReadState {
        ReadState { rest: self.rest(), pos: self.offset(), len: self.total() }
    }

    /// The offset plus the width of what is left is the whole length.
    pub open spec fn wf(&self) -> bool {
        self.offset() + str_width(self.rest()) == self.total()
    }

    /// Reading all that is left cannot move the offset past `usize::MAX`.
    pub open spec fn fits(&self) -> bool {
        self.offset() + str_width(self.rest()) <= usize::MAX
    }

    pub proof fn lemma_wf_fits(&self)
        requires
            self.wf(),
        ensures
            self.fits(),
    {
    }

    pub fn new(input: &'a str) -> (reader: Self)
        ensures
            reader.rest() == input@,
            reader.offset() == 0,
            reader.total() == str_width(input@),
            reader.wf(),
    {
        let len = str_byte_len(input);
        PathReader { input, pos: 0, len }
    }

    /// The next character and its offset, without moving.
    pub fn peek_char(&mut self) -> (res: Result<(usize, char), Error>)
        ensures
            *final(self) == *old(self),
            old(self).rest().len() == 0 ==> res == Err::<(usize, char), Error>(Error::Eof),
            old(self).rest().len() > 0 ==> res == Ok::<(usize, char), Error>(
                (old(self).offset() as usize, old(self).rest()[0]),
            ),
    {
        if self.input.unicode_len() == 0 {
            return Err(Error::Eof);
        }
        let ch = self.input.get_char(0);
        Ok((self.pos, ch))
    }

    /// The character after the next one, with the offset plus one; at the
    /// end, the offset as an error.
    pub fn look_next_char(&self) -> (res: Result<(usize, char), Error>)
        requires
            self.fits(),
        ensures
            self.rest().len() < 2 ==> res == Err::<(usize, char), Error>(
                Error::Position(self.offset() as usize),
            ),
            self.rest().len() >= 2 ==> res == Ok::<(usize, char), Error>(
                ((self.offset() + 1) as usize, self.rest()[1]),
            ),
    {
        let n = self.input.unicode_len();
        if n < 2 {
            return Err(Error::Position(self.pos));
        }
        let ch = self.input.get_char(1);
        proof {
            let s = self.input@;
            lemma_str_width_split(s, 1);
            lemma_str_width_split(s.skip(1), 1);
            assert(s.take(1) =~= seq![s[0]]);
            assert(s.skip(1).take(1) =~= seq![s[1]]);
            assert(seq![s[0]].drop_first() =~= Seq::<char>::empty());
            assert(seq![s[1]].drop_first() =~= Seq::<char>::empty());
            assert(str_width(seq![s[0]]) >= 1);
            assert(str_width(seq![s[1]]) >= 1);
        }
        Ok((self.pos + 1, ch))
    }

    /// Reads the longest prefix that `fun` accepts and moves the offset
    /// past it. When that prefix is not empty and reaches the end of the
    /// string, the error is the string's length, and the offset has moved
    /// while what is left stays as it was.
    pub fn take_while<F>(&mut self, fun: F) -> (res: Result<(usize, Vec<char>), Error>) where
        F: Fn(&char) -> bool,
        requires
            old(self).fits(),
            forall|c: char| call_requires(fun, (&c,)),
        ensures
            exists|n: nat|
                #[trigger] accepted_prefix(fun, old(self).rest(), n) && (take_view(res), final(self).state())
                    == take_outcome(old(self).state(), n),
            res is Ok ==> final(self).fits(),
            old(self).wf() && res is Ok ==> final(self).wf(),
    {
        let len = self.input.unicode_len();
        let mut vec: Vec<char> = Vec::new();
        let mut n: usize = 0;
        let mut width: usize = 0;
        while n < len
            invariant
                len == self.input@.len(),
                n <= len,
                vec@ == self.input@.take(n as int),
                self.fits(),
                width == str_width(self.input@.take(n as int)),
                forall|c: char| call_requires(fun, (&c,)),
                forall|i: int| 0 <= i < n ==> call_ensures(fun, (&self.input@[i],), true),
            ensures
                n <= len,
                vec@ == self.input@.take(n as int),
                width == str_width(self.input@.take(n as int)),
                forall|i: int| 0 <= i < n ==> call_ensures(fun, (&self.input@[i],), true),
                n < len ==> call_ensures(fun, (&self.input@[n as int],), false),
            decreases len - n,
        {
            let c = self.input.get_char(n);
            let b = fun(&c);
            if !b {
                break;
            }
            proof {
                lemma_str_width_take_next(self.input@, n as int);
                lemma_str_width_split(self.input@, n as int + 1);
            }
            width = width + char_utf8_len(c);
            vec.push(c);
            n = n + 1;
            assert(vec@ =~= self.input@.take(n as int));
        }
        proof {
            lemma_str_width_split(self.input@, n as int);
            assert(accepted_prefix(fun, self.input@, n as nat));
        }
        let ghost st0 = self.state();
        self.pos = self.pos + width;
        let res = if n == 0 {
            assert(vec@ =~= Seq::<char>::empty());
            Ok((self.pos, vec))
        } else if self.len <= self.pos {
            Err(Error::Position(self.len))
        } else {
            let rest = self.input.substring_char(n, len);
            assert(self.input@.subrange(n as int, len as int) =~= self.input@.skip(n as int));
            self.input = rest;
            Ok((self.pos, vec))
        };
        assert((take_view(res), self.state()) == take_outcome(st0, n as nat));
        res
    }

    /// Reads one character. Returns its offset and the character.
    pub fn next_char(&mut self) -> (res: Result<(usize, char), Error>)
        requires
            old(self).fits(),
        ensures
            final(self).fits(),
            (char_view(res), final(self).state()) == next_outcome(old(self).state()),
            old(self).wf() ==> final(self).wf(),
    {
        let (_, ch) = self.peek_char()?;
        let len = self.input.unicode_len();
        let rest = self.input.substring_char(1, len);
        proof {
            let s = self.input@;
            assert(s.subrange(1, len as int) =~= s.drop_first());
            assert(s =~= seq![ch] + s.drop_first());
            lemma_str_width_concat(seq![ch], s.drop_first());
            assert(seq![ch].drop_first() =~= Seq::<char>::empty());
        }
        self.input = rest;
        let ret = Ok((self.pos, ch));
        self.pos = self.pos + char_utf8_len(ch);
        ret
    }
}

} // verus!
