use vstd::prelude::*;

use super::str_reader::StrRange;
use super::tokens::ParseToken;

verus! {

/// Receives the tokens of a parsed path, with a reader that gives the text
/// of a span of the path.
pub trait ParserTokenHandler<'a> {
    /// Whether handlers of this type keep the record `handled` of the
    /// tokens they are handed. One that keeps none leaves this `false`, and
    /// the contract of `handle` then states nothing of it.
    open spec fn keeps_record() -> bool {
        false
    }

    /// The tokens handed to this handler so far, in order, where
    /// `keeps_record` holds.
    open spec fn handled(&self) -> Seq<ParseToken> {
        Seq::empty()
    }

    fn handle<F>(&mut self, token: &ParseToken, parse_value_reader: &F) where
        F: Fn(&StrRange) -> &'a str,

        ensures
            Self::keeps_record() ==> final(self).handled() == old(self).handled().push(*token),
    ;
}

} // verus!
