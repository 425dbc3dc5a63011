use vstd::prelude::*;

verus! {

/// A span of a path string: its byte offset and its length in bytes.
#[derive(Debug, PartialEq, Eq, Clone, Copy)]
pub struct StrRange {
    pub pos: usize,
    pub offset: usize,
}

impl StrRange {
    pub fn new(pos: usize, offset: usize) -> (r: Self)
        ensures
            r.pos == pos,
            r.offset == offset,
    {
        StrRange { pos, offset }
    }
}

} // verus!
