use vstd::prelude::*;

verus! {

#[derive(Debug, Clone, Copy, PartialEq, Eq)]
pub enum TokenError {
    Eof,
    Position(usize),
    Unknown,
}

} // verus!
