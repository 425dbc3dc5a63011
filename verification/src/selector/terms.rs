use vstd::prelude::*;

verus! {

/// What a filter step selects by: a key, or all members.
#[derive(Debug, PartialEq)]
pub enum FilterKey<'a> {
    String(&'a str),
    All,
}

} // verus!
