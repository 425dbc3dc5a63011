use vstd::prelude::*;

verus! {

/// The kinds of JSON values.
#[derive(Copy, Clone, Debug, Eq, PartialEq)]
pub enum SelectValueType {
    Null,
    Bool,
    Long,
    Double,
    String,
    Array,
    Object,
}

} // verus!
