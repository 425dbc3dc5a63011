use vstd::prelude::*;

verus! {

/// A selector that can delete what it selected.
pub trait Modifiable {
    fn delete(&mut self) -> Result<&mut Self, String>;
}

} // verus!
