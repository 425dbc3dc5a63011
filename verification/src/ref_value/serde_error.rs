use vstd::prelude::*;

verus! {

/// An error of reading or writing a value, with its message.
#[derive(Debug)]
pub struct SerdeError {
    msg: String,
}

impl SerdeError {
    /// The message of the error.
    pub closed spec fn message(&self) -> Seq<char> {
        self.msg@
    }

    pub fn new(msg: String) -> (e: Self)
        ensures
            e.message() == msg@,
    {
        SerdeError { msg: msg }
    }

    pub fn from_str(msg: &str) -> (e: Self)
        ensures
            e.message() == msg@,
    {
        SerdeError { msg: String::from_str(msg) }
    }

    /// The text of the error: its message.
    pub fn to_string(&self) -> (s: String)
        ensures
            s@ == self.message(),
    {
        self.msg.clone()
    }
}

} // verus!
