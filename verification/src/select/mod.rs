pub mod json_value;
pub mod selector;
pub mod modifiable;
pub mod select_value;

use vstd::prelude::*;

verus! {

/// The errors of selecting with a path.
#[derive(Debug, PartialEq)]
pub enum JsonPathError {
    EmptyPath,
    EmptyValue,
    Path(String),
    Serde(String),
}

/// The text of an error, as it is displayed.
pub open spec fn error_text(e: &JsonPathError) -> Seq<char> {
    match e {
        JsonPathError::EmptyPath => "path not set"@,
        JsonPathError::EmptyValue => "json value not set"@,
        JsonPathError::Path(m) => "path error: \n"@ + m@ + "\n"@,
        JsonPathError::Serde(m) => "serde error: \n"@ + m@ + "\n"@,
    }
}

impl JsonPathError {
    /// The text of the error.
    pub fn to_string(&self) -> (s: String)
        ensures
            s@ == error_text(self),
    {
        match self {
            JsonPathError::EmptyPath => String::from_str("path not set"),
            JsonPathError::EmptyValue => String::from_str("json value not set"),
            JsonPathError::Path(m) => {
                let mut s = String::from_str("path error: \n");
                s.append(m.as_str());
                s.append("\n");
                s
            },
            JsonPathError::Serde(m) => {
                let mut s = String::from_str("serde error: \n");
                s.append(m.as_str());
                s.append("\n");
                s
            },
        }
    }
}

/// What a filter step selects by: a key, or all members.
#[derive(Debug, PartialEq)]
pub enum FilterKey {
    String(String),
    All,
}

} // verus!
