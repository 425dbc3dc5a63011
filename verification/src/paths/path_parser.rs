use vstd::prelude::*;

use super::tokens::ParseToken;

verus! {

/// A node of a parsed path: a token and the paths or operands it joins.
#[derive(Debug)]
pub struct ParserNode {
    pub left: Option<Box<ParserNode>>,
    pub right: Option<Box<ParserNode>>,
    pub token: ParseToken,
}

} // verus!
