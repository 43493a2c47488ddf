//! The structured error returned when a map file cannot be parsed.

use vstd::prelude::*;

verus! {

/// Names the construct that could not be parsed, such as `"hex value"`,
/// `"phase"` or `"sector state"`.
#[derive(Debug)]
pub struct ParseError {
    target: String,
}

impl ParseError {
    /// The view of a `ParseError` is the name of the offending construct.
    pub closed spec fn view(self) -> Seq<char> {
        self.target@
    }

    pub fn new(target: &str) -> (e: ParseError)
        ensures
            e@ == target@,
    {
        ParseError { target: String::from_str(target) }
    }

    /// The name of the construct that failed to parse.
    pub fn target(&self) -> (t: &String)
        ensures
            t@ == self@,
    {
        &self.target
    }
}

} // verus!
