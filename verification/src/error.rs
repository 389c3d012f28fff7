use vstd::prelude::*;

verus! {

/// The kinds of error the interpreter can report. A tagged variant rather
/// than a single fixed case, so that further kinds can be added without
/// breaking callers; today only bracket validation can fail.
#[derive(Clone, Copy, Debug, PartialEq, Eq, Structural)]
pub enum BfErrorType {
    UnmatchedBrackets,
}

/// An interpreter error: an error kind together with the character offset in
/// the program at which the problem was detected.
#[derive(Clone, Copy, Debug, PartialEq, Eq, Structural)]
pub struct BfError {
    pub location: usize,
    pub error_type: BfErrorType,
}

impl BfError {
    pub fn new(location: usize, error_type: BfErrorType) -> (r: BfError)
        ensures
            r.location == location,
            r.error_type == error_type,
    {
        BfError { location, error_type }
    }
}

} // verus!
