use vstd::prelude::*;

verus! {

/// Malformed input: the byte offset at which the scan could not proceed.
#[derive(Debug, Clone, Copy, PartialEq, Eq, Structural)]
pub struct JsonError {
    pub offset: usize,
}

impl JsonError {
    pub fn new(offset: usize) -> (r: JsonError)
        ensures
            r.offset == offset,
    {
        JsonError { offset }
    }

    pub fn offset(&self) -> (r: usize)
        ensures
            r == self.offset,
    {
        self.offset
    }
}

} // verus!
