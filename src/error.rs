use vstd::prelude::*;

verus! {

/// A failure of one stage of the pipeline, with the line it concerns.
#[derive(Debug, Clone, Copy, PartialEq, Eq)]
pub enum Error {
    /// Raised by scanning or parsing.
    Syntax { line: usize, message: &'static str },
    /// Raised by evaluation.
    TypeError { line: usize, message: &'static str },
}

impl Error {
    pub fn new(line: usize, message: &'static str) -> (r: Self)
        ensures
            r == (Error::Syntax { line, message }),
    {
        Error::Syntax { line, message }
    }
}



} // verus!
