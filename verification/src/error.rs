//! The error type returned by fallible operations of the library.

use vstd::prelude::*;

verus! {

/// The category of a failure.
#[derive(Debug, Clone, Copy, PartialEq, Eq, Structural)]
pub enum FailedError {
    /// The parameters (or the shape of the input) are not acceptable.
    ParametersError,
}

/// An error: its category and a human-readable message.
#[derive(Debug)]
pub struct Failed {
    pub err: FailedError,
    pub msg: String,
}

impl Failed {
    /// Builds an error of category `err` carrying the message `msg`.
    pub fn because(err: FailedError, msg: &str) -> (r: Failed)
        ensures
            r.err == err,
            r.msg@ == msg@,
    {
        Failed { err, msg: msg.to_owned() }
    }

    /// The category of this error.
    pub fn error(&self) -> (r: FailedError)
        ensures
            r == self.err,
    {
        self.err
    }
}

} // verus!
