//! The crate-wide error type: a plain message string.
use vstd::prelude::*;

verus! {

/// An error carrying a human-readable message.
#[derive(Debug)]
pub struct StrError(pub String);

impl StrError {
    /// Wraps a static message.
    pub fn new(msg: &str) -> (r: StrError)
        ensures
            r.0@ == msg@,
    {
        StrError(msg.to_owned())
    }

    /// The message carried by this error.
    pub fn message(&self) -> (r: &str)
        ensures
            r@ == self.0@,
    {
        self.0.as_str()
    }
}

} // verus!
