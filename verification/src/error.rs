//! The error type shared by the fallible operations of the library.

use vstd::prelude::*;

verus! {

/// An error, carrying a message meant for a human reader.
#[derive(Debug)]
pub struct Error {
    pub content: String,
}

impl Error {
    /// Builds an error from its message.
    pub fn new(s: &str) -> (e: Error)
        ensures
            e.content@ == s@,
    {
        Error { content: s.to_owned() }
    }

    /// The message of the error.
    pub fn description(&self) -> (s: &str)
        ensures
            s@ == self.content@,
    {
        self.content.as_str()
    }
}

} // verus!
