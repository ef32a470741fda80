//! The errors of the wire protocol.
use vstd::prelude::*;

verus! {

/// What can go wrong when a message is read.
#[derive(Debug, Clone, Copy, PartialEq, Eq, Structural)]
pub enum Error {
    /// The bytes are not a message.
    MalformedBinary,
}

/// The result of reading a message.
pub type Result<T> = std::result::Result<T, Error>;

impl Error {
    /// The text that describes the error.
    pub fn message(&self) -> (text: &'static str)
        ensures
            text@ == "Failed to parse the format of binary data."@,
    {
        "Failed to parse the format of binary data."
    }
}

} // verus!
