//! The errors of the storage engines.
use vstd::prelude::*;
use vstd::string::StringExecFns;

verus! {

/// What can go wrong in an engine.
#[derive(Debug, Clone, PartialEq, Eq)]
pub enum KvError {
    /// A data file or the engine marker could not be created or opened;
    /// `reason` is what the system said.
    FailToOpenFile { file_name: String, reason: String },
    /// Reading, writing or flushing failed; `reason` is what the system said.
    OtherIOException { reason: String },
    /// A data file holds a line that is no record.
    FailToParseFile { reason: String },
    /// The key to remove is not in the store.
    KeyNotFound,
    /// Anything else.
    Other { reason: String },
    /// The directory belongs to an engine of another kind.
    IllegalWorkingDirectory,
    /// A lock was poisoned by a thread that panicked while holding it.
    ConcurrentError,
}

/// The result of an engine operation.
pub type Result<T> = std::result::Result<T, KvError>;

impl KvError {
    /// Whether the error is `Other` with the reason `reason`.
    pub open spec fn is_other(self, reason: Seq<char>) -> bool {
        self matches KvError::Other { reason: held } && held@ == reason
    }

    /// The text that describes the error.
    pub open spec fn message_spec(self) -> Seq<char> {
        match self {
            KvError::FailToOpenFile { file_name, reason } => "Failed to open file "@ + file_name@
                + " because error ["@ + reason@ + "]."@,
            KvError::OtherIOException { reason } =>
                "Failed because some unexpected IO exception ["@ + reason@ + "]."@,
            KvError::FailToParseFile { reason } => "Failed to parse file because error ["@
                + reason@ + "]"@,
            KvError::KeyNotFound => "Key not found"@,
            KvError::Other { reason } => "other exception: "@ + reason@,
            KvError::IllegalWorkingDirectory =>
                "illegal working directory: another instance is working here."@,
            KvError::ConcurrentError => "when operate with lock, something bad happens."@,
        }
    }

    /// The text that describes the error.
    pub fn message(&self) -> (text: String)
        ensures
            text@ == self.message_spec(),
    {
        match self {
            KvError::FailToOpenFile { file_name, reason } => {
                let mut text = String::from_str("Failed to open file ");
                text.append(file_name.as_str());
                text.append(" because error [");
                text.append(reason.as_str());
                text.append("].");
                text
            },
            KvError::OtherIOException { reason } => {
                let mut text = String::from_str("Failed because some unexpected IO exception [");
                text.append(reason.as_str());
                text.append("].");
                text
            },
            KvError::FailToParseFile { reason } => {
                let mut text = String::from_str("Failed to parse file because error [");
                text.append(reason.as_str());
                text.append("]");
                text
            },
            KvError::KeyNotFound => String::from_str("Key not found"),
            KvError::Other { reason } => {
                let mut text = String::from_str("other exception: ");
                text.append(reason.as_str());
                text
            },
            KvError::IllegalWorkingDirectory => String::from_str(
                "illegal working directory: another instance is working here.",
            ),
            KvError::ConcurrentError => String::from_str(
                "when operate with lock, something bad happens.",
            ),
        }
    }
}

} // verus!
