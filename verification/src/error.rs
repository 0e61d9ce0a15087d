//! Error kinds reported by the log core.

use vstd::prelude::*;

verus! {

/// Every failure the core can report to the command layer.
#[derive(Clone, Copy, Debug, PartialEq, Eq, Structural)]
pub enum TTError {
    /// A malformed duration string or explicit event timestamp.
    ParseError,
    /// `end` was invoked while no task is being tracked.
    InvalidState,
    /// `status` was invoked on an empty log.
    NotFound,
    /// The storage collaborator failed to read, write, create or delete.
    IOFailure,
    /// The log file's extension is not recognized by the storage loader.
    UnsupportedFormat,
}

impl TTError {
    /// The single diagnostic line printed for this error.
    pub open spec fn spec_message(self) -> Seq<char> {
        match self {
            TTError::ParseError => "Unable to parse the provided duration or event time."@,
            TTError::InvalidState => "Not active task being tracked. Cannot mark task complete."@,
            TTError::NotFound => "Unable to locate task for status reporting."@,
            TTError::IOFailure => "Task log read or write failed."@,
            TTError::UnsupportedFormat => "Unrecognized log file format extension."@,
        }
    }

    /// Renders the diagnostic line for this error.
    pub fn message(&self) -> (r: &'static str)
        ensures
            r@ == self.spec_message(),
    {
        match self {
            TTError::ParseError => "Unable to parse the provided duration or event time.",
            TTError::InvalidState => "Not active task being tracked. Cannot mark task complete.",
            TTError::NotFound => "Unable to locate task for status reporting.",
            TTError::IOFailure => "Task log read or write failed.",
            TTError::UnsupportedFormat => "Unrecognized log file format extension.",
        }
    }
}

} // verus!
