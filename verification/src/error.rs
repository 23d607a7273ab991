//! The ways in which an operation of the library can fail.

use vstd::prelude::*;
use vstd::string::StringExecFns;

verus! {

/// Why an operation was refused. An operation that fails changes nothing.
#[derive(Debug, Clone, PartialEq, Eq)]
pub enum Error {
    /// A task is already being tracked.
    Conflict,
    /// The current task is not in the state that the transition starts from.
    InvalidState,
    /// Nothing goes by that identifier, short identifier or name.
    NotFound,
    /// The short identifier fits several records: those listed.
    Ambiguous(Vec<u128>),
    /// The input contradicts itself or the records already held.
    Validation,
    /// The snapshot does not describe a store.
    Corruption,
    /// Both sides changed the record with this identifier, and differently.
    MergeConflict(u128),
    /// The merge was kept locally but the remote copy was not updated.
    PushFailed,
    /// The remote copy could not be reached; nothing happened.
    Transport,
    /// No remote copy is configured.
    NotConfigured,
    /// The local copy could not be written; nothing happened.
    NotPersisted,
}

impl Error {
    /// The sentence for an error.
    pub open spec fn sentence(self) -> Seq<char> {
        match self {
            Error::Conflict => "a task is already being tracked"@,
            Error::InvalidState => "the current task is not in the right state"@,
            Error::NotFound => "not found"@,
            Error::Ambiguous(_) => "the short id fits more than one record"@,
            Error::Validation => "the input is not valid"@,
            Error::Corruption => "the snapshot is corrupted"@,
            Error::MergeConflict(_) => "local and remote changes contradict each other"@,
            Error::PushFailed => "local changes are kept, the remote copy is not yet updated"@,
            Error::Transport => "the remote copy could not be reached"@,
            Error::NotConfigured => "no remote copy is configured"@,
            Error::NotPersisted => "the local copy could not be written"@,
        }
    }

    /// A sentence for the person at the terminal.
    pub fn message(&self) -> (r: String)
        ensures
            r@ == self.sentence(),
    {
        match self {
            Error::Conflict => String::from_str("a task is already being tracked"),
            Error::InvalidState => String::from_str("the current task is not in the right state"),
            Error::NotFound => String::from_str("not found"),
            Error::Ambiguous(_) => String::from_str("the short id fits more than one record"),
            Error::Validation => String::from_str("the input is not valid"),
            Error::Corruption => String::from_str("the snapshot is corrupted"),
            Error::MergeConflict(_) => String::from_str(
                "local and remote changes contradict each other",
            ),
            Error::PushFailed => String::from_str(
                "local changes are kept, the remote copy is not yet updated",
            ),
            Error::Transport => String::from_str("the remote copy could not be reached"),
            Error::NotConfigured => String::from_str("no remote copy is configured"),
            Error::NotPersisted => String::from_str("the local copy could not be written"),
        }
    }
}

} // verus!
