//! The library's failure taxonomy.

use vstd::prelude::*;

verus! {

/// The failures the library itself can report.
///
/// I/O failures never arise here: reading directories and files is the
/// caller's business, and the caller hands the library plain values.
#[derive(Clone, Copy, Debug, PartialEq, Eq, Structural)]
pub enum RushError {
    /// A persisted value is malformed: a hex text of the wrong shape or
    /// with a character that is no hex digit, or a node that breaks the
    /// descriptor invariants.
    Format,
    /// Two snapshots being compared were built with different hash
    /// methods or different byte limits.
    ConfigMismatch,
    /// A directory's entries are structurally unusable: a repeated or an
    /// empty entry name.
    Structure,
    /// The digest provider failed to produce a digest.
    Hash,
}

impl RushError {
    /// A short fixed description, in place of a `Display` impl.
    pub fn describe(&self) -> &'static str {
        match self {
            RushError::Format => "malformed persisted data",
            RushError::ConfigMismatch => "snapshots were built with different settings",
            RushError::Structure => "directory entries are structurally invalid",
            RushError::Hash => "the digest provider failed",
        }
    }
}

} // verus!
