//! The kinds of failure the library reports.

use vstd::prelude::*;

verus! {

/// A distinguishable failure kind. The library never formats messages; the
/// front-end turns a kind into text.
#[derive(Clone, Copy, Debug, PartialEq, Eq, Structural)]
pub enum ErrorKind {
    /// A required directory could not be resolved.
    ConfigurationUnavailable,
    /// Every port of the daemon range is taken.
    ResourceExhausted,
    /// A persisted document could not be parsed.
    ArtifactCorrupt,
    /// A signal, spawn or liveness probe failed in a way that says nothing
    /// definite about the target process.
    ProcessControlFailure,
    /// No daemon, scope or key matches.
    NotFound,
    /// Writing to durable storage failed.
    PersistenceFailure,
    /// The wall clock reads as a moment before the epoch.
    ClockUnavailable,
}

} // verus!
