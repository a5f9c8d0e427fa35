//! Failure kinds surfaced by the resolution and extraction pipeline.

use vstd::prelude::*;

verus! {

/// Every component returns one of these typed failures; none is recovered
/// internally.
#[derive(Debug, Clone, PartialEq, Eq)]
pub enum ArchiveError {
    /// No catalog release satisfies the requested version constraint; carries
    /// the requested version rendered as a string.
    ReleaseNotFound(String),
    /// The archive or its checksum companion is missing for the resolved
    /// release and target; carries the expected archive name.
    AssetNotFound(String),
    /// The checksum body contains no recognizable digest token; carries the
    /// archive's name.
    AssetHashNotFound(String),
    /// The computed digest of the fetched bytes disagrees with the expected
    /// digest.
    IntegrityMismatch { expected: String, actual: String },
    /// Network or transport failure, distinct from the "not found" kinds.
    TransportError(String),
    /// Malformed archive entry, path-escape attempt, or filesystem failure
    /// during unpack.
    ExtractionError(String),
    /// A predicate collides with an existing registration.
    RegistrationConflict(String),
    /// Catch-all for catalog contract violations, such as a tag that does not
    /// parse as a version.
    Unexpected(String),
}

} // verus!
