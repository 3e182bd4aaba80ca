use vstd::prelude::*;

verus! {

/// The credential a run cannot start without.
#[derive(Debug, Clone, Copy, PartialEq, Eq, Structural)]
pub enum Credential {
    Username,
    Password,
}

/// Everything that can stop a run, one variant per failure described by the
/// pipeline's error policy.
#[derive(Debug, Clone, Copy, PartialEq, Eq, Structural)]
pub enum GradeError {
    /// A required credential was not supplied; names the missing one.
    ConfigurationMissing(Credential),
    /// The portal could not be reached or the request could not be built.
    TransportError,
    /// The portal rejected the credentials; retrying with the same pair is pointless.
    AuthenticationFailed,
    /// No known envelope shape matched the raw payload.
    UnwrapFailed,
    /// The recovered document does not have the expected table structure.
    MalformedReport,
    /// A snapshot file exists but cannot be decoded; nothing is overwritten.
    SnapshotCorrupt,
    /// Persisting the fresh snapshot failed after the diff was computed.
    SnapshotWriteFailed,
}

} // verus!
