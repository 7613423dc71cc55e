use vstd::prelude::*;

verus! {

/// The error taxonomy of the core, kept distinct from any transport's own
/// status codes; the layer that hosts the library maps these one to one.
#[derive(Clone, Copy, Debug, PartialEq, Eq, Structural)]
pub enum CoreError {
    /// Invalid or expired token, or a bad signature.
    Unauthenticated,
    /// Token valid but privilege insufficient, or the subject does not match.
    PermissionDenied,
    /// Malformed key name, bad path, or an illegal state transition request.
    InvalidArgument,
    /// Missing entry, unknown task, or unknown protocol.
    NotFound,
    /// Create on a key whose latest version is live.
    AlreadyExists,
    /// Task in an incompatible state for the requested transition.
    FailedPrecondition,
    /// Broker or peer unreachable.
    Unavailable,
    /// Invariant violation or unexpected internal failure.
    Internal,
    /// A declared but unsupported manifest source.
    Unimplemented,
}

} // verus!
