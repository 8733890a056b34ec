use vstd::prelude::*;

verus! {

/// Failures that a request can end with.
#[derive(Clone, Copy, Debug, PartialEq, Eq, Structural)]
pub enum ProviderError {
    /// No voice has the requested identifier.
    VoiceNotFound,
    /// The transport gave no sender identity, so no task key can be formed.
    MissingCallerIdentity,
    /// Writing to the caller's byte channel failed part way through a stream.
    OutputChannelWrite,
    /// A task with the same key is still active.
    TaskAlreadyActive,
    /// Shared state could not be reached for this call.
    InternalError,
}

} // verus!
