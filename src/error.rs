use vstd::prelude::*;

verus! {

/// The ways a simulated request or a routing fabric can fail.
#[derive(Clone, Copy, Debug, PartialEq, Eq, Structural)]
pub enum NodeError {
    /// The destination's inbound queue is closed or unknown to the registry,
    /// or the caller's reply slot is gone.
    NotListeningError,
    /// The request was delivered but its reply slot closed without a reply.
    NotAnsweringError,
    /// A typed request or response could not be encoded or decoded.
    SerializationError,
    /// A request could not be built, for instance from an invalid target.
    TransportError,
}

} // verus!
