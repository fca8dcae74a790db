//! The error taxonomy shared by every component.

use vstd::prelude::*;

verus! {

/// Reason carried by a negative acknowledgment.
#[derive(Debug, Clone, Copy, PartialEq, Eq, Structural)]
pub enum NackReason {
    /// No route to the destination (code 100).
    NoRoute,
    /// Congestion on the path (code 101).
    Congestion,
    /// The Interest was a duplicate (code 102).
    Duplicate,
    /// No resource available (code 200).
    NoResource,
    /// Not authorised (code 300).
    NotAuth,
    /// Any other code.
    Other(u16),
}

/// What can go wrong in the forwarder.
#[derive(Debug, Clone, Copy, PartialEq, Eq, Structural)]
pub enum Error {
    /// Malformed TLV or fragment.
    Parse,
    /// Socket or stream failure.
    Io,
    /// Handshake or connection state failure.
    Connection,
    /// An operation exceeded its deadline.
    Timeout,
    /// The upstream refused explicitly.
    Nack(NackReason),
    /// No dispatch match, connection or registration.
    NotFound,
    /// Out-of-range value, empty name, value too large for the wire.
    InvalidArgument,
    /// Lifecycle operation out of sequence.
    InvalidState,
    /// The pipeline queue is saturated.
    QueueFull,
    /// Certificate or key failure.
    Crypto,
    /// Fragments were incomplete within the window.
    ReassemblyTimeout,
    /// A kernel offload operation failed.
    Offload,
}

impl Error {
    /// Whether a failed exchange may be tried again: I/O, connection and
    /// timeout failures are transient, everything else is final.
    pub open spec fn retryable(self) -> bool {
        self == Error::Io || self == Error::Connection || self == Error::Timeout
    }

    /// Executable form of [`Error::retryable`].
    pub fn is_retryable(&self) -> (r: bool)
        ensures
            r == self.retryable(),
    {
        match self {
            Error::Io => true,
            Error::Connection => true,
            Error::Timeout => true,
            _ => false,
        }
    }
}

} // verus!
