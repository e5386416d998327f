//! Typed value marshaling and call/reply correlation for a bus-style
//! inter-process-communication protocol.
//!
//! The crate turns nested application values into the canonical byte-aligned
//! wire format of a message bus and back, frames them into addressed
//! messages, and correlates outbound method calls with their asynchronous
//! replies.  The standard bus interfaces (introspection, properties, object
//! management, liveness ping) are exposed on top of that kernel.

use vstd::prelude::*;

pub mod signature;
pub mod value;
pub mod wire;
pub mod codec;
pub mod message;
pub mod connection;
pub mod variant;
pub mod signal;
pub mod stdintf;

verus! {

/// The one error type shared by every component of the kernel.
#[derive(Debug, Clone)]
pub enum Error {
    /// A malformed or unsupported type signature, detected before any byte
    /// is written or read.
    InvalidSignature,
    /// A decode requested a type incompatible with the signature present in
    /// the data or in a variant box.
    TypeMismatch,
    /// Truncated or corrupt bytes: the slice is shorter than the layout
    /// requires.
    UnexpectedEndOfData,
    /// A value exceeds a wire length limit, so no well-formed frame can
    /// carry it.
    TooLarge,
    /// An error reply from the remote side: bus-defined error name and
    /// human-readable description.
    Bus(String, String),
    /// No reply arrived within the caller's deadline; the call's resources
    /// were released.
    TimedOut,
    /// The transport link is broken, as opposed to the remote rejecting the
    /// call.
    Disconnected,
}

} // verus!
