//! The error type of the library.
use vstd::prelude::*;

verus! {

/// What can go wrong while serving a viewer.
#[derive(Debug, Clone, PartialEq, Eq)]
pub enum VncError {
    /// An I/O error, with its message.
    Io(String),
    /// The viewer broke the protocol.
    Protocol(String),
    /// The viewer's authentication response did not match.
    AuthenticationFailed,
    /// The viewer asked for a pixel format that the server cannot produce.
    InvalidPixelFormat,
    /// An encoder could not produce its output.
    Encoding(String),
    /// The operation does not apply in the current state.
    InvalidOperation(String),
    /// The transport was closed.
    ConnectionClosed,
}

} // verus!
