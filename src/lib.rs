//! A Remote Framebuffer (RFB / VNC) server engine: pixel formats and their
//! translation, the rectangle encodings, and the per-connection protocol
//! decisions, with their contracts proved by Verus.
use vstd::prelude::*;

pub mod client;
pub mod deflate;
pub mod encoding;
pub mod error;
pub mod framebuffer;
pub mod protocol;
pub mod translate;

verus! {

/// The protocol version string that the server sends first.
pub const PROTOCOL_VERSION: &'static str = "RFB 003.008\n";

/// The TCP port a VNC server listens on by default.
pub const DEFAULT_PORT: u16 = 5900;

} // verus!
