//! ZlibHex encoding: the Hextile bytes of a rectangle through the
//! connection's ZlibHex stream.
use vstd::prelude::*;

use super::hextile::HextileEncoding;
use super::Encoding;
use crate::deflate::{compress_framed, is_framed};
use crate::error::VncError;

verus! {

/// Hextile-encodes the rectangle and compresses the result through the
/// persistent stream, flushed, preceded by the compressed length.
pub fn encode_zlibhex_persistent(data: &[u8], width: u16, height: u16, compressor: &mut flate2::Compress) -> (r: Result<Vec<u8>, VncError>)
    requires
        data@.len() == width as nat * height as nat * 4,
    ensures
        r matches Ok(v) ==> is_framed(v@),
{
    let hextile_encoder = HextileEncoding;
    let hextile_data = hextile_encoder.encode(data, width, height, 0, 0);
    compress_framed(compressor, hextile_data.as_slice())
}

} // verus!
