//! Zlib encoding: the pixels, in the viewer's format, through the
//! connection's Zlib stream.
use vstd::prelude::*;

use crate::deflate::{compress_framed, is_framed};
use crate::error::VncError;

verus! {

/// Compresses `data` (pixels already in the viewer's format), as it is,
/// through the persistent stream, flushed, preceded by the compressed
/// length.
pub fn encode_zlib_persistent(data: &[u8], compressor: &mut flate2::Compress) -> (r: Result<Vec<u8>, VncError>)
    ensures
        r matches Ok(v) ==> is_framed(v@),
{
    compress_framed(compressor, data)
}

} // verus!
