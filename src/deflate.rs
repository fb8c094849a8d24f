//! The zlib streams the encoders compress through: flate2's deflate, either
//! as one persistent stream per connection (flushed after each rectangle) or
//! as a complete stream per call.
use vstd::prelude::*;

use crate::error::VncError;
use crate::protocol::{be32, put_slice, put_u32};

verus! {

/// A deflate stream of flate2, carried opaquely.
#[verifier::external_type_specification]
#[verifier::external_body]
pub struct ExCompress(flate2::Compress);

/// An error of a flate2 deflate stream, carried opaquely.
#[verifier::external_type_specification]
#[verifier::external_body]
pub struct ExCompressError(flate2::CompressError);

/// The status a flate2 deflate call reports, carried opaquely.
#[verifier::external_type_specification]
#[verifier::external_body]
pub struct ExStatus(flate2::Status);

/// Relies on flate2::Compress::total_in: the number of input bytes the
/// stream has consumed so far.
pub assume_specification[ flate2::Compress::total_in ](c: &flate2::Compress) -> u64;

/// Relies on flate2::Compress::new with flate2::Compression::new: a fresh
/// stream with a zlib header at the given level.
#[verifier::external_body]
pub fn new_stream(level: u32) -> flate2::Compress
    requires
        level <= 9,
{
    flate2::Compress::new(flate2::Compression::new(level), true)
}

/// Relies on flate2::Compress::compress_vec with FlushCompress::Sync: it
/// appends what it produced to `out` within its spare capacity and keeps what
/// `out` already held.
#[verifier::external_body]
fn deflate_sync(c: &mut flate2::Compress, input: &[u8], out: &mut Vec<u8>) -> (r: Result<
    flate2::Status,
    flate2::CompressError,
>)
    ensures
        final(out)@.len() >= old(out)@.len(),
        final(out)@.subrange(0, old(out)@.len() as int) == old(out)@,
{
    c.compress_vec(input, out, flate2::FlushCompress::Sync)
}

/// A complete zlib stream (header, deflate data, checksum) of `data` at
/// compression `level`.
pub uninterp spec fn zlib_stream_of(level: u32, data: Seq<u8>) -> Seq<u8>;

/// Relies on flate2::write::ZlibEncoder writing into a Vec: `write_all` then
/// `finish` give the complete zlib stream of `data` at `level`, which depends
/// on these two alone; writes into a Vec do not fail, so neither do they.
#[verifier::external_body]
pub fn zlib_compress(level: u32, data: &[u8]) -> (r: Option<Vec<u8>>)
    requires
        level <= 9,
    ensures
        r is Some,
        r matches Some(v) ==> v@ == zlib_stream_of(level, data@),
{
    let mut enc = flate2::write::ZlibEncoder::new(Vec::new(), flate2::Compression::new(level));
    std::io::Write::write_all(&mut enc, data).ok()?;
    enc.finish().ok()
}

/// A compressed payload preceded by its length, as four big-endian bytes.
pub open spec fn framed(payload: Seq<u8>) -> Seq<u8> {
    be32(payload.len() as u32) + payload
}

/// Prefixes `payload` with its length as four big-endian bytes.
pub fn frame_compressed(payload: &[u8]) -> (r: Vec<u8>)
    requires
        payload@.len() <= u32::MAX,
    ensures
        r@ == framed(payload@),
{
    let mut buf: Vec<u8> = Vec::new();
    put_u32(&mut buf, payload.len() as u32);
    put_slice(&mut buf, payload);
    buf
}

/// `b` is a payload preceded by its own length.
pub open spec fn is_framed(b: Seq<u8>) -> bool {
    b.len() >= 4 && b == framed(b.subrange(4, b.len() as int))
}

/// Compresses `input` through the persistent stream `c`, flushed so that the
/// viewer can decode everything sent so far, and frames the result with its
/// length. Fails when the stream reports an error, does not take all of the
/// input, or produces more than fits the length field; what it produces
/// depends on everything the stream took before.
pub fn compress_framed(c: &mut flate2::Compress, input: &[u8]) -> (r: Result<Vec<u8>, VncError>)
    ensures
        r matches Ok(v) ==> is_framed(v@),
{
    let before = c.total_in();
    let cap = input.len() / 2 + 1024;
    let mut z: Vec<u8> = Vec::with_capacity(if cap <= usize::MAX - input.len() { input.len() + cap } else { input.len() });
    if deflate_sync(c, input, &mut z).is_err() {
        return Err(VncError::Encoding(String::new()));
    }
    let after = c.total_in();
    if after < before || ((after - before) as u128) < input.len() as u128 {
        return Err(VncError::Encoding(String::new()));
    }
    if z.len() > u32::MAX as usize {
        return Err(VncError::Encoding(String::new()));
    }
    let v = frame_compressed(z.as_slice());
    assert(v@.subrange(4, v@.len() as int) =~= z@);
    Ok(v)
}

} // verus!
