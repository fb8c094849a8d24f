//! TightPng encoding: each rectangle as one PNG image.
use vstd::prelude::*;

use super::common::{rgb24_pixels, rgba_to_rgb24_pixels};
use super::raw::{raw_pixels, raw_spec};
use super::tight::{compact_length, write_compact_length};
use super::zrle::{cpixels, put_cpixels};
use super::Encoding;
use crate::protocol::{put_slice, put_u8, TIGHT_PNG};

verus! {

/// The bytes of an 8-bit RGB PNG image of `width` by `height` pixels whose
/// rows are `rgb`, written at compression `level` (0 fast, 1 default, 2 best).
pub uninterp spec fn png_rgb8_of(width: u32, height: u32, level: u8, rgb: Seq<u8>) -> Seq<u8>;

/// Relies on png::Encoder (0.17) writing into a Vec: colour type Rgb, bit
/// depth 8, the compression that `level` names; `write_header`,
/// `write_image_data` and `finish` give the complete PNG file, which depends
/// on these arguments alone. `write_header` fails only for a zero width or
/// height, `write_image_data` only for data of the wrong size, and writing
/// into a Vec does not fail.
#[verifier::external_body]
fn png_encode(rgb: &[u8], width: u32, height: u32, level: u8) -> (r: Option<Vec<u8>>)
    ensures
        width > 0 && height > 0 && rgb@.len() == width as nat * height as nat * 3 ==> r is Some,
        r matches Some(v) ==> v@ == png_rgb8_of(width, height, level, rgb@),
{
    let mut out: Vec<u8> = Vec::new();
    {
        let mut enc = png::Encoder::new(&mut out, width, height);
        enc.set_color(png::ColorType::Rgb);
        enc.set_depth(png::BitDepth::Eight);
        enc.set_compression(match level {
            0 => png::Compression::Fast,
            1 => png::Compression::Default,
            _ => png::Compression::Best,
        });
        let mut writer = enc.write_header().ok()?;
        writer.write_image_data(rgb).ok()?;
        writer.finish().ok()?;
    }
    Some(out)
}

/// The PNG compression a viewer's compression level selects: fast for 0 to
/// 2, default for 3 to 6, best above.
pub open spec fn png_level(compression: u8) -> u8 {
    if compression <= 2 {
        0
    } else if compression <= 6 {
        1
    } else {
        2
    }
}

/// The TightPng body of a rectangle: control 0xA0, the compact length of
/// the PNG image, and the image.
pub open spec fn tightpng_body(data: Seq<u8>, width: u16, height: u16, compression: u8) -> Seq<u8> {
    let p = png_rgb8_of(width as u32, height as u32, png_level(compression), cpixels(rgb24_pixels(data)));
    seq![0xA0u8] + compact_length(p.len()) + p
}

/// Encodes a rectangle as one PNG image; when the image cannot be written,
/// sends control 0 and the pixels as R, G, B, 0.
pub fn encode_tightpng_png(data: &[u8], width: u16, height: u16, compression: u8) -> (r: Vec<u8>)
    ensures
        r@ == tightpng_body(data@, width, height, compression) || r@ == seq![0u8] + raw_spec(data@),
        width > 0 && height > 0 && data@.len() == width as nat * height as nat * 4 ==> r@ == tightpng_body(
            data@,
            width,
            height,
            compression,
        ),
{
    let pixels = rgba_to_rgb24_pixels(data);
    let mut rgb: Vec<u8> = Vec::new();
    put_cpixels(&mut rgb, pixels.as_slice());
    assert(rgb@ =~= cpixels(rgb24_pixels(data@)));
    proof {
        super::zrle::lemma_cpixels_len(rgb24_pixels(data@));
        if data@.len() == width as nat * height as nat * 4 {
            assert(data@.len() / 4 == width as nat * height as nat);
        }
    }
    let level: u8 = if compression <= 2 { 0 } else if compression <= 6 { 1 } else { 2 };
    match png_encode(rgb.as_slice(), width as u32, height as u32, level) {
        Some(png_data) => {
            let mut buf: Vec<u8> = Vec::new();
            put_u8(&mut buf, TIGHT_PNG * 16);
            write_compact_length(&mut buf, png_data.len());
            put_slice(&mut buf, png_data.as_slice());
            assert(buf@ =~= tightpng_body(data@, width, height, compression));
            buf
        },
        None => {
            let mut buf: Vec<u8> = Vec::new();
            put_u8(&mut buf, 0);
            let raw = raw_pixels(data);
            put_slice(&mut buf, raw.as_slice());
            assert(buf@ =~= seq![0u8] + raw_spec(data@));
            buf
        },
    }
}

/// The TightPng encoder.
pub struct TightPngEncoding;

impl Encoding for TightPngEncoding {
    /// The PNG body; the pixels as R, G, B, 0 after control 0 only for an
    /// empty rectangle.
    fn encode(&self, data: &[u8], width: u16, height: u16, quality: u8, compression: u8) -> (r: Vec<u8>)
        ensures
            r@ == tightpng_body(data@, width, height, compression) || r@ == seq![0u8] + raw_spec(data@),
            width > 0 && height > 0 ==> r@ == tightpng_body(data@, width, height, compression),
    {
        encode_tightpng_png(data, width, height, compression)
    }
}

} // verus!
