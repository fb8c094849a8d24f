//! The rectangle encodings. Every encoder takes RGBA32 pixels, row by row,
//! and returns the bytes that follow the rectangle header.
use vstd::prelude::*;

pub mod common;
pub mod corre;
pub mod hextile;
pub mod raw;
pub mod rre;
pub mod tight;
pub mod tightpng;
pub mod zlib;
pub mod zlibhex;
pub mod zrle;
pub mod zywrle;

use crate::protocol::{
    ENCODING_CORRE, ENCODING_HEXTILE, ENCODING_RAW, ENCODING_RRE, ENCODING_TIGHT, ENCODING_TIGHTPNG,
};

verus! {

/// An encoder of rectangles.
pub trait Encoding {
    /// Encodes `width * height` RGBA32 pixels.
    fn encode(&self, data: &[u8], width: u16, height: u16, quality: u8, compression: u8) -> (r: Vec<u8>)
        requires
            data@.len() == width as nat * height as nat * 4,
    ;
}

/// The encoders that work without per-connection state, by name.
#[derive(Debug, Clone, Copy, PartialEq, Eq, Structural)]
pub enum EncoderKind {
    /// Raw.
    Raw,
    /// RRE.
    Rre,
    /// CoRRE.
    CoRre,
    /// Hextile.
    Hextile,
    /// Tight.
    Tight,
    /// TightPng.
    TightPng,
}

impl Encoding for EncoderKind {
    fn encode(&self, data: &[u8], width: u16, height: u16, quality: u8, compression: u8) -> (r: Vec<u8>) {
        match self {
            EncoderKind::Raw => raw::RawEncoding.encode(data, width, height, quality, compression),
            EncoderKind::Rre => rre::RreEncoding.encode(data, width, height, quality, compression),
            EncoderKind::CoRre => corre::CorRreEncoding.encode(data, width, height, quality, compression),
            EncoderKind::Hextile => hextile::HextileEncoding.encode(data, width, height, quality, compression),
            EncoderKind::Tight => tight::TightEncoding.encode(data, width, height, quality, compression),
            EncoderKind::TightPng => tightpng::TightPngEncoding.encode(data, width, height, quality, compression),
        }
    }
}

/// The stateless encoder of an encoding number: Raw, RRE, CoRRE, Hextile,
/// Tight or TightPng; the zlib-based ones need a connection's streams.
pub fn get_encoder(encoding_type: i32) -> (r: Option<EncoderKind>)
    ensures
        r == if encoding_type == ENCODING_RAW {
            Some(EncoderKind::Raw)
        } else if encoding_type == ENCODING_RRE {
            Some(EncoderKind::Rre)
        } else if encoding_type == ENCODING_CORRE {
            Some(EncoderKind::CoRre)
        } else if encoding_type == ENCODING_HEXTILE {
            Some(EncoderKind::Hextile)
        } else if encoding_type == ENCODING_TIGHT {
            Some(EncoderKind::Tight)
        } else if encoding_type == ENCODING_TIGHTPNG {
            Some(EncoderKind::TightPng)
        } else {
            None
        },
{
    if encoding_type == ENCODING_RAW {
        Some(EncoderKind::Raw)
    } else if encoding_type == ENCODING_RRE {
        Some(EncoderKind::Rre)
    } else if encoding_type == ENCODING_CORRE {
        Some(EncoderKind::CoRre)
    } else if encoding_type == ENCODING_HEXTILE {
        Some(EncoderKind::Hextile)
    } else if encoding_type == ENCODING_TIGHT {
        Some(EncoderKind::Tight)
    } else if encoding_type == ENCODING_TIGHTPNG {
        Some(EncoderKind::TightPng)
    } else {
        None
    }
}

} // verus!
