//! Raw encoding: every pixel as red, green, blue and a zero padding byte.
use vstd::prelude::*;

use super::common::rgb24_pixels;
use super::Encoding;

verus! {

/// RGBA32 pixels with each fourth byte zeroed.
pub open spec fn raw_spec(data: Seq<u8>) -> Seq<u8> {
    Seq::new((data.len() / 4 * 4) as nat, |i: int| if i % 4 == 3 { 0u8 } else { data[i] })
}

/// Writes RGBA32 pixels as R, G, B, 0.
pub fn raw_pixels(data: &[u8]) -> (r: Vec<u8>)
    ensures
        r@ == raw_spec(data@),
{
    let len = data.len();
    let n = len / 4;
    let mut buf: Vec<u8> = Vec::with_capacity(len);
    let mut i: usize = 0;
    while i < n
        invariant
            len == data@.len(),
            n == len / 4,
            i <= n,
            buf@.len() == 4 * i,
            forall|j: int| 0 <= j < 4 * i ==> buf@[j] == if j % 4 == 3 { 0u8 } else { data@[j] },
        decreases n - i,
    {
        assert(4 * i + 4 <= len) by (nonlinear_arith)
            requires i < n, n == len / 4;
        let o = 4 * i;
        buf.push(data[o]);
        buf.push(data[o + 1]);
        buf.push(data[o + 2]);
        buf.push(0);
        i += 1;
    }
    assert(buf@ =~= raw_spec(data@));
    buf
}

/// The Raw encoder.
pub struct RawEncoding;

impl Encoding for RawEncoding {
    fn encode(&self, data: &[u8], width: u16, height: u16, quality: u8, compression: u8) -> (r: Vec<u8>)
        ensures
            r@ == raw_spec(data@),
    {
        raw_pixels(data)
    }
}

/// Reading Raw output back as colours gives the colours of the input.
pub proof fn lemma_raw_round_trip(data: Seq<u8>)
    ensures
        rgb24_pixels(raw_spec(data)) == rgb24_pixels(data),
        raw_spec(data).len() == data.len() / 4 * 4,
{
    let r = raw_spec(data);
    assert((data.len() / 4 * 4) / 4 == data.len() / 4) by (nonlinear_arith);
    assert forall|i: int| 0 <= i < data.len() / 4 implies #[trigger] rgb24_pixels(r)[i] == rgb24_pixels(data)[i] by {
        assert(4 * i + 3 < data.len() / 4 * 4) by (nonlinear_arith)
            requires 0 <= i < data.len() / 4;
        assert((4 * i) % 4 == 0 && (4 * i + 1) % 4 == 1 && (4 * i + 2) % 4 == 2) by (nonlinear_arith)
            requires 0 <= i;
    }
    assert(rgb24_pixels(r) =~= rgb24_pixels(data));
}

} // verus!
