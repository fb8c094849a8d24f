//! RRE encoding: a background colour and a list of single-coloured
//! subrectangles with 16-bit coordinates.
use vstd::prelude::*;

use super::common::{
    count_of, find_subrects, get_background_color, lemma_paint_carving, paint, px,
    put_pixel32, rgb24_pixels, rgba_to_rgb24_pixels, Subrect,
};
use super::Encoding;
use crate::protocol::{be16, be32, le32, put_u16, put_u32};

verus! {

/// The value of two big-endian bytes at `o`.
pub open spec fn be16_at(b: Seq<u8>, o: int) -> u16 {
    (b[o] as nat * 256 + b[o + 1] as nat) as u16
}

/// The value of four big-endian bytes at `o`.
pub open spec fn be32_at(b: Seq<u8>, o: int) -> u32 {
    (b[o] as nat * 0x100_0000 + b[o + 1] as nat * 0x1_0000 + b[o + 2] as nat * 256 + b[o + 3] as nat) as u32
}

/// The value of four little-endian bytes at `o`.
pub open spec fn le32_at(b: Seq<u8>, o: int) -> u32 {
    (b[o] as nat + b[o + 1] as nat * 256 + b[o + 2] as nat * 0x1_0000 + b[o + 3] as nat * 0x100_0000) as u32
}

pub proof fn lemma_le32_at(pre: Seq<u8>, v: u32, post: Seq<u8>)
    ensures
        le32_at(pre + le32(v) + post, pre.len() as int) == v,
{
    let b = pre + le32(v) + post;
    let o = pre.len() as int;
    assert(b[o] == (v % 256) as u8);
    assert(b[o + 1] == ((v / 256) % 256) as u8);
    assert(b[o + 2] == ((v / 0x1_0000) % 256) as u8);
    assert(b[o + 3] == (v / 0x100_0000) as u8);
}

pub proof fn lemma_be32_at(pre: Seq<u8>, v: u32, post: Seq<u8>)
    ensures
        be32_at(pre + be32(v) + post, pre.len() as int) == v,
{
    let b = pre + be32(v) + post;
    let o = pre.len() as int;
    assert(b[o] == (v / 0x100_0000) as u8);
    assert(b[o + 1] == ((v / 0x1_0000) % 256) as u8);
    assert(b[o + 2] == ((v / 256) % 256) as u8);
    assert(b[o + 3] == (v % 256) as u8);
}

pub proof fn lemma_be16_at(pre: Seq<u8>, v: u16, post: Seq<u8>)
    ensures
        be16_at(pre + be16(v) + post, pre.len() as int) == v,
{
    let b = pre + be16(v) + post;
    let o = pre.len() as int;
    assert(b[o] == (v / 256) as u8);
    assert(b[o + 1] == (v % 256) as u8);
}

/// The 12 bytes of one RRE subrectangle.
pub open spec fn rre_subrect_wire(s: Subrect) -> Seq<u8> {
    le32(s.color) + be16(s.x) + be16(s.y) + be16(s.w) + be16(s.h)
}

/// The subrectangle whose 12 bytes start at `o`.
pub open spec fn rre_subrect_at(b: Seq<u8>, o: int) -> Subrect {
    Subrect {
        color: le32_at(b, o),
        x: be16_at(b, o + 4),
        y: be16_at(b, o + 6),
        w: be16_at(b, o + 8),
        h: be16_at(b, o + 10),
    }
}

/// An RRE body read back: background and subrectangles, or `None` when the
/// length does not match the subrectangle count.
pub open spec fn rre_decode(b: Seq<u8>) -> Option<(u32, Seq<Subrect>)> {
    if b.len() < 8 {
        None
    } else {
        let n = be32_at(b, 0) as nat;
        if b.len() != 8 + 12 * n {
            None
        } else {
            Some((le32_at(b, 4), Seq::new(n, |k: int| rre_subrect_at(b, 8 + 12 * k))))
        }
    }
}

proof fn lemma_subrect_wire(pre: Seq<u8>, s: Subrect)
    ensures
        rre_subrect_at(pre + rre_subrect_wire(s), pre.len() as int) == s,
{
    let e = Seq::<u8>::empty();
    let w = rre_subrect_wire(s);
    let b = pre + w;
    let o = pre.len() as int;
    assert(b =~= pre + le32(s.color) + (be16(s.x) + be16(s.y) + be16(s.w) + be16(s.h)));
    lemma_le32_at(pre, s.color, be16(s.x) + be16(s.y) + be16(s.w) + be16(s.h));
    assert(b =~= (pre + le32(s.color)) + be16(s.x) + (be16(s.y) + be16(s.w) + be16(s.h)));
    lemma_be16_at(pre + le32(s.color), s.x, be16(s.y) + be16(s.w) + be16(s.h));
    assert(b =~= (pre + le32(s.color) + be16(s.x)) + be16(s.y) + (be16(s.w) + be16(s.h)));
    lemma_be16_at(pre + le32(s.color) + be16(s.x), s.y, be16(s.w) + be16(s.h));
    assert(b =~= (pre + le32(s.color) + be16(s.x) + be16(s.y)) + be16(s.w) + be16(s.h));
    lemma_be16_at(pre + le32(s.color) + be16(s.x) + be16(s.y), s.w, be16(s.h));
    assert(b =~= (pre + le32(s.color) + be16(s.x) + be16(s.y) + be16(s.w)) + be16(s.h) + e);
    lemma_be16_at(pre + le32(s.color) + be16(s.x) + be16(s.y) + be16(s.w), s.h, e);
}

/// The RRE body of background `bg` and subrectangles `rs`: count (big-endian),
/// background and each subrectangle.
pub fn write_rre_body(bg: u32, rs: &Vec<Subrect>) -> (r: Vec<u8>)
    requires
        rs@.len() <= u32::MAX,
    ensures
        rre_decode(r@) == Some((bg, rs@)),
{
    let mut buf: Vec<u8> = Vec::new();
    put_u32(&mut buf, rs.len() as u32);
    put_pixel32(&mut buf, bg);
    let ghost head = buf@;
    proof {
        lemma_be32_at(seq![], rs@.len() as u32, le32(bg));
        lemma_le32_at(be32(rs@.len() as u32), bg, seq![]);
        assert(head =~= seq![] + be32(rs@.len() as u32) + le32(bg));
        assert(head =~= be32(rs@.len() as u32) + le32(bg) + seq![]);
    }
    let mut k: usize = 0;
    while k < rs.len()
        invariant
            k <= rs@.len(),
            rs@.len() <= u32::MAX,
            head.len() == 8,
            be32_at(head, 0) == rs@.len(),
            le32_at(head, 4) == bg,
            buf@.len() == 8 + 12 * k,
            buf@.subrange(0, 8) == head,
            forall|j: int| 0 <= j < k ==> #[trigger] rre_subrect_at(buf@, 8 + 12 * j) == rs@[j],
        decreases rs@.len() - k,
    {
        let s = rs[k];
        let ghost before = buf@;
        put_pixel32(&mut buf, s.color);
        put_u16(&mut buf, s.x);
        put_u16(&mut buf, s.y);
        put_u16(&mut buf, s.w);
        put_u16(&mut buf, s.h);
        proof {
            assert(buf@ =~= before + rre_subrect_wire(s));
            lemma_subrect_wire(before, s);
            assert forall|j: int| 0 <= j < k + 1 implies #[trigger] rre_subrect_at(buf@, 8 + 12 * j) == rs@[j] by {
                if j < k {
                    assert(rre_subrect_at(before, 8 + 12 * j) == rs@[j]);
                    assert forall|i: int| 0 <= i < before.len() implies buf@[i] == before[i] by {}
                }
            }
            assert(buf@.subrange(0, 8) =~= before.subrange(0, 8));
        }
        k += 1;
    }
    proof {
        assert(be32_at(buf@, 0) == be32_at(head, 0));
        assert(le32_at(buf@, 4) == le32_at(head, 4));
        let d = rre_decode(buf@);
        assert(Seq::new(rs@.len(), |j: int| rre_subrect_at(buf@, 8 + 12 * j)) =~= rs@);
    }
    buf
}

/// The RRE encoder.
pub struct RreEncoding;

impl Encoding for RreEncoding {
    /// The background is the most frequent colour; the subrectangles carve
    /// out every other pixel, so that painting them over the background gives
    /// back the rectangle.
    fn encode(&self, data: &[u8], width: u16, height: u16, quality: u8, compression: u8) -> (r: Vec<u8>)
        ensures
            rre_decode(r@) matches Some((bg, rs)) && {
                let pixels = rgb24_pixels(data@);
                &&& forall|c: u32| #[trigger] count_of(pixels, c) <= count_of(pixels, bg)
                &&& forall|x: int, y: int|
                    0 <= x < width && 0 <= y < height ==> #[trigger] paint(rs, bg, x, y) == px(
                        pixels,
                        width as nat,
                        x,
                        y,
                    )
            },
    {
        let pixels = rgba_to_rgb24_pixels(data);
        let bg_color = get_background_color(pixels.as_slice());
        assert(pixels@.len() == width as nat * height as nat) by (nonlinear_arith)
            requires pixels@.len() == data@.len() / 4, data@.len() == width as nat * height as nat * 4;
        let subrects = find_subrects(pixels.as_slice(), width as usize, height as usize, bg_color);
        proof {
            lemma_paint_carving(pixels@, width as nat, height as nat, bg_color, subrects@);
            assert(width as nat * height as nat <= 0xffff * 0xffff) by (nonlinear_arith)
                requires width <= 0xffff, height <= 0xffff;
        }
        write_rre_body(bg_color, &subrects)
    }
}

} // verus!
