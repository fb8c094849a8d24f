//! CoRRE encoding: RRE with 8-bit subrectangle coordinates, for rectangles of
//! at most 255 by 255 pixels.
use vstd::prelude::*;

use super::common::{
    count_of, find_subrects, subrect_in, get_background_color, lemma_paint_carving, paint, px, put_pixel32,
    rgb24_pixels, rgba_to_rgb24_pixels, Subrect,
};
use super::rre::{be32_at, le32_at, lemma_be32_at, lemma_le32_at};
use super::Encoding;
use crate::protocol::{be32, le32, put_u32, put_u8};

verus! {

/// The 8 bytes of one CoRRE subrectangle.
pub open spec fn corre_subrect_wire(s: Subrect) -> Seq<u8> {
    le32(s.color) + seq![s.x as u8, s.y as u8, s.w as u8, s.h as u8]
}

/// The subrectangle whose 8 bytes start at `o`.
pub open spec fn corre_subrect_at(b: Seq<u8>, o: int) -> Subrect {
    Subrect { color: le32_at(b, o), x: b[o + 4] as u16, y: b[o + 5] as u16, w: b[o + 6] as u16, h: b[o + 7] as u16 }
}

/// A CoRRE body read back: background and subrectangles, or `None` when the
/// length does not match the subrectangle count.
pub open spec fn corre_decode(b: Seq<u8>) -> Option<(u32, Seq<Subrect>)> {
    if b.len() < 8 {
        None
    } else {
        let n = be32_at(b, 0) as nat;
        if b.len() != 8 + 8 * n {
            None
        } else {
            Some((le32_at(b, 4), Seq::new(n, |k: int| corre_subrect_at(b, 8 + 8 * k))))
        }
    }
}

/// All coordinates of the subrectangles fit in a byte.
pub open spec fn fits_u8(rs: Seq<Subrect>) -> bool {
    forall|k: int| 0 <= k < rs.len() ==> #[trigger] rs[k].x <= 255 && rs[k].y <= 255 && rs[k].w <= 255 && rs[k].h <= 255
}

/// The CoRRE body of background `bg` and subrectangles `rs`: count
/// (big-endian), background and each subrectangle.
pub fn write_corre_body(bg: u32, rs: &Vec<Subrect>) -> (r: Vec<u8>)
    requires
        rs@.len() <= u32::MAX,
        fits_u8(rs@),
    ensures
        corre_decode(r@) == Some((bg, rs@)),
{
    let mut buf: Vec<u8> = Vec::new();
    put_u32(&mut buf, rs.len() as u32);
    put_pixel32(&mut buf, bg);
    let ghost head = buf@;
    proof {
        lemma_be32_at(seq![], rs@.len() as u32, le32(bg));
        lemma_le32_at(be32(rs@.len() as u32), bg, seq![]);
        assert(head =~= seq![] + be32(rs@.len() as u32) + le32(bg));
        assert(head =~= be32(rs@.len() as u32) + le32(bg) + seq![]);
    }
    let mut k: usize = 0;
    while k < rs.len()
        invariant
            k <= rs@.len(),
            rs@.len() <= u32::MAX,
            fits_u8(rs@),
            head.len() == 8,
            be32_at(head, 0) == rs@.len(),
            le32_at(head, 4) == bg,
            buf@.len() == 8 + 8 * k,
            buf@.subrange(0, 8) == head,
            forall|j: int| 0 <= j < k ==> #[trigger] corre_subrect_at(buf@, 8 + 8 * j) == rs@[j],
        decreases rs@.len() - k,
    {
        let s = rs[k];
        let ghost before = buf@;
        assert(s.x <= 255 && s.y <= 255 && s.w <= 255 && s.h <= 255);
        put_pixel32(&mut buf, s.color);
        put_u8(&mut buf, s.x as u8);
        put_u8(&mut buf, s.y as u8);
        put_u8(&mut buf, s.w as u8);
        put_u8(&mut buf, s.h as u8);
        proof {
            assert(buf@ =~= before + le32(s.color) + seq![s.x as u8, s.y as u8, s.w as u8, s.h as u8]);
            lemma_le32_at(before, s.color, seq![s.x as u8, s.y as u8, s.w as u8, s.h as u8]);
            assert(corre_subrect_at(buf@, 8 + 8 * k) == s);
            assert forall|j: int| 0 <= j < k + 1 implies #[trigger] corre_subrect_at(buf@, 8 + 8 * j) == rs@[j] by {
                if j < k {
                    assert(corre_subrect_at(before, 8 + 8 * j) == rs@[j]);
                    assert forall|i: int| 0 <= i < before.len() implies buf@[i] == before[i] by {}
                }
            }
            assert(buf@.subrange(0, 8) =~= before.subrange(0, 8));
        }
        k += 1;
    }
    proof {
        assert(be32_at(buf@, 0) == be32_at(head, 0));
        assert(le32_at(buf@, 4) == le32_at(head, 4));
        assert(Seq::new(rs@.len(), |j: int| corre_subrect_at(buf@, 8 + 8 * j)) =~= rs@);
    }
    buf
}

/// The CoRRE encoder.
pub struct CorRreEncoding;

impl Encoding for CorRreEncoding {
    /// The background is the most frequent colour. A rectangle of at most 255
    /// by 255 pixels is carved into subrectangles that, painted over the
    /// background, give it back; a larger one is sent as background alone.
    fn encode(&self, data: &[u8], width: u16, height: u16, quality: u8, compression: u8) -> (r: Vec<u8>)
        ensures
            corre_decode(r@) matches Some((bg, rs)) && {
                let pixels = rgb24_pixels(data@);
                &&& forall|c: u32| #[trigger] count_of(pixels, c) <= count_of(pixels, bg)
                &&& (width > 255 || height > 255) ==> rs.len() == 0
                &&& forall|k: int| 0 <= k < rs.len() ==> subrect_in(#[trigger] rs[k], width as nat, height as nat)
                &&& (width <= 255 && height <= 255) ==> forall|x: int, y: int|
                    0 <= x < width && 0 <= y < height ==> #[trigger] paint(rs, bg, x, y) == px(
                        pixels,
                        width as nat,
                        x,
                        y,
                    )
            },
    {
        let pixels = rgba_to_rgb24_pixels(data);
        let bg_color = get_background_color(pixels.as_slice());
        if width > 255 || height > 255 {
            let none: Vec<Subrect> = Vec::new();
            return write_corre_body(bg_color, &none);
        }
        assert(pixels@.len() == width as nat * height as nat) by (nonlinear_arith)
            requires pixels@.len() == data@.len() / 4, data@.len() == width as nat * height as nat * 4;
        let subrects = find_subrects(pixels.as_slice(), width as usize, height as usize, bg_color);
        proof {
            lemma_paint_carving(pixels@, width as nat, height as nat, bg_color, subrects@);
            assert(width as nat * height as nat <= 255 * 255) by (nonlinear_arith)
                requires width <= 255, height <= 255;
        }
        write_corre_body(bg_color, &subrects)
    }
}

} // verus!
