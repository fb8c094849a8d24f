//! Hextile encoding: the rectangle cut into 16 by 16 tiles, each sent raw or
//! as a background with single-coloured subrectangles, colours carried over
//! from the tile before when they do not change.
use vstd::prelude::*;

use super::common::{
    analyze_tile_colors, covers, extract_tile, find_subrects, lemma_paint_carving, paint, put_pixel32, px, rgb24_pixels, rgba_to_rgb24_pixels, subrect_in,
    Subrect,
};
use super::zrle::{lemma_tile_of, min_nat, tile_of};
use super::Encoding;
use crate::protocol::{le32, put_u8};

verus! {

/// One tile as sent. A raw tile carries its pixels; any other tile a
/// background (sent when `bg_set`, else the one in effect), a foreground
/// (sent when `fg_set`) and subrectangles, each with its own colour when
/// `coloured`, else in the foreground.
pub struct HexTile {
    /// The tile is sent raw.
    pub raw: bool,
    /// The background is sent.
    pub bg_set: bool,
    /// The foreground is sent.
    pub fg_set: bool,
    /// Each subrectangle carries its colour.
    pub coloured: bool,
    /// The background in effect.
    pub bg: u32,
    /// The foreground in effect for subrectangles without a colour.
    pub fg: u32,
    /// The subrectangles, relative to the tile.
    pub subrects: Seq<Subrect>,
    /// The pixels of a raw tile.
    pub pixels: Seq<u32>,
}

/// The subencoding byte of a tile.
pub open spec fn hex_mask(t: HexTile) -> u8 {
    if t.raw {
        1
    } else {
        ((if t.bg_set { 2nat } else { 0nat }) + (if t.fg_set { 4nat } else { 0nat }) + (if t.subrects.len() > 0 { 8nat } else { 0nat })
            + (if t.coloured { 16nat } else { 0nat })) as u8
    }
}

/// The bytes of one subrectangle: its colour when coloured, then x and y in
/// one byte and width - 1 and height - 1 in another, four bits each.
pub open spec fn hex_subrect_wire(s: Subrect, coloured: bool) -> Seq<u8> {
    (if coloured { le32(s.color) } else { seq![] }) + seq![(s.x * 16 + s.y) as u8, ((s.w - 1) * 16 + (s.h - 1)) as u8]
}

/// The bytes of a list of subrectangles.
pub open spec fn hex_subrects_wire(ss: Seq<Subrect>, coloured: bool) -> Seq<u8>
    decreases ss.len(),
{
    if ss.len() == 0 {
        seq![]
    } else {
        hex_subrects_wire(ss.drop_last(), coloured) + hex_subrect_wire(ss.last(), coloured)
    }
}

/// Each colour as four little-endian bytes.
pub open spec fn le32s(s: Seq<u32>) -> Seq<u8>
    decreases s.len(),
{
    if s.len() == 0 {
        seq![]
    } else {
        le32s(s.drop_last()) + le32(s.last())
    }
}

/// The bytes of one tile.
pub open spec fn hex_tile_wire(t: HexTile) -> Seq<u8> {
    seq![hex_mask(t)] + if t.raw {
        le32s(t.pixels)
    } else {
        (if t.bg_set { le32(t.bg) } else { seq![] }) + (if t.fg_set { le32(t.fg) } else { seq![] }) + (if t.subrects.len() > 0 {
            seq![t.subrects.len() as u8] + hex_subrects_wire(t.subrects, t.coloured)
        } else {
            seq![]
        })
    }
}

/// The bytes of a list of tiles.
pub open spec fn hex_wire(ts: Seq<HexTile>) -> Seq<u8>
    decreases ts.len(),
{
    if ts.len() == 0 {
        seq![]
    } else {
        hex_wire(ts.drop_last()) + hex_tile_wire(ts.last())
    }
}

/// Background and foreground a decoder holds after the first `n` tiles.
pub open spec fn hex_state(ts: Seq<HexTile>, n: nat) -> (Option<u32>, Option<u32>)
    decreases n,
{
    if n == 0 || n > ts.len() {
        (None, None)
    } else {
        let st = hex_state(ts, (n - 1) as nat);
        let t = ts[n - 1];
        if t.raw {
            (None, None)
        } else {
            (Some(t.bg), if t.coloured { None } else if t.fg_set { Some(t.fg) } else { st.1 })
        }
    }
}

/// Tile `t`, read with the colours `st` in effect, gives the `tw` by `th`
/// pixels `tile`: a single-coloured tile goes as its background alone, and
/// the background is sent exactly when it changes.
pub open spec fn hex_tile_ok(t: HexTile, st: (Option<u32>, Option<u32>), tile: Seq<u32>, tw: nat, th: nat) -> bool {
    &&& (tile.len() > 0 && (forall|i: int| 0 <= i < tile.len() ==> #[trigger] tile[i] == tile[0])) ==> !t.raw
        && t.subrects.len() == 0 && t.bg == tile[0]
    &&& !t.raw ==> (t.bg_set <==> st.0 != Some(t.bg))
    &&& hex_tile_content_ok(t, st, tile, tw, th)
}

/// The colours and subrectangles of tile `t` give the `tw` by `th` pixels `tile`.
pub open spec fn hex_tile_content_ok(t: HexTile, st: (Option<u32>, Option<u32>), tile: Seq<u32>, tw: nat, th: nat) -> bool {
    if t.raw {
        t.pixels == tile
    } else {
        &&& (t.bg_set || st.0 == Some(t.bg))
        &&& t.subrects.len() <= 255
        &&& (!t.coloured && t.subrects.len() > 0 ==> (t.fg_set || st.1 == Some(t.fg)) && forall|k: int|
            0 <= k < t.subrects.len() ==> #[trigger] t.subrects[k].color == t.fg)
        &&& forall|k: int| 0 <= k < t.subrects.len() ==> subrect_in(#[trigger] t.subrects[k], tw, th)
        &&& forall|x: int, y: int| 0 <= x < tw && 0 <= y < th ==> #[trigger] paint(t.subrects, t.bg, x, y) == px(tile, tw, x, y)
    }
}

/// Number of 16-pixel tiles spanning `n` pixels.
pub open spec fn hex_tiles_across(n: nat) -> nat {
    (n + 15) / 16
}

/// Tile `k` of the rectangle, counting row by row, is correctly sent by `ts[k]`.
pub open spec fn hex_tile_at_ok(ts: Seq<HexTile>, pixels: Seq<u32>, w: nat, h: nat, k: int) -> bool {
    let ncols = hex_tiles_across(w);
    let x = (k % ncols as int) * 16;
    let y = (k / ncols as int) * 16;
    let tw = min_nat(16, (w - x) as nat);
    let th = min_nat(16, (h - y) as nat);
    hex_tile_ok(ts[k], hex_state(ts, k as nat), tile_of(pixels, w, x, y, tw, th), tw, th)
}

/// `ts` sends every tile of the `w` by `h` rectangle, row by row.
pub open spec fn hextile_ok(ts: Seq<HexTile>, pixels: Seq<u32>, w: nat, h: nat) -> bool {
    &&& ts.len() == hex_tiles_across(w) * hex_tiles_across(h)
    &&& forall|k: int| 0 <= k < ts.len() ==> #[trigger] hex_tile_at_ok(ts, pixels, w, h, k)
}

proof fn lemma_hex_state_push(ts: Seq<HexTile>, t: HexTile, n: nat)
    requires
        n <= ts.len(),
    ensures
        hex_state(ts.push(t), n) == hex_state(ts, n),
    decreases n,
{
    if n > 0 {
        lemma_hex_state_push(ts, t, (n - 1) as nat);
        assert(ts.push(t)[n - 1] == ts[n - 1]);
    }
}

/// Appends every colour as four little-endian bytes.
fn put_le32s(buf: &mut Vec<u8>, s: &[u32])
    ensures
        final(buf)@ == old(buf)@ + le32s(s@),
{
    let mut i: usize = 0;
    while i < s.len()
        invariant
            i <= s@.len(),
            buf@ == old(buf)@ + le32s(s@.subrange(0, i as int)),
        decreases s@.len() - i,
    {
        put_pixel32(buf, s[i]);
        i += 1;
        proof {
            assert(s@.subrange(0, i as int).drop_last() =~= s@.subrange(0, i - 1));
            assert(buf@ =~= old(buf)@ + le32s(s@.subrange(0, i as int)));
        }
    }
    assert(s@.subrange(0, s@.len() as int) =~= s@);
}

/// Appends subrectangles of a tile of at most 16 by 16 pixels.
fn put_hex_subrects(buf: &mut Vec<u8>, ss: &Vec<Subrect>, coloured: bool, tw: usize, th: usize)
    requires
        tw <= 16,
        th <= 16,
        forall|k: int| 0 <= k < ss@.len() ==> subrect_in(#[trigger] ss@[k], tw as nat, th as nat),
    ensures
        final(buf)@ == old(buf)@ + hex_subrects_wire(ss@, coloured),
{
    let mut k: usize = 0;
    while k < ss.len()
        invariant
            tw <= 16,
            th <= 16,
            forall|j: int| 0 <= j < ss@.len() ==> subrect_in(#[trigger] ss@[j], tw as nat, th as nat),
            k <= ss@.len(),
            buf@ == old(buf)@ + hex_subrects_wire(ss@.subrange(0, k as int), coloured),
        decreases ss@.len() - k,
    {
        let sr = ss[k];
        assert(subrect_in(ss@[k as int], tw as nat, th as nat));
        let ghost b0 = buf@;
        if coloured {
            put_pixel32(buf, sr.color);
        }
        put_u8(buf, (sr.x * 16 + sr.y) as u8);
        put_u8(buf, ((sr.w - 1) * 16 + (sr.h - 1)) as u8);
        k += 1;
        proof {
            assert(ss@.subrange(0, k as int).drop_last() =~= ss@.subrange(0, k - 1));
            assert(buf@ =~= b0 + hex_subrect_wire(sr, coloured));
            assert(buf@ =~= old(buf)@ + hex_subrects_wire(ss@.subrange(0, k as int), coloured));
        }
    }
    assert(ss@.subrange(0, ss@.len() as int) =~= ss@);
}

/// Appends one tile, given what it is to carry.
fn put_hex_tile(buf: &mut Vec<u8>, raw: bool, bg_set: bool, fg_set: bool, coloured: bool, bg: u32, fg: u32, ss: &Vec<Subrect>, tile: &Vec<u32>, tw: usize, th: usize, ghost_tile: Ghost<HexTile>)
    requires
        tw <= 16,
        th <= 16,
        ss@.len() <= 255,
        forall|k: int| 0 <= k < ss@.len() ==> subrect_in(#[trigger] ss@[k], tw as nat, th as nat),
        ghost_tile@ == (HexTile { raw, bg_set, fg_set, coloured, bg, fg, subrects: ss@, pixels: tile@ }),
    ensures
        final(buf)@ == old(buf)@ + hex_tile_wire(ghost_tile@),
{
    let ghost t = ghost_tile@;
    if raw {
        put_u8(buf, 1);
        put_le32s(buf, tile.as_slice());
        assert(final(buf)@ =~= old(buf)@ + hex_tile_wire(t));
        return;
    }
    let mask: u8 = (if bg_set { 2u8 } else { 0u8 }) + (if fg_set { 4u8 } else { 0u8 }) + (if ss.len() > 0 { 8u8 } else { 0u8 }) + (if coloured { 16u8 } else { 0u8 });
    put_u8(buf, mask);
    let ghost b1 = buf@;
    if bg_set {
        put_pixel32(buf, bg);
    }
    let ghost b2 = buf@;
    if fg_set {
        put_pixel32(buf, fg);
    }
    let ghost b3 = buf@;
    if ss.len() > 0 {
        put_u8(buf, ss.len() as u8);
        put_hex_subrects(buf, ss, coloured, tw, th);
    }
    proof {
        assert(b2 =~= b1 + (if bg_set { le32(bg) } else { seq![] }));
        assert(b3 =~= b2 + (if fg_set { le32(fg) } else { seq![] }));
        assert(final(buf)@ =~= old(buf)@ + hex_tile_wire(t));
    }
}

proof fn lemma_tile_index(k: int, r: int, c: int, ncols: int)
    requires
        0 <= c < ncols,
        0 <= r,
        k == r * ncols + c,
    ensures
        k / ncols == r,
        k % ncols == c,
{
    vstd::arithmetic::div_mod::lemma_fundamental_div_mod_converse(k, ncols, r, c);
}

/// The Hextile bytes of a `width` by `height` rectangle of colours.
pub fn encode_hextile(pixels: &[u32], width: u16, height: u16) -> (r: Vec<u8>)
    requires
        pixels@.len() == width as nat * height as nat,
    ensures
        exists|ts: Seq<HexTile>| hextile_ok(ts, pixels@, width as nat, height as nat) && r@ == hex_wire(ts),
{
    let w = width as usize;
    let h = height as usize;
    let ncols = (w + 15) / 16;
    let nrows = (h + 15) / 16;
    let mut buf: Vec<u8> = Vec::new();
    let mut last_bg: Option<u32> = None;
    let mut last_fg: Option<u32> = None;
    let ghost mut ts: Seq<HexTile> = seq![];
    let mut r: usize = 0;
    while r < nrows
        invariant
            pixels@.len() == w * h,
            w == width,
            h == height,
            ncols == hex_tiles_across(w as nat),
            nrows == hex_tiles_across(h as nat),
            r <= nrows,
            ts.len() == r * ncols,
            buf@ == hex_wire(ts),
            (last_bg, last_fg) == hex_state(ts, ts.len()),
            forall|k: int| 0 <= k < ts.len() ==> #[trigger] hex_tile_at_ok(ts, pixels@, w as nat, h as nat, k),
        decreases nrows - r,
    {
        let y = r * 16;
        let th = if h - y < 16 { h - y } else { 16 };
        let mut c: usize = 0;
        while c < ncols
            invariant
                pixels@.len() == w * h,
                w == width,
                h == height,
                ncols == hex_tiles_across(w as nat),
                nrows == hex_tiles_across(h as nat),
                r < nrows,
                y == r * 16,
                y < h,
                th == min_nat(16, (h - y) as nat),
                c <= ncols,
                ts.len() == r * ncols + c,
                buf@ == hex_wire(ts),
                (last_bg, last_fg) == hex_state(ts, ts.len()),
                forall|k: int| 0 <= k < ts.len() ==> #[trigger] hex_tile_at_ok(ts, pixels@, w as nat, h as nat, k),
            decreases ncols - c,
        {
            let x = c * 16;
            let tw = if w - x < 16 { w - x } else { 16 };
            assert(x < w) by (nonlinear_arith)
                requires c < ncols, ncols as int == (w as int + 15) / 16, x == c * 16;
            assert((y + th) * w <= pixels@.len()) by (nonlinear_arith)
                requires y + th <= h, pixels@.len() == w * h;
            let tile = extract_tile(pixels, w, x, y, tw, th);
            proof {
                lemma_tile_of(tile@, pixels@, w as nat, x as int, y as int, tw as nat, th as nat);
            }
            let (is_solid, is_mono, bg, fg) = analyze_tile_colors(tile.as_slice());
            let mut raw = false;
            let mut bg_set = false;
            let mut fg_set = false;
            let mut coloured = false;
            let mut subrects: Vec<Subrect> = Vec::new();
            if !is_solid {
                subrects = find_subrects(tile.as_slice(), tw, th, bg);
                assert(tw * th <= 256) by (nonlinear_arith)
                    requires tw <= 16, th <= 16;
                let raw_size = tw * th * 4;
                let bg_overhead: usize = if last_bg == Some(bg) { 0 } else { 4 };
                let fg_overhead: usize = if is_mono && last_fg != Some(fg) { 4 } else { 0 };
                assert(subrects@.len() <= 256);
                let subrect_data = subrects.len() * if is_mono { 2 } else { 6 };
                let encoded_size = bg_overhead + fg_overhead + 1 + subrect_data;
                if subrects.len() == 0 || subrects.len() > 255 || encoded_size > raw_size {
                    raw = true;
                    subrects = Vec::new();
                } else {
                    bg_set = last_bg != Some(bg);
                    if is_mono {
                        fg_set = last_fg != Some(fg);
                    } else {
                        coloured = true;
                    }
                }
            } else {
                bg_set = last_bg != Some(bg);
            }
            let ghost t = HexTile { raw, bg_set, fg_set, coloured, bg, fg, subrects: subrects@, pixels: tile@ };
            let ghost k = ts.len() as int;
            proof {
                let tw_n = tw as nat;
                let th_n = th as nat;
                lemma_tile_index(k, r as int, c as int, ncols as int);
                assert(tw_n == min_nat(16, (w - x) as nat));
                let st = hex_state(ts, ts.len());
                if !raw {
                    if is_solid {
                        assert(subrects@.len() == 0);
                        assert forall|xx: int, yy: int| 0 <= xx < tw_n && 0 <= yy < th_n implies #[trigger] paint(t.subrects, t.bg, xx, yy) == px(tile@, tw_n, xx, yy) by {
                            assert(0 <= yy * tw_n + xx < tw_n * th_n) by (nonlinear_arith)
                                requires 0 <= xx < tw_n, 0 <= yy < th_n;
                        }
                    } else {
                        lemma_paint_carving(tile@, tw_n, th_n, bg, subrects@);
                        if is_mono {
                            assert forall|kk: int| 0 <= kk < subrects@.len() implies #[trigger] subrects@[kk].color == fg by {
                                let s = subrects@[kk];
                                assert(subrect_in(s, tw_n, th_n));
                                assert(covers(s, s.x as int, s.y as int));
                                assert(px(tile@, tw_n, s.x as int, s.y as int) == s.color);
                                assert(0 <= s.y * tw_n + s.x < tw_n * th_n) by (nonlinear_arith)
                                    requires 0 <= s.x < tw_n, 0 <= s.y < th_n;
                            }
                        }
                    }
                }
                assert(hex_tile_ok(t, st, tile@, tw_n, th_n));
                lemma_hex_state_push(ts, t, ts.len());
                assert forall|j: int| 0 <= j < ts.len() implies #[trigger] hex_state(ts.push(t), j as nat) == hex_state(ts, j as nat) by {
                    lemma_hex_state_push(ts, t, j as nat);
                }
                assert(ts.push(t)[k] == t);
                assert forall|j: int| 0 <= j < ts.len() + 1 implies #[trigger] hex_tile_at_ok(ts.push(t), pixels@, w as nat, h as nat, j) by {
                    if j < ts.len() {
                        assert(hex_tile_at_ok(ts, pixels@, w as nat, h as nat, j));
                        assert(ts.push(t)[j] == ts[j]);
                    }
                }
                assert(ts.push(t).drop_last() =~= ts);
            }
            put_hex_tile(&mut buf, raw, bg_set, fg_set, coloured, bg, fg, &subrects, &tile, tw, th, Ghost(t));
            if raw {
                last_bg = None;
                last_fg = None;
            } else {
                last_bg = Some(bg);
                if coloured {
                    last_fg = None;
                } else if fg_set {
                    last_fg = Some(fg);
                }
            }
            proof {
                ts = ts.push(t);
            }
            c += 1;
        }
        assert(r * ncols + ncols == (r + 1) * ncols) by (nonlinear_arith);
        r += 1;
    }
    assert(nrows * ncols == ncols * nrows) by (nonlinear_arith);
    buf
}

/// The Hextile encoder.
pub struct HextileEncoding;

impl Encoding for HextileEncoding {
    /// Tiles that, read in order with the colours each carries over, give
    /// back the rectangle.
    fn encode(&self, data: &[u8], width: u16, height: u16, quality: u8, compression: u8) -> (r: Vec<u8>)
        ensures
            exists|ts: Seq<HexTile>| hextile_ok(ts, rgb24_pixels(data@), width as nat, height as nat) && r@ == hex_wire(ts),
    {
        let pixels = rgba_to_rgb24_pixels(data);
        assert(pixels@.len() == width as nat * height as nat) by (nonlinear_arith)
            requires pixels@.len() == data@.len() / 4, data@.len() == width as nat * height as nat * 4;
        encode_hextile(pixels.as_slice(), width, height)
    }
}

} // verus!
