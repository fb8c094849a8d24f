//! Tight encoding: each rectangle sent as a solid fill, a two-colour bitmap,
//! an indexed palette image or full-colour pixels, large solid areas split
//! off into rectangles of their own.
use vstd::prelude::*;

use super::common::{count_of, cpixel, put_pixel24, rgba_to_rgb24_pixels};
use super::zrle::{contains_u32, cpixels, packed_row, tile_of};
use super::Encoding;
use crate::deflate::{zlib_compress, zlib_stream_of};
use crate::protocol::{put_slice, put_u8};

verus! {

/// Smallest rectangle (in pixels) that is searched for solid areas.
pub const MIN_SPLIT_RECT_SIZE: usize = 4096;

/// Smallest solid area worth a rectangle of its own.
pub const MIN_SOLID_SUBRECT_SIZE: usize = 2048;

/// Side of the tiles scanned for solid areas.
pub const MAX_SPLIT_TILE_SIZE: u16 = 16;

/// Largest rectangle, in pixels, sent in one piece.
pub const TIGHT_MAX_RECT_SIZE: usize = 65536;

/// Widest rectangle sent in one piece.
pub const TIGHT_MAX_RECT_WIDTH: u16 = 2048;

/// Payloads shorter than this are sent as they are.
pub const TIGHT_MIN_TO_COMPRESS: usize = 12;

/// Zlib stream of full-colour data.
pub const STREAM_ID_FULL_COLOR: u8 = 0;

/// Zlib stream of two-colour bitmaps.
pub const STREAM_ID_MONO: u8 = 1;

/// Zlib stream of palette indices.
pub const STREAM_ID_INDEXED: u8 = 2;

/// A rectangle of the region being encoded.
#[derive(Debug, Clone, Copy, PartialEq, Eq, Structural)]
pub struct Rect {
    /// Left edge.
    pub x: u16,
    /// Top edge.
    pub y: u16,
    /// Width.
    pub w: u16,
    /// Height.
    pub h: u16,
}

/// `a` is non-empty and lies inside `b`.
pub open spec fn rect_in(a: Rect, b: Rect) -> bool {
    a.w >= 1 && a.h >= 1 && b.x <= a.x && a.x + a.w <= b.x + b.w && b.y <= a.y && a.y + a.h <= b.y + b.h
}

/// `r` lies inside a `width` by `height` region.
pub open spec fn rect_fits(r: Rect, width: nat, height: nat) -> bool {
    r.x + r.w <= width && r.y + r.h <= height
}

/// The pixels of `r` in a `width`-wide region, row by row.
pub open spec fn rect_pixels(pixels: Seq<u32>, width: nat, r: Rect) -> Seq<u32> {
    tile_of(pixels, width, r.x as int, r.y as int, r.w as nat, r.h as nat)
}

// ---------------------------------------------------------------------------
// Settings
// ---------------------------------------------------------------------------

/// The compression level Tight works at: 9 becomes 3, levels above 1 are
/// capped at 2 for quality below 10 and at 1 otherwise.
pub open spec fn normalized_level(compression: u8, quality: u8) -> u8 {
    if compression == 9 {
        3
    } else if compression > 1 {
        if quality < 10 {
            if compression < 2 { compression } else { 2 }
        } else {
            1
        }
    } else {
        compression
    }
}

/// Maps a viewer's compression level to the level Tight works at.
pub fn normalize_compression_level(compression: u8, quality: u8) -> (r: u8)
    ensures
        r == normalized_level(compression, quality),
        r <= 3,
{
    let mut level = compression;
    if level == 9 {
        level = 3;
    } else if level > 1 {
        if quality < 10 {
            level = if level < 2 { level } else { 2 };
        } else {
            level = if level < 1 { level } else { 1 };
        }
    }
    level
}

/// Row of the configuration table for a normalized level.
pub open spec fn conf_index(level: u8) -> nat {
    if level == 0 {
        0
    } else if level == 1 {
        1
    } else if level == 2 || level == 3 {
        2
    } else {
        3
    }
}

/// Zlib level of bitmaps and palette indices.
pub open spec fn palette_zlib_level(level: u8) -> u32 {
    let c = conf_index(level);
    if c == 0 { 0 } else if c == 1 { 1 } else if c == 2 { 3 } else { 7 }
}

/// Zlib level of full-colour data.
pub open spec fn raw_zlib_level(level: u8) -> u32 {
    let c = conf_index(level);
    if c == 0 { 0 } else if c == 1 { 1 } else if c == 2 { 2 } else { 5 }
}

fn palette_zlib_level_of(level: u8) -> (r: u32)
    ensures
        r == palette_zlib_level(level),
        r <= 9,
{
    if level == 0 { 0 } else if level == 1 { 1 } else if level == 2 || level == 3 { 3 } else { 7 }
}

fn raw_zlib_level_of(level: u8) -> (r: u32)
    ensures
        r == raw_zlib_level(level),
        r <= 9,
{
    if level == 0 { 0 } else if level == 1 { 1 } else if level == 2 || level == 3 { 2 } else { 5 }
}

// ---------------------------------------------------------------------------
// Payloads
// ---------------------------------------------------------------------------

/// A length in Tight's compact form: 7 bits per byte, low bits first, the
/// high bit set on every byte but the last.
pub open spec fn compact_length(len: nat) -> Seq<u8> {
    if len < 128 {
        seq![len as u8]
    } else if len < 16384 {
        seq![((len % 128) + 128) as u8, (len / 128) as u8]
    } else {
        seq![((len % 128) + 128) as u8, (((len / 128) % 128) + 128) as u8, (len / 16384) as u8]
    }
}

/// Appends a length in Tight's compact form.
pub fn write_compact_length(buf: &mut Vec<u8>, len: usize)
    ensures
        final(buf)@ == old(buf)@ + compact_length(len as nat),
{
    if len < 128 {
        buf.push(len as u8);
    } else if len < 16384 {
        buf.push(((len % 128) + 128) as u8);
        buf.push((len / 128) as u8);
    } else {
        buf.push(((len % 128) + 128) as u8);
        buf.push((((len / 128) % 128) + 128) as u8);
        buf.push((len / 16384) as u8);
    }
    assert(final(buf)@ =~= old(buf)@ + compact_length(len as nat));
}

/// A payload as Tight sends it: as it is when shorter than 12 bytes, else
/// preceded by its compact length, compressed at `level` unless that is 0.
pub open spec fn tight_payload(data: Seq<u8>, level: u32) -> Seq<u8> {
    if data.len() < 12 {
        data
    } else if level == 0 {
        compact_length(data.len()) + data
    } else {
        let z = zlib_stream_of(level, data);
        compact_length(z.len()) + z
    }
}

/// Appends a payload as Tight sends it.
pub fn compress_data(buf: &mut Vec<u8>, data: &[u8], zlib_level: u32)
    requires
        zlib_level <= 9,
    ensures
        final(buf)@ == old(buf)@ + tight_payload(data@, zlib_level),
{
    if data.len() < TIGHT_MIN_TO_COMPRESS {
        put_slice(buf, data);
        return;
    }
    if zlib_level == 0 {
        write_compact_length(buf, data.len());
        put_slice(buf, data);
        return;
    }
    match zlib_compress(zlib_level, data) {
        Some(z) => {
            write_compact_length(buf, z.len());
            put_slice(buf, z.as_slice());
        },
        None => {
            write_compact_length(buf, data.len());
            put_slice(buf, data);
        },
    }
}

// ---------------------------------------------------------------------------
// Palette analysis
// ---------------------------------------------------------------------------

/// The distinct colours among the first `n` pixels, in order of first
/// appearance; once a seventeenth appears the list stops growing.
pub open spec fn colors_upto(s: Seq<u32>, n: nat) -> Seq<u32>
    decreases n,
{
    if n == 0 {
        seq![]
    } else {
        let p = colors_upto(s, (n - 1) as nat);
        if p.len() <= 16 && !p.contains(s[n - 1]) {
            p.push(s[n - 1])
        } else {
            p
        }
    }
}

/// The palette a Tight rectangle is sent with: one colour for a solid
/// rectangle; for two to sixteen colours the colours, the more frequent
/// first when there are two; otherwise none (full colour).
pub open spec fn tight_palette(s: Seq<u32>, level: u8) -> Seq<u32> {
    let cs = colors_upto(s, s.len());
    if cs.len() == 1 {
        cs
    } else if cs.len() == 0 || cs.len() > 16 {
        seq![]
    } else if cs.len() == 2 && count_of(s, cs[1]) >= count_of(s, cs[0]) {
        seq![cs[1], cs[0]]
    } else {
        cs
    }
}

/// Finds the palette a Tight rectangle is sent with.
pub fn analyze_palette(pixels: &[u32], level: u8) -> (r: Vec<u32>)
    ensures
        r@ == tight_palette(pixels@, level),
{
    let mut cs: Vec<u32> = Vec::new();
    let mut i: usize = 0;
    while i < pixels.len()
        invariant
            i <= pixels@.len(),
            cs@ == colors_upto(pixels@, i as nat),
            cs@.len() <= 17,
        decreases pixels@.len() - i,
    {
        let c = pixels[i];
        if cs.len() <= 16 && !contains_u32(cs.as_slice(), c) {
            cs.push(c);
        }
        i += 1;
    }
    if cs.len() == 1 {
        return cs;
    }
    if cs.len() == 0 || cs.len() > 16 {
        return Vec::new();
    }
    if cs.len() == 2 {
        let n0 = count_u32(pixels, cs[0]);
        let n1 = count_u32(pixels, cs[1]);
        if n1 >= n0 {
            let mut swapped: Vec<u32> = Vec::new();
            swapped.push(cs[1]);
            swapped.push(cs[0]);
            assert(swapped@ =~= seq![cs@[1], cs@[0]]);
            return swapped;
        }
    }
    cs
}

/// How often `c` occurs in `s`.
pub fn count_u32(s: &[u32], c: u32) -> (r: usize)
    ensures
        r == count_of(s@, c),
{
    let mut n: usize = 0;
    let mut i: usize = 0;
    while i < s.len()
        invariant
            i <= s@.len(),
            n == count_of(s@.subrange(0, i as int), c),
            n <= i,
        decreases s@.len() - i,
    {
        assert(s@.subrange(0, i + 1).drop_last() =~= s@.subrange(0, i as int));
        if s[i] == c {
            n += 1;
        }
        i += 1;
    }
    assert(s@.subrange(0, s@.len() as int) =~= s@);
    n
}

// ---------------------------------------------------------------------------
// Sub-modes
// ---------------------------------------------------------------------------

/// A solid rectangle: control 0x80 and the colour.
pub open spec fn solid_body(c: u32) -> Seq<u8> {
    seq![0x80u8] + cpixel(c)
}

/// Sends a solid rectangle.
pub fn encode_solid_rect(color: u32) -> (r: Vec<u8>)
    ensures
        r@ == solid_body(color),
{
    let mut buf: Vec<u8> = Vec::new();
    put_u8(&mut buf, 0x80);
    put_pixel24(&mut buf, color);
    assert(buf@ =~= solid_body(color));
    buf
}

/// One bit per pixel of row `y`: 1 where the pixel is not `bg`.
pub open spec fn mono_bits_row(s: Seq<u32>, w: nat, y: int, bg: u32) -> Seq<u8> {
    Seq::new(w, |x: int| if s[y * w + x] != bg { 1u8 } else { 0u8 })
}

/// The bitmap of the first `rows` rows, each padded to a whole byte.
pub open spec fn mono_bitmap(s: Seq<u32>, w: nat, rows: nat, bg: u32) -> Seq<u8>
    decreases rows,
{
    if rows == 0 {
        seq![]
    } else {
        mono_bitmap(s, w, (rows - 1) as nat, bg) + packed_row(mono_bits_row(s, w, rows - 1, bg), 1)
    }
}

/// The two-colour bitmap of a rectangle: most significant bit first, rows
/// byte-aligned, 1 for pixels other than `bg`.
pub fn encode_mono_bitmap(pixels: &[u32], width: u16, height: u16, bg: u32) -> (r: Vec<u8>)
    requires
        pixels@.len() == width as nat * height as nat,
        width <= TIGHT_MAX_RECT_WIDTH,
    ensures
        r@ == mono_bitmap(pixels@, width as nat, height as nat, bg),
{
    let w = width as usize;
    let h = height as usize;
    let len = pixels.len();
    let mut out: Vec<u8> = Vec::new();
    let mut y: usize = 0;
    while y < h
        invariant
            len == pixels@.len(),
            pixels@.len() == w * h,
            w == width,
            h == height,
            w <= 2048,
            y <= h,
            out@ == mono_bitmap(pixels@, w as nat, y as nat, bg),
        decreases h - y,
    {
        let mut bits: Vec<u8> = Vec::new();
        let mut x: usize = 0;
        assert(y * w + w <= w * h) by (nonlinear_arith)
            requires y < h;
        while x < w
            invariant
                len == pixels@.len(),
                pixels@.len() == w * h,
                y * w + w <= w * h,
                x <= w,
                bits@.len() == x,
                forall|i: int| 0 <= i < x ==> bits@[i] == if pixels@[y * w + i] != bg { 1u8 } else { 0u8 },
            decreases w - x,
        {
            let yw = y * w;
            bits.push(if pixels[yw + x] != bg { 1 } else { 0 });
            x += 1;
        }
        assert(bits@ =~= mono_bits_row(pixels@, w as nat, y as int, bg));
        super::zrle::pack_row(&mut out, &bits, 1);
        y += 1;
    }
    out
}

/// A two-colour rectangle: control, palette filter, 2 colours, the colours,
/// then the bitmap.
pub open spec fn mono_body(s: Seq<u32>, w: nat, h: nat, bg: u32, fg: u32, level: u8) -> Seq<u8> {
    let zl = palette_zlib_level(level);
    seq![if zl == 0 { 0xA0u8 } else { 0x50u8 }, 0x01u8, 0x01u8] + cpixel(bg) + cpixel(fg) + tight_payload(
        mono_bitmap(s, w, h, bg),
        zl,
    )
}

/// Sends a two-colour rectangle.
pub fn encode_mono_rect(pixels: &[u32], width: u16, height: u16, bg: u32, fg: u32, level: u8) -> (r: Vec<u8>)
    requires
        pixels@.len() == width as nat * height as nat,
        width <= TIGHT_MAX_RECT_WIDTH,
    ensures
        r@ == mono_body(pixels@, width as nat, height as nat, bg, fg, level),
{
    let zl = palette_zlib_level_of(level);
    let bitmap = encode_mono_bitmap(pixels, width, height, bg);
    let mut buf: Vec<u8> = Vec::new();
    put_u8(&mut buf, if zl == 0 { 0xA0 } else { 0x50 });
    put_u8(&mut buf, 0x01);
    put_u8(&mut buf, 0x01);
    put_pixel24(&mut buf, bg);
    put_pixel24(&mut buf, fg);
    let ghost head = buf@;
    compress_data(&mut buf, bitmap.as_slice(), zl);
    proof {
        let hd = seq![if zl == 0 { 0xA0u8 } else { 0x50u8 }, 0x01u8, 0x01u8] + cpixel(bg) + cpixel(fg);
        assert(head =~= hd);
        assert(hd + tight_payload(bitmap@, zl) =~= mono_body(pixels@, width as nat, height as nat, bg, fg, level));
    }
    buf
}

/// The palette index of each pixel, one byte each.
pub open spec fn palette_indices(s: Seq<u32>, pal: Seq<u32>) -> Seq<u8> {
    Seq::new(s.len(), |i: int| super::zrle::index_in(pal, s[i]) as u8)
}

/// An indexed rectangle: control, palette filter, colours minus one, the
/// colours, then one index byte per pixel.
pub open spec fn indexed_body(s: Seq<u32>, pal: Seq<u32>, level: u8) -> Seq<u8> {
    let zl = palette_zlib_level(level);
    seq![if zl == 0 { 0xA0u8 } else { 0x60u8 }, 0x01u8, (pal.len() - 1) as u8] + cpixels(pal) + tight_payload(
        palette_indices(s, pal),
        zl,
    )
}

/// Sends an indexed rectangle.
pub fn encode_indexed_rect(pixels: &[u32], palette: &[u32], level: u8) -> (r: Vec<u8>)
    requires
        1 <= palette@.len() <= 16,
    ensures
        r@ == indexed_body(pixels@, palette@, level),
{
    let zl = palette_zlib_level_of(level);
    let mut indices: Vec<u8> = Vec::new();
    let mut i: usize = 0;
    while i < pixels.len()
        invariant
            i <= pixels@.len(),
            palette@.len() <= 16,
            indices@.len() == i,
            forall|j: int| 0 <= j < i ==> indices@[j] == super::zrle::index_in(palette@, pixels@[j]) as u8,
        decreases pixels@.len() - i,
    {
        indices.push(super::zrle::index_of(palette, pixels[i]));
        i += 1;
    }
    assert(indices@ =~= palette_indices(pixels@, palette@));
    let mut buf: Vec<u8> = Vec::new();
    put_u8(&mut buf, if zl == 0 { 0xA0 } else { 0x60 });
    put_u8(&mut buf, 0x01);
    put_u8(&mut buf, (palette.len() - 1) as u8);
    super::zrle::put_cpixels(&mut buf, palette);
    let ghost head = buf@;
    compress_data(&mut buf, indices.as_slice(), zl);
    proof {
        let hd = seq![if zl == 0 { 0xA0u8 } else { 0x60u8 }, 0x01u8, (palette@.len() - 1) as u8] + cpixels(palette@);
        assert(head =~= hd);
        assert(hd + tight_payload(indices@, zl) =~= indexed_body(pixels@, palette@, level));
    }
    buf
}

/// A full-colour rectangle: control (0 when compressed, 0xA0 at level 0),
/// then the pixels as red, green, blue.
pub open spec fn full_color_body(s: Seq<u32>, level: u8) -> Seq<u8> {
    let zl = raw_zlib_level(level);
    seq![if zl == 0 { 0xA0u8 } else { 0x00u8 }] + tight_payload(cpixels(s), zl)
}

/// Sends a full-colour rectangle.
pub fn encode_full_color_rect(pixels: &[u32], level: u8) -> (r: Vec<u8>)
    ensures
        r@ == full_color_body(pixels@, level),
{
    let zl = raw_zlib_level_of(level);
    let mut rgb: Vec<u8> = Vec::new();
    super::zrle::put_cpixels(&mut rgb, pixels);
    assert(rgb@ =~= cpixels(pixels@));
    let mut buf: Vec<u8> = Vec::new();
    put_u8(&mut buf, if zl == 0 { 0xA0 } else { 0x00 });
    let ghost head = buf@;
    compress_data(&mut buf, rgb.as_slice(), zl);
    proof {
        assert(head =~= seq![if zl == 0 { 0xA0u8 } else { 0x00u8 }]);
    }
    buf
}

/// What one Tight rectangle of at most 2048 columns and 65536 pixels is sent
/// as: its palette decides between solid, two-colour, indexed and full
/// colour. Quality below 10 would ask for JPEG, which is not produced here:
/// such rectangles go as full colour at level 6.
pub open spec fn tight_body_ok(s: Seq<u32>, w: nat, h: nat, quality: u8, level: u8, b: Seq<u8>) -> bool {
    let pal = tight_palette(s, level);
    if pal.len() == 1 {
        b == solid_body(pal[0])
    } else if pal.len() == 2 {
        b == mono_body(s, w, h, pal[0], pal[1], level)
    } else if pal.len() >= 3 {
        b == indexed_body(s, pal, level)
    } else {
        let l = if quality < 10 { 6u8 } else { level };
        b == full_color_body(s, l)
    }
}

/// Sends one rectangle of at most 2048 columns and 65536 pixels.
pub fn encode_subrect(pixels: &[u32], width: u16, height: u16, quality: u8, level: u8) -> (r: Vec<u8>)
    requires
        pixels@.len() == width as nat * height as nat,
        width <= TIGHT_MAX_RECT_WIDTH,
    ensures
        tight_body_ok(pixels@, width as nat, height as nat, quality, level, r@),
{
    let pal = analyze_palette(pixels, level);
    if pal.len() == 1 {
        encode_solid_rect(pal[0])
    } else if pal.len() == 2 {
        encode_mono_rect(pixels, width, height, pal[0], pal[1], level)
    } else if pal.len() >= 3 {
        proof {
            lemma_colors_upto_len(pixels@, pixels@.len());
        }
        encode_indexed_rect(pixels, pal.as_slice(), level)
    } else if quality < 10 {
        encode_full_color_rect(pixels, 6)
    } else {
        encode_full_color_rect(pixels, level)
    }
}

proof fn lemma_colors_upto_len(s: Seq<u32>, n: nat)
    ensures
        colors_upto(s, n).len() <= 17,
    decreases n,
{
    if n > 0 {
        lemma_colors_upto_len(s, (n - 1) as nat);
    }
}


// ---------------------------------------------------------------------------
// Regions
// ---------------------------------------------------------------------------

/// Rectangle `r` holds the pixel (`x`, `y`).
pub open spec fn rect_has(r: Rect, x: int, y: int) -> bool {
    r.x <= x < r.x + r.w && r.y <= y < r.y + r.h
}

/// The rectangles of `rs` lie inside `r`, do not overlap, and cover it.
pub open spec fn tiles_rect(rs: Seq<Rect>, r: Rect) -> bool {
    &&& forall|k: int| 0 <= k < rs.len() ==> rect_in(#[trigger] rs[k], r)
    &&& forall|k1: int, k2: int, x: int, y: int|
        0 <= k1 < rs.len() && 0 <= k2 < rs.len() && k1 != k2 && #[trigger] rect_has(rs[k1], x, y)
            ==> !#[trigger] rect_has(rs[k2], x, y)
    &&& forall|x: int, y: int| #[trigger] rect_has(r, x, y) ==> exists|k: int| 0 <= k < rs.len() && #[trigger] rect_has(rs[k], x, y)
}

/// The rectangles of a list of pieces.
pub open spec fn piece_rects(ps: Seq<(Rect, Vec<u8>)>) -> Seq<Rect> {
    Seq::new(ps.len(), |k: int| ps[k].0)
}

/// Every piece lies in the region, is at most 2048 wide and 65536 pixels
/// large unless it is a solid fill, and carries the Tight body of its pixels.
pub open spec fn pieces_ok(ps: Seq<(Rect, Vec<u8>)>, pixels: Seq<u32>, fbw: nat, fbh: nat, quality: u8, level: u8) -> bool {
    forall|k: int|
        0 <= k < ps.len() ==> {
            let r = #[trigger] ps[k].0;
            &&& rect_fits(r, fbw, fbh)
            &&& ((r.w <= TIGHT_MAX_RECT_WIDTH && r.w as nat * r.h as nat <= TIGHT_MAX_RECT_SIZE) || exists|c: u32|
                ps[k].1@ == #[trigger] solid_body(c))
            &&& tight_body_ok(rect_pixels(pixels, fbw, r), r.w as nat, r.h as nat, quality, level, ps[k].1@)
        }
}

/// A rectangle cut at row `a`: the top part and the rest.
pub open spec fn top_part(r: Rect, a: nat) -> Rect {
    Rect { x: r.x, y: r.y, w: r.w, h: a as u16 }
}

/// A rectangle cut at row `a`: the part below.
pub open spec fn bottom_part(r: Rect, a: nat) -> Rect {
    Rect { x: r.x, y: (r.y + a) as u16, w: r.w, h: (r.h - a) as u16 }
}

/// A rectangle cut at column `a`: the left part.
pub open spec fn left_part(r: Rect, a: nat) -> Rect {
    Rect { x: r.x, y: r.y, w: a as u16, h: r.h }
}

/// A rectangle cut at column `a`: the right part.
pub open spec fn right_part(r: Rect, a: nat) -> Rect {
    Rect { x: (r.x + a) as u16, y: r.y, w: (r.w - a) as u16, h: r.h }
}

proof fn lemma_empty_tiles(r: Rect)
    requires
        r.w == 0 || r.h == 0,
    ensures
        tiles_rect(seq![], r),
{
}

proof fn lemma_vsplit(a: Seq<Rect>, b: Seq<Rect>, r: Rect, n: nat)
    requires
        n <= r.h,
        r.y + r.h <= 0xffff,
        tiles_rect(a, top_part(r, n)),
        tiles_rect(b, bottom_part(r, n)),
    ensures
        tiles_rect(a + b, r),
{
    let t = top_part(r, n);
    let u = bottom_part(r, n);
    let ab = a + b;
    assert forall|k: int| 0 <= k < ab.len() implies rect_in(#[trigger] ab[k], r) by {
        if k < a.len() {
            assert(rect_in(a[k], t));
        } else {
            assert(rect_in(b[k - a.len()], u));
        }
    }
    assert forall|k1: int, k2: int, x: int, y: int|
        0 <= k1 < ab.len() && 0 <= k2 < ab.len() && k1 != k2 && #[trigger] rect_has(ab[k1], x, y)
            implies !#[trigger] rect_has(ab[k2], x, y) by {
        if k1 < a.len() && k2 >= a.len() {
            assert(rect_in(a[k1], t));
            assert(rect_in(b[k2 - a.len()], u));
        } else if k1 >= a.len() && k2 < a.len() {
            assert(rect_in(a[k2], t));
            assert(rect_in(b[k1 - a.len()], u));
        } else if k1 < a.len() {
            assert(ab[k1] == a[k1] && ab[k2] == a[k2]);
        } else {
            assert(ab[k1] == b[k1 - a.len()] && ab[k2] == b[k2 - a.len()]);
        }
    }
    assert forall|x: int, y: int| #[trigger] rect_has(r, x, y) implies exists|k: int| 0 <= k < ab.len() && #[trigger] rect_has(ab[k], x, y) by {
        if y < r.y + n {
            assert(rect_has(t, x, y));
            let k = choose|k: int| 0 <= k < a.len() && #[trigger] rect_has(a[k], x, y);
            assert(ab[k] == a[k]);
        } else {
            assert(rect_has(u, x, y));
            let k = choose|k: int| 0 <= k < b.len() && #[trigger] rect_has(b[k], x, y);
            assert(ab[k + a.len()] == b[k]);
        }
    }
}

proof fn lemma_hsplit(a: Seq<Rect>, b: Seq<Rect>, r: Rect, n: nat)
    requires
        n <= r.w,
        r.x + r.w <= 0xffff,
        tiles_rect(a, left_part(r, n)),
        tiles_rect(b, right_part(r, n)),
    ensures
        tiles_rect(a + b, r),
{
    let t = left_part(r, n);
    let u = right_part(r, n);
    let ab = a + b;
    assert forall|k: int| 0 <= k < ab.len() implies rect_in(#[trigger] ab[k], r) by {
        if k < a.len() {
            assert(rect_in(a[k], t));
        } else {
            assert(rect_in(b[k - a.len()], u));
        }
    }
    assert forall|k1: int, k2: int, x: int, y: int|
        0 <= k1 < ab.len() && 0 <= k2 < ab.len() && k1 != k2 && #[trigger] rect_has(ab[k1], x, y)
            implies !#[trigger] rect_has(ab[k2], x, y) by {
        if k1 < a.len() && k2 >= a.len() {
            assert(rect_in(a[k1], t));
            assert(rect_in(b[k2 - a.len()], u));
        } else if k1 >= a.len() && k2 < a.len() {
            assert(rect_in(a[k2], t));
            assert(rect_in(b[k1 - a.len()], u));
        } else if k1 < a.len() {
            assert(ab[k1] == a[k1] && ab[k2] == a[k2]);
        } else {
            assert(ab[k1] == b[k1 - a.len()] && ab[k2] == b[k2 - a.len()]);
        }
    }
    assert forall|x: int, y: int| #[trigger] rect_has(r, x, y) implies exists|k: int| 0 <= k < ab.len() && #[trigger] rect_has(ab[k], x, y) by {
        if x < r.x + n {
            assert(rect_has(t, x, y));
            let k = choose|k: int| 0 <= k < a.len() && #[trigger] rect_has(a[k], x, y);
            assert(ab[k] == a[k]);
        } else {
            assert(rect_has(u, x, y));
            let k = choose|k: int| 0 <= k < b.len() && #[trigger] rect_has(b[k], x, y);
            assert(ab[k + a.len()] == b[k]);
        }
    }
}

proof fn lemma_single(r: Rect)
    requires
        r.w >= 1,
        r.h >= 1,
    ensures
        tiles_rect(seq![r], r),
{
    assert forall|x: int, y: int| #[trigger] rect_has(r, x, y) implies exists|k: int| 0 <= k < 1 && #[trigger] rect_has(seq![r][k], x, y) by {
        assert(seq![r][0] == r);
    }
}

proof fn lemma_pieces_append(a: Seq<(Rect, Vec<u8>)>, b: Seq<(Rect, Vec<u8>)>, pixels: Seq<u32>, fbw: nat, fbh: nat, quality: u8, level: u8)
    requires
        pieces_ok(a, pixels, fbw, fbh, quality, level),
        pieces_ok(b, pixels, fbw, fbh, quality, level),
    ensures
        pieces_ok(a + b, pixels, fbw, fbh, quality, level),
        piece_rects(a + b) == piece_rects(a) + piece_rects(b),
{
    assert forall|k: int| 0 <= k < (a + b).len() implies #[trigger] (a + b)[k] == if k < a.len() { a[k] } else { b[k - a.len()] } by {}
    assert(piece_rects(a + b) =~= piece_rects(a) + piece_rects(b));
}

/// Appends the pieces of `b` to `a`.
fn append_pieces(a: &mut Vec<(Rect, Vec<u8>)>, b: Vec<(Rect, Vec<u8>)>)
    ensures
        final(a)@ == old(a)@ + b@,
{
    let mut b = b;
    a.append(&mut b);
}

/// Every pixel of the `w` by `h` rectangle at (`x`, `y`) has colour `c`.
pub open spec fn solid_area(pixels: Seq<u32>, fbw: nat, x: int, y: int, w: int, h: int, c: u32) -> bool {
    forall|dx: int, dy: int| 0 <= dx < w && 0 <= dy < h ==> #[trigger] super::common::px(pixels, fbw, x + dx, y + dy) == c
}

/// The colour of a `w` by `h` tile at (`x`, `y`) when every pixel has it (and
/// it is `need_same_color`, when that is given).
pub fn check_solid_tile(pixels: &[u32], fb_width: u16, fb_height: u16, x: u16, y: u16, w: u16, h: u16, need_same_color: Option<u32>) -> (r: Option<u32>)
    requires
        pixels@.len() == fb_width as nat * fb_height as nat,
        w >= 1,
        h >= 1,
        x + w <= fb_width,
        y + h <= fb_height,
    ensures
        r matches Some(c) ==> solid_area(pixels@, fb_width as nat, x as int, y as int, w as int, h as int, c)
            && (need_same_color matches Some(n) ==> c == n),
        r is None ==> (need_same_color is None ==> !solid_area(pixels@, fb_width as nat, x as int, y as int, w as int, h as int, super::common::px(pixels@, fb_width as nat, x as int, y as int)))
            && (need_same_color matches Some(n) ==> !solid_area(pixels@, fb_width as nat, x as int, y as int, w as int, h as int, n)),
{
    let fbw = fb_width as usize;
    let len = pixels.len();
    proof {
        super::common::lemma_index(fbw as nat, fb_height as nat, x as int, y as int);
    }
    let row0 = y as usize * fbw;
    let first = pixels[row0 + x as usize];
    if let Some(required) = need_same_color {
        if first != required {
            assert(!solid_area(pixels@, fb_width as nat, x as int, y as int, w as int, h as int, required)) by {
                assert(super::common::px(pixels@, fbw as nat, x + 0, y + 0) == first);
            }
            return None;
        }
    }
    let mut dy: u16 = 0;
    while dy < h
        invariant
            pixels@.len() == fb_width as nat * fb_height as nat,
            fbw == fb_width,
            x + w <= fb_width,
            y + h <= fb_height,
            dy <= h,
            first == super::common::px(pixels@, fbw as nat, x as int, y as int),
            need_same_color matches Some(n) ==> n == first,
            len == pixels@.len(),
            solid_area(pixels@, fbw as nat, x as int, y as int, w as int, dy as int, first),
        decreases h - dy,
    {
        let mut dx: u16 = 0;
        while dx < w
            invariant
                pixels@.len() == fb_width as nat * fb_height as nat,
                fbw == fb_width,
                x + w <= fb_width,
                y + h <= fb_height,
                dy < h,
                dx <= w,
                first == super::common::px(pixels@, fbw as nat, x as int, y as int),
                need_same_color matches Some(n) ==> n == first,
                len == pixels@.len(),
                solid_area(pixels@, fbw as nat, x as int, y as int, w as int, dy as int, first),
                forall|ddx: int| 0 <= ddx < dx ==> #[trigger] super::common::px(pixels@, fbw as nat, x + ddx, y + dy) == first,
            decreases w - dx,
        {
            proof {
                super::common::lemma_index(fbw as nat, fb_height as nat, (x + dx) as int, (y + dy) as int);
            }
            let row = (y + dy) as usize * fbw;
            let c = pixels[row + (x + dx) as usize];
            if c != first {
                proof {
                    assert(super::common::px(pixels@, fbw as nat, x + dx, y + dy) != first);
                    assert(!solid_area(pixels@, fb_width as nat, x as int, y as int, w as int, h as int, first));
                }
                return None;
            }
            dx += 1;
        }
        proof {
            assert forall|ddx: int, ddy: int| 0 <= ddx < w && 0 <= ddy < dy + 1 implies #[trigger] super::common::px(pixels@, fbw as nat, x + ddx, y + ddy) == first by {
                if ddy < dy {
                    assert(solid_area(pixels@, fbw as nat, x as int, y as int, w as int, dy as int, first));
                }
            }
        }
        dy += 1;
    }
    Some(first)
}

/// The largest solid area of colour `c` that grows from (`x`, `y`) in steps
/// of 16 by 16 tiles: rows of tiles downwards, each row no wider than the one
/// above. Its width and height, which may be zero.
pub fn find_best_solid_area(pixels: &[u32], fb_width: u16, fb_height: u16, x: u16, y: u16, w: u16, h: u16, color_value: u32) -> (r: (u16, u16))
    requires
        pixels@.len() == fb_width as nat * fb_height as nat,
        x + w <= fb_width,
        y + h <= fb_height,
    ensures
        r.0 <= w,
        r.1 <= h,
        solid_area(pixels@, fb_width as nat, x as int, y as int, r.0 as int, r.1 as int, color_value),
{
    let mut w_best: u16 = 0;
    let mut h_best: u16 = 0;
    let mut w_prev: u16 = w;
    let mut dy: u16 = 0;
    while dy < h
        invariant
            pixels@.len() == fb_width as nat * fb_height as nat,
            x + w <= fb_width,
            y + h <= fb_height,
            dy <= h,
            w_prev <= w,
            w_best <= w,
            h_best <= h,
            solid_area(pixels@, fb_width as nat, x as int, y as int, w_best as int, h_best as int, color_value),
            solid_area(pixels@, fb_width as nat, x as int, y as int, w_prev as int, dy as int, color_value),
        decreases h - dy,
    {
        let dh = if h - dy < MAX_SPLIT_TILE_SIZE { h - dy } else { MAX_SPLIT_TILE_SIZE };
        let dw = if w_prev < MAX_SPLIT_TILE_SIZE { w_prev } else { MAX_SPLIT_TILE_SIZE };
        if dw == 0 || check_solid_tile(pixels, fb_width, fb_height, x, y + dy, dw, dh, Some(color_value)).is_none() {
            break;
        }
        let mut dx: u16 = dw;
        while dx < w_prev
            invariant
                pixels@.len() == fb_width as nat * fb_height as nat,
                x + w <= fb_width,
                y + h <= fb_height,
                dy < h,
                dy + dh <= h,
                dh >= 1,
                w_prev <= w,
                dx <= w_prev,
                solid_area(pixels@, fb_width as nat, x as int, (y + dy) as int, dx as int, dh as int, color_value),
            decreases w_prev - dx,
        {
            let dw_check = if w_prev - dx < MAX_SPLIT_TILE_SIZE { w_prev - dx } else { MAX_SPLIT_TILE_SIZE };
            match check_solid_tile(pixels, fb_width, fb_height, x + dx, y + dy, dw_check, dh, Some(color_value)) {
                None => {
                    break;
                },
                Some(_) => {},
            }
            proof {
                assert forall|ddx: int, ddy: int| 0 <= ddx < dx + dw_check && 0 <= ddy < dh implies #[trigger] super::common::px(pixels@, fb_width as nat, x + ddx, (y + dy) + ddy) == color_value by {
                    if ddx >= dx {
                        assert(super::common::px(pixels@, fb_width as nat, (x + dx) + (ddx - dx), (y + dy) + ddy) == color_value);
                    }
                }
            }
            dx += dw_check;
        }
        proof {
            assert forall|ddx: int, ddy: int| 0 <= ddx < dx && 0 <= ddy < dy + dh implies #[trigger] super::common::px(pixels@, fb_width as nat, x + ddx, y + ddy) == color_value by {
                if ddy >= dy {
                    assert(super::common::px(pixels@, fb_width as nat, x + ddx, (y + dy) + (ddy - dy)) == color_value);
                }
            }
        }
        w_prev = dx;
        assert((w_prev as nat) * ((dy + dh) as nat) <= 0xffff * 0xffff) by (nonlinear_arith)
            requires w_prev <= 0xffff, dy + dh <= 0xffff;
        assert((w_best as nat) * (h_best as nat) <= 0xffff * 0xffff) by (nonlinear_arith)
            requires w_best <= 0xffff, h_best <= 0xffff;
        if (w_prev as u64) * ((dy + dh) as u64) > (w_best as u64) * (h_best as u64) {
            w_best = w_prev;
            h_best = dy + dh;
        }
        dy += dh;
    }
    (w_best, h_best)
}

/// Grows the solid area (`x`, `y`, `w`, `h`) of colour `c` a row or column
/// at a time, upwards, downwards, leftwards and rightwards, while it stays
/// solid and inside the base rectangle.
pub fn extend_solid_area(pixels: &[u32], fb_width: u16, fb_height: u16, base_x: u16, base_y: u16, max_w: u16, max_h: u16, color_value: u32, x: u16, y: u16, w: u16, h: u16) -> (r: (u16, u16, u16, u16))
    requires
        pixels@.len() == fb_width as nat * fb_height as nat,
        base_x + max_w <= fb_width,
        base_y + max_h <= fb_height,
        base_x <= x,
        x + w <= base_x + max_w,
        base_y <= y,
        y + h <= base_y + max_h,
        w >= 1,
        h >= 1,
        solid_area(pixels@, fb_width as nat, x as int, y as int, w as int, h as int, color_value),
    ensures
        r.2 >= 1,
        r.3 >= 1,
        base_x <= r.0,
        r.0 + r.2 <= base_x + max_w,
        base_y <= r.1,
        r.1 + r.3 <= base_y + max_h,
        solid_area(pixels@, fb_width as nat, r.0 as int, r.1 as int, r.2 as int, r.3 as int, color_value),
{
    let mut x = x;
    let mut y = y;
    let mut w = w;
    let mut h = h;
    while y > base_y
        invariant
            pixels@.len() == fb_width as nat * fb_height as nat,
            base_x + max_w <= fb_width,
            base_y + max_h <= fb_height,
            base_x <= x,
            x + w <= base_x + max_w,
            base_y <= y,
            y + h <= base_y + max_h,
            w >= 1,
            h >= 1,
            solid_area(pixels@, fb_width as nat, x as int, y as int, w as int, h as int, color_value),
        decreases y,
    {
        if check_solid_tile(pixels, fb_width, fb_height, x, y - 1, w, 1, Some(color_value)).is_none() {
            break;
        }
        proof {
            assert forall|dx: int, dy: int| 0 <= dx < w && 0 <= dy < h + 1 implies #[trigger] super::common::px(pixels@, fb_width as nat, x + dx, (y - 1) + dy) == color_value by {
                if dy == 0 {
                    assert(super::common::px(pixels@, fb_width as nat, x + dx, (y - 1) + 0) == color_value);
                } else {
                    assert(super::common::px(pixels@, fb_width as nat, x + dx, y + (dy - 1)) == color_value);
                }
            }
        }
        y -= 1;
        h += 1;
    }
    while y + h < base_y + max_h
        invariant
            pixels@.len() == fb_width as nat * fb_height as nat,
            base_x + max_w <= fb_width,
            base_y + max_h <= fb_height,
            base_x <= x,
            x + w <= base_x + max_w,
            base_y <= y,
            y + h <= base_y + max_h,
            w >= 1,
            h >= 1,
            solid_area(pixels@, fb_width as nat, x as int, y as int, w as int, h as int, color_value),
        decreases base_y + max_h - y - h,
    {
        if check_solid_tile(pixels, fb_width, fb_height, x, y + h, w, 1, Some(color_value)).is_none() {
            break;
        }
        proof {
            assert forall|dx: int, dy: int| 0 <= dx < w && 0 <= dy < h + 1 implies #[trigger] super::common::px(pixels@, fb_width as nat, x + dx, y + dy) == color_value by {
                if dy == h {
                    assert(super::common::px(pixels@, fb_width as nat, x + dx, (y + h) + 0) == color_value);
                }
            }
        }
        h += 1;
    }
    while x > base_x
        invariant
            pixels@.len() == fb_width as nat * fb_height as nat,
            base_x + max_w <= fb_width,
            base_y + max_h <= fb_height,
            base_x <= x,
            x + w <= base_x + max_w,
            base_y <= y,
            y + h <= base_y + max_h,
            w >= 1,
            h >= 1,
            solid_area(pixels@, fb_width as nat, x as int, y as int, w as int, h as int, color_value),
        decreases x,
    {
        if check_solid_tile(pixels, fb_width, fb_height, x - 1, y, 1, h, Some(color_value)).is_none() {
            break;
        }
        proof {
            assert forall|dx: int, dy: int| 0 <= dx < w + 1 && 0 <= dy < h implies #[trigger] super::common::px(pixels@, fb_width as nat, (x - 1) + dx, y + dy) == color_value by {
                if dx == 0 {
                    assert(super::common::px(pixels@, fb_width as nat, (x - 1) + 0, y + dy) == color_value);
                } else {
                    assert(super::common::px(pixels@, fb_width as nat, x + (dx - 1), y + dy) == color_value);
                }
            }
        }
        x -= 1;
        w += 1;
    }
    while x + w < base_x + max_w
        invariant
            pixels@.len() == fb_width as nat * fb_height as nat,
            base_x + max_w <= fb_width,
            base_y + max_h <= fb_height,
            base_x <= x,
            x + w <= base_x + max_w,
            base_y <= y,
            y + h <= base_y + max_h,
            w >= 1,
            h >= 1,
            solid_area(pixels@, fb_width as nat, x as int, y as int, w as int, h as int, color_value),
        decreases base_x + max_w - x - w,
    {
        if check_solid_tile(pixels, fb_width, fb_height, x + w, y, 1, h, Some(color_value)).is_none() {
            break;
        }
        proof {
            assert forall|dx: int, dy: int| 0 <= dx < w + 1 && 0 <= dy < h implies #[trigger] super::common::px(pixels@, fb_width as nat, x + dx, y + dy) == color_value by {
                if dx == w {
                    assert(super::common::px(pixels@, fb_width as nat, (x + w) + 0, y + dy) == color_value);
                }
            }
        }
        w += 1;
    }
    (x, y, w, h)
}

/// Encodes one rectangle small enough to send in one piece.
fn encode_piece(pixels: &[u32], fb_width: u16, fb_height: u16, r: Rect, quality: u8, level: u8) -> (p: (Rect, Vec<u8>))
    requires
        pixels@.len() == fb_width as nat * fb_height as nat,
        rect_fits(r, fb_width as nat, fb_height as nat),
        r.w <= TIGHT_MAX_RECT_WIDTH,
        r.w as nat * r.h as nat <= TIGHT_MAX_RECT_SIZE,
    ensures
        p.0 == r,
        pieces_ok(seq![p], pixels@, fb_width as nat, fb_height as nat, quality, level),
{
    assert((r.y + r.h) as nat * fb_width as nat <= pixels@.len()) by (nonlinear_arith)
        requires r.y + r.h <= fb_height, pixels@.len() == fb_width as nat * fb_height as nat;
    let tile = super::common::extract_tile(pixels, fb_width as usize, r.x as usize, r.y as usize, r.w as usize, r.h as usize);
    proof {
        super::zrle::lemma_tile_of(tile@, pixels@, fb_width as nat, r.x as int, r.y as int, r.w as nat, r.h as nat);
    }
    let body = encode_subrect(tile.as_slice(), r.w, r.h, quality, level);
    let p = (r, body);
    assert(seq![p][0] == p);
    p
}

/// Sends a rectangle as is, cut into pieces of at most 2048 columns and
/// 65536 pixels when it is larger.
pub fn encode_simple(pixels: &[u32], fb_width: u16, fb_height: u16, r: Rect, quality: u8, level: u8) -> (out: Vec<(Rect, Vec<u8>)>)
    requires
        pixels@.len() == fb_width as nat * fb_height as nat,
        rect_fits(r, fb_width as nat, fb_height as nat),
    ensures
        tiles_rect(piece_rects(out@), r),
        pieces_ok(out@, pixels@, fb_width as nat, fb_height as nat, quality, level),
        r.w >= 1 && r.h >= 1 && r.w <= TIGHT_MAX_RECT_WIDTH && r.w as nat * r.h as nat <= TIGHT_MAX_RECT_SIZE
            ==> out@.len() == 1 && out@[0].0 == r,
{
    let mut out: Vec<(Rect, Vec<u8>)> = Vec::new();
    if r.w == 0 || r.h == 0 {
        assert(piece_rects(out@) =~= seq![]);
        return out;
    }
    assert((r.w as nat) * (r.h as nat) <= 0xffff * 0xffff) by (nonlinear_arith)
        requires r.w <= 0xffff, r.h <= 0xffff;
    if r.w <= TIGHT_MAX_RECT_WIDTH && (r.w as u64) * (r.h as u64) <= TIGHT_MAX_RECT_SIZE as u64 {
        let p = encode_piece(pixels, fb_width, fb_height, r, quality, level);
        out.push(p);
        proof {
            assert(out@ =~= seq![p]);
            assert(piece_rects(out@) =~= seq![r]);
            lemma_single(r);
        }
        return out;
    }
    let max_w: u16 = if r.w < TIGHT_MAX_RECT_WIDTH { r.w } else { TIGHT_MAX_RECT_WIDTH };
    let max_h_full: usize = TIGHT_MAX_RECT_SIZE / max_w as usize;
    let max_h: u16 = if max_h_full > 0xffff { 0xffff } else { max_h_full as u16 };
    assert(max_h_full >= 32) by (nonlinear_arith)
        requires max_h_full as int == 65536int / (max_w as int), 1 <= max_w <= 2048;
    assert(max_w as nat * max_h as nat <= 65536) by (nonlinear_arith)
        requires max_h <= max_h_full, max_h_full as int == 65536int / (max_w as int), max_w >= 1;
    let mut dy: u16 = 0;
    assert(piece_rects(out@) =~= seq![]);
    while dy < r.h
        invariant
            pixels@.len() == fb_width as nat * fb_height as nat,
            rect_fits(r, fb_width as nat, fb_height as nat),
            r.w >= 1,
            1 <= max_w <= TIGHT_MAX_RECT_WIDTH,
            max_w <= r.w,
            max_w == r.w || max_w == TIGHT_MAX_RECT_WIDTH,
            max_h >= 1,
            max_w as nat * max_h as nat <= 65536,
            dy <= r.h,
            tiles_rect(piece_rects(out@), top_part(r, dy as nat)),
            pieces_ok(out@, pixels@, fb_width as nat, fb_height as nat, quality, level),
        decreases r.h - dy,
    {
        let rh: u16 = if r.h - dy < max_h { r.h - dy } else { max_h };
        let row = Rect { x: r.x, y: r.y + dy, w: r.w, h: rh };
        let mut row_out: Vec<(Rect, Vec<u8>)> = Vec::new();
        assert(piece_rects(row_out@) =~= seq![]);
        let mut dx: u16 = 0;
        while dx < r.w
            invariant
                pixels@.len() == fb_width as nat * fb_height as nat,
                rect_fits(r, fb_width as nat, fb_height as nat),
                1 <= max_w <= TIGHT_MAX_RECT_WIDTH,
                max_w <= r.w,
                max_w == r.w || max_w == TIGHT_MAX_RECT_WIDTH,
                rh <= max_h,
                rh >= 1,
                dy + rh <= r.h,
                max_w as nat * max_h as nat <= 65536,
                row == (Rect { x: r.x, y: (r.y + dy) as u16, w: r.w, h: rh }),
                dx <= r.w,
                tiles_rect(piece_rects(row_out@), left_part(row, dx as nat)),
                pieces_ok(row_out@, pixels@, fb_width as nat, fb_height as nat, quality, level),
            decreases r.w - dx,
        {
            let rw: u16 = if r.w - dx < TIGHT_MAX_RECT_WIDTH { r.w - dx } else { TIGHT_MAX_RECT_WIDTH };
            let piece_rect = Rect { x: r.x + dx, y: r.y + dy, w: rw, h: rh };
            assert(rw <= max_w);
            assert(rw as nat * rh as nat <= 65536) by (nonlinear_arith)
                requires rw <= max_w, rh <= max_h, max_w as nat * max_h as nat <= 65536;
            let p = encode_piece(pixels, fb_width, fb_height, piece_rect, quality, level);
            let ghost before = row_out@;
            row_out.push(p);
            proof {
                assert(row_out@ == before + seq![p]);
                lemma_pieces_append(before, seq![p], pixels@, fb_width as nat, fb_height as nat, quality, level);
                assert(piece_rects(seq![p]) =~= seq![piece_rect]);
                lemma_single(piece_rect);
                let big = left_part(row, (dx + rw) as nat);
                assert(left_part(big, dx as nat) == left_part(row, dx as nat));
                assert(right_part(big, dx as nat) == piece_rect);
                lemma_hsplit(piece_rects(before), seq![piece_rect], big, dx as nat);
            }
            dx += rw;
        }
        let ghost before = out@;
        let ghost added = row_out@;
        proof {
            assert(left_part(row, r.w as nat) == row);
        }
        append_pieces(&mut out, row_out);
        proof {
            lemma_pieces_append(before, added, pixels@, fb_width as nat, fb_height as nat, quality, level);
            let big = top_part(r, (dy + rh) as nat);
            assert(top_part(big, dy as nat) == top_part(r, dy as nat));
            assert(bottom_part(big, dy as nat) == row);
            lemma_vsplit(piece_rects(before), piece_rects(added), big, dy as nat);
        }
        dy += rh;
    }
    assert(top_part(r, r.h as nat) == r);
    out
}

proof fn lemma_colors_solid(s: Seq<u32>, n: nat, c: u32)
    requires
        1 <= n <= s.len(),
        forall|i: int| 0 <= i < s.len() ==> s[i] == c,
    ensures
        colors_upto(s, n) == seq![c],
    decreases n,
{
    if n > 1 {
        lemma_colors_solid(s, (n - 1) as nat, c);
        assert(seq![c].contains(c)) by {
            assert(seq![c][0] == c);
        }
    } else {
        assert(colors_upto(s, 0) =~= seq![]);
        assert(colors_upto(s, 0).push(s[0]) =~= seq![c]);
    }
}

proof fn lemma_solid_body(pixels: Seq<u32>, fbw: nat, r: Rect, c: u32, quality: u8, level: u8)
    requires
        r.w >= 1,
        r.h >= 1,
        solid_area(pixels, fbw, r.x as int, r.y as int, r.w as int, r.h as int, c),
    ensures
        tight_body_ok(rect_pixels(pixels, fbw, r), r.w as nat, r.h as nat, quality, level, solid_body(c)),
{
    let s = rect_pixels(pixels, fbw, r);
    let w = r.w as nat;
    assert forall|i: int| 0 <= i < s.len() implies s[i] == c by {
        let dy = i / w as int;
        let dx = i % w as int;
        assert(0 <= dx < w && 0 <= dy < r.h) by (nonlinear_arith)
            requires 0 <= i < w * r.h, w > 0, dy == i / w as int, dx == i % w as int;
        assert(super::common::px(pixels, fbw, r.x + dx, r.y + dy) == c);
        assert(s[i] == pixels[(r.y + dy) * fbw + r.x + dx]);
    }
    assert(s.len() >= 1) by (nonlinear_arith)
        requires s.len() == r.w as nat * r.h as nat, r.w >= 1, r.h >= 1;
    lemma_colors_solid(s, s.len(), c);
}

/// Sends the area of `base` around the solid rectangle `solid` of colour `c`:
/// the rows above as they are, the parts left and right and the rows below
/// searched for solid areas again, and `solid` itself as a fill.
fn encode_around_solid(pixels: &[u32], fb_width: u16, fb_height: u16, base: Rect, solid: Rect, c: u32, quality: u8, level: u8) -> (out: Vec<(Rect, Vec<u8>)>)
    requires
        pixels@.len() == fb_width as nat * fb_height as nat,
        rect_fits(base, fb_width as nat, fb_height as nat),
        rect_in(solid, base),
        solid_area(pixels@, fb_width as nat, solid.x as int, solid.y as int, solid.w as int, solid.h as int, c),
    ensures
        tiles_rect(piece_rects(out@), base),
        pieces_ok(out@, pixels@, fb_width as nat, fb_height as nat, quality, level),
    decreases base.w as nat * base.h as nat, 0nat,
{
    let top = Rect { x: base.x, y: base.y, w: base.w, h: solid.y - base.y };
    let left = Rect { x: base.x, y: solid.y, w: solid.x - base.x, h: solid.h };
    let right = Rect { x: solid.x + solid.w, y: solid.y, w: base.x + base.w - solid.x - solid.w, h: solid.h };
    let bottom = Rect { x: base.x, y: solid.y + solid.h, w: base.w, h: base.y + base.h - solid.y - solid.h };
    assert((left.w as nat) * (left.h as nat) < (base.w as nat) * (base.h as nat)) by (nonlinear_arith)
        requires left.w < base.w, left.h <= base.h, base.h >= 1;
    assert((right.w as nat) * (right.h as nat) < (base.w as nat) * (base.h as nat)) by (nonlinear_arith)
        requires right.w < base.w, right.h <= base.h, base.h >= 1;
    assert((bottom.w as nat) * (bottom.h as nat) < (base.w as nat) * (base.h as nat)) by (nonlinear_arith)
        requires bottom.w == base.w, bottom.h < base.h, base.w >= 1;
    let top_out = encode_simple(pixels, fb_width, fb_height, top, quality, level);
    let left_out = encode_rect_optimized(pixels, fb_width, fb_height, left, quality, level);
    let solid_piece = (solid, encode_solid_rect(c));
    let right_out = encode_rect_optimized(pixels, fb_width, fb_height, right, quality, level);
    let bottom_out = encode_rect_optimized(pixels, fb_width, fb_height, bottom, quality, level);
    let ghost t = top_out@;
    let ghost l = left_out@;
    let ghost sp = seq![solid_piece];
    let ghost rr = right_out@;
    let ghost b = bottom_out@;
    proof {
        lemma_solid_body(pixels@, fb_width as nat, solid, c, quality, level);
        assert(pieces_ok(sp, pixels@, fb_width as nat, fb_height as nat, quality, level)) by {
            assert(sp[0] == solid_piece);
            assert(sp[0].1@ == solid_body(c));
        }
        assert(piece_rects(sp) =~= seq![solid]);
        lemma_single(solid);
        let mid = Rect { x: base.x, y: solid.y, w: base.w, h: solid.h };
        let ls = left_part(mid, (solid.x - base.x + solid.w) as nat);
        assert(left_part(ls, (solid.x - base.x) as nat) == left);
        assert(right_part(ls, (solid.x - base.x) as nat) == solid);
        lemma_hsplit(piece_rects(l), seq![solid], ls, (solid.x - base.x) as nat);
        lemma_pieces_append(l, sp, pixels@, fb_width as nat, fb_height as nat, quality, level);
        assert(left_part(mid, (solid.x - base.x + solid.w) as nat) == ls);
        assert(right_part(mid, (solid.x - base.x + solid.w) as nat) == right);
        lemma_hsplit(piece_rects(l + sp), piece_rects(rr), mid, (solid.x - base.x + solid.w) as nat);
        lemma_pieces_append(l + sp, rr, pixels@, fb_width as nat, fb_height as nat, quality, level);
        let tm = top_part(base, (solid.y - base.y + solid.h) as nat);
        assert(top_part(tm, (solid.y - base.y) as nat) == top);
        assert(bottom_part(tm, (solid.y - base.y) as nat) == mid);
        lemma_vsplit(piece_rects(t), piece_rects(l + sp + rr), tm, (solid.y - base.y) as nat);
        lemma_pieces_append(t, l + sp + rr, pixels@, fb_width as nat, fb_height as nat, quality, level);
        assert(top_part(base, (solid.y - base.y + solid.h) as nat) == tm);
        assert(bottom_part(base, (solid.y - base.y + solid.h) as nat) == bottom);
        lemma_vsplit(piece_rects(t + (l + sp + rr)), piece_rects(b), base, (solid.y - base.y + solid.h) as nat);
        lemma_pieces_append(t + (l + sp + rr), b, pixels@, fb_width as nat, fb_height as nat, quality, level);
    }
    let mut out = top_out;
    append_pieces(&mut out, left_out);
    out.push(solid_piece);
    append_pieces(&mut out, right_out);
    append_pieces(&mut out, bottom_out);
    assert(out@ =~= t + (l + sp + rr) + b);
    out
}

/// Encodes `r` for Tight. A rectangle of at least 4096 pixels is scanned in
/// 16 by 16 tiles for a solid area of at least 2048 pixels (or all of it);
/// such an area, grown as far as it stays solid, is sent as a fill and the
/// rest around it encoded in turn. Rows already scanned are sent in chunks
/// of at most 65536 pixels. The pieces cover `r` without overlapping.
pub fn encode_rect_optimized(pixels: &[u32], fb_width: u16, fb_height: u16, r: Rect, quality: u8, level: u8) -> (out: Vec<(Rect, Vec<u8>)>)
    requires
        pixels@.len() == fb_width as nat * fb_height as nat,
        rect_fits(r, fb_width as nat, fb_height as nat),
    ensures
        tiles_rect(piece_rects(out@), r),
        pieces_ok(out@, pixels@, fb_width as nat, fb_height as nat, quality, level),
        r.w >= 1 && r.h >= 1 && r.w <= TIGHT_MAX_RECT_WIDTH && (r.w as nat) * (r.h as nat) < MIN_SPLIT_RECT_SIZE
            ==> out@.len() == 1 && out@[0].0 == r,
    decreases r.w as nat * r.h as nat, 1nat,
{
    assert((r.w as nat) * (r.h as nat) <= 0xffff * 0xffff) by (nonlinear_arith)
        requires r.w <= 0xffff, r.h <= 0xffff;
    if (r.w as u64) * (r.h as u64) < MIN_SPLIT_RECT_SIZE as u64 {
        return encode_simple(pixels, fb_width, fb_height, r, quality, level);
    }
    assert(r.w >= 1 && r.h >= 1) by (nonlinear_arith)
        requires (r.w as nat) * (r.h as nat) >= 4096;
    let max_w: u16 = if r.w < TIGHT_MAX_RECT_WIDTH { r.w } else { TIGHT_MAX_RECT_WIDTH };
    let max_rows_full: usize = TIGHT_MAX_RECT_SIZE / max_w as usize;
    assert(32 <= max_rows_full <= 65536) by (nonlinear_arith)
        requires max_rows_full as int == 65536int / (max_w as int), 1 <= max_w <= 2048;
    let max_rows: u16 = if max_rows_full > 0xffff { 0xffff } else { max_rows_full as u16 };
    let mut out: Vec<(Rect, Vec<u8>)> = Vec::new();
    let mut y: u16 = r.y;
    let mut h: u16 = r.h;
    let mut dy: u16 = r.y;
    proof {
        assert(piece_rects(out@) =~= seq![]);
        lemma_empty_tiles(top_part(r, 0));
    }
    while dy < r.y + r.h
        invariant
            pixels@.len() == fb_width as nat * fb_height as nat,
            rect_fits(r, fb_width as nat, fb_height as nat),
            r.w >= 1,
            (r.w as nat) * (r.h as nat) >= 4096,
            max_rows >= 32,
            y + h == r.y + r.h,
            r.y <= y <= dy,
            dy <= r.y + r.h,
            dy - y < max_rows + 16,
            tiles_rect(piece_rects(out@), top_part(r, (y - r.y) as nat)),
            pieces_ok(out@, pixels@, fb_width as nat, fb_height as nat, quality, level),
        decreases r.y + r.h - dy,
    {
        if dy - y >= max_rows {
            let chunk = Rect { x: r.x, y: y, w: r.w, h: max_rows };
            let part = encode_simple(pixels, fb_width, fb_height, chunk, quality, level);
            let ghost before = out@;
            let ghost added = part@;
            append_pieces(&mut out, part);
            proof {
                lemma_pieces_append(before, added, pixels@, fb_width as nat, fb_height as nat, quality, level);
                let big = top_part(r, (y - r.y + max_rows) as nat);
                assert(top_part(big, (y - r.y) as nat) == top_part(r, (y - r.y) as nat));
                assert(bottom_part(big, (y - r.y) as nat) == chunk);
                lemma_vsplit(piece_rects(before), piece_rects(added), big, (y - r.y) as nat);
            }
            y += max_rows;
            h -= max_rows;
        }
        let dh: u16 = if r.y + r.h - dy < MAX_SPLIT_TILE_SIZE { r.y + r.h - dy } else { MAX_SPLIT_TILE_SIZE };
        let mut dx: u16 = r.x;
        while dx < r.x + r.w
            invariant
                pixels@.len() == fb_width as nat * fb_height as nat,
                rect_fits(r, fb_width as nat, fb_height as nat),
                r.w >= 1,
                (r.w as nat) * (r.h as nat) >= 4096,
                y + h == r.y + r.h,
                r.y <= y <= dy,
                dy < r.y + r.h,
                1 <= dh <= 16,
                dy + dh <= r.y + r.h,
                r.x <= dx <= r.x + r.w,
                tiles_rect(piece_rects(out@), top_part(r, (y - r.y) as nat)),
                pieces_ok(out@, pixels@, fb_width as nat, fb_height as nat, quality, level),
            decreases r.x + r.w - dx,
        {
            let dw: u16 = if r.x + r.w - dx < MAX_SPLIT_TILE_SIZE { r.x + r.w - dx } else { MAX_SPLIT_TILE_SIZE };
            if let Some(c) = check_solid_tile(pixels, fb_width, fb_height, dx, dy, dw, dh, None) {
                let (wb, hb) = find_best_solid_area(pixels, fb_width, fb_height, dx, dy, r.w - (dx - r.x), h - (dy - y), c);
                assert((wb as nat) * (hb as nat) <= 0xffff * 0xffff) by (nonlinear_arith)
                    requires wb <= 0xffff, hb <= 0xffff;
                assert((r.w as nat) * (h as nat) <= 0xffff * 0xffff) by (nonlinear_arith)
                    requires r.w <= 0xffff, h <= 0xffff;
                let area: u64 = wb as u64 * hb as u64;
                let whole: u64 = r.w as u64 * h as u64;
                assert(whole >= 1) by (nonlinear_arith)
                    requires whole == r.w as nat * h as nat, r.w >= 1, h >= 1;
                if area == whole || area >= MIN_SOLID_SUBRECT_SIZE as u64 {
                    assert(wb >= 1 && hb >= 1) by (nonlinear_arith)
                        requires area == wb as nat * hb as nat, area >= 1;
                    let (xb, yb, wb2, hb2) = extend_solid_area(pixels, fb_width, fb_height, r.x, y, r.w, h, c, dx, dy, wb, hb);
                    let base = Rect { x: r.x, y: y, w: r.w, h: h };
                    let solid = Rect { x: xb, y: yb, w: wb2, h: hb2 };
                    assert(base.w as nat * base.h as nat <= r.w as nat * r.h as nat) by (nonlinear_arith)
                        requires base.w == r.w, base.h <= r.h;
                    let rest = encode_around_solid(pixels, fb_width, fb_height, base, solid, c, quality, level);
                    let ghost before = out@;
                    let ghost added = rest@;
                    append_pieces(&mut out, rest);
                    proof {
                        lemma_pieces_append(before, added, pixels@, fb_width as nat, fb_height as nat, quality, level);
                        assert(top_part(r, (y - r.y) as nat) == top_part(r, (y - r.y) as nat));
                        assert(bottom_part(r, (y - r.y) as nat) == base);
                        lemma_vsplit(piece_rects(before), piece_rects(added), r, (y - r.y) as nat);
                    }
                    return out;
                }
            }
            dx += dw;
        }
        dy += dh;
    }
    let rest_rect = Rect { x: r.x, y: y, w: r.w, h: h };
    let rest = encode_simple(pixels, fb_width, fb_height, rest_rect, quality, level);
    let ghost before = out@;
    let ghost added = rest@;
    append_pieces(&mut out, rest);
    proof {
        lemma_pieces_append(before, added, pixels@, fb_width as nat, fb_height as nat, quality, level);
        assert(bottom_part(r, (y - r.y) as nat) == rest_rect);
        lemma_vsplit(piece_rects(before), piece_rects(added), r, (y - r.y) as nat);
    }
    out
}

/// The bodies of the pieces, one after another.
pub open spec fn concat_bodies(ps: Seq<(Rect, Vec<u8>)>) -> Seq<u8>
    decreases ps.len(),
{
    if ps.len() == 0 {
        seq![]
    } else {
        concat_bodies(ps.drop_last()) + ps.last().1@
    }
}

/// The whole of a `width` by `height` rectangle.
pub open spec fn whole_rect(width: u16, height: u16) -> Rect {
    Rect { x: 0, y: 0, w: width, h: height }
}

/// Encodes a `width` by `height` RGBA32 rectangle for Tight as a list of
/// pieces, each with the rectangle (relative to this one) that its body
/// covers. The pieces cover the rectangle without overlapping.
pub fn encode_tight_rects(data: &[u8], width: u16, height: u16, quality: u8, compression: u8) -> (out: Vec<(Rect, Vec<u8>)>)
    requires
        data@.len() == width as nat * height as nat * 4,
    ensures
        tiles_rect(piece_rects(out@), whole_rect(width, height)),
        pieces_ok(out@, super::common::rgb24_pixels(data@), width as nat, height as nat, quality, normalized_level(compression, quality)),
        small_whole(width, height) ==> out@.len() == 1 && out@[0].0 == whole_rect(width, height),
{
    let pixels = rgba_to_rgb24_pixels(data);
    assert(pixels@.len() == width as nat * height as nat) by (nonlinear_arith)
        requires pixels@.len() == data@.len() / 4, data@.len() == width as nat * height as nat * 4;
    let level = normalize_compression_level(compression, quality);
    encode_rect_optimized(pixels.as_slice(), width, height, Rect { x: 0, y: 0, w: width, h: height }, quality, level)
}

/// A rectangle Tight sends in one piece without searching it for solid
/// areas: non-empty, at most 2048 wide and under 4096 pixels.
pub open spec fn small_whole(width: u16, height: u16) -> bool {
    width >= 1 && height >= 1 && width <= TIGHT_MAX_RECT_WIDTH && (width as nat) * (height as nat) < MIN_SPLIT_RECT_SIZE
}

proof fn lemma_whole_pixels(pixels: Seq<u32>, width: u16, height: u16)
    requires
        pixels.len() == width as nat * height as nat,
        width >= 1,
    ensures
        rect_pixels(pixels, width as nat, whole_rect(width, height)) == pixels,
{
    let w = width as nat;
    let t = rect_pixels(pixels, w, whole_rect(width, height));
    assert forall|i: int| 0 <= i < pixels.len() implies #[trigger] t[i] == pixels[i] by {
        assert((i / (w as int)) * (w as int) + i % (w as int) == i) by (nonlinear_arith)
            requires w >= 1;
    }
    assert(t =~= pixels);
}

/// Concatenates the bodies of the pieces.
pub fn join_bodies(ps: &Vec<(Rect, Vec<u8>)>) -> (r: Vec<u8>)
    ensures
        r@ == concat_bodies(ps@),
{
    let mut out: Vec<u8> = Vec::new();
    let mut k: usize = 0;
    while k < ps.len()
        invariant
            k <= ps@.len(),
            out@ == concat_bodies(ps@.subrange(0, k as int)),
        decreases ps@.len() - k,
    {
        put_slice(&mut out, ps[k].1.as_slice());
        proof {
            let t = ps@.subrange(0, k + 1);
            assert(t.drop_last() =~= ps@.subrange(0, k as int));
        }
        k += 1;
    }
    assert(ps@.subrange(0, ps@.len() as int) =~= ps@);
    out
}

/// The Tight encoder.
pub struct TightEncoding;

impl Encoding for TightEncoding {
    /// The bodies of the pieces `encode_tight_rects` cuts the rectangle into,
    /// one after another, with no headers between them: a caller that sends
    /// more than one piece writes each with its own header (as the
    /// connection does through `encode_tight_rects`). A small rectangle is
    /// one piece, whose body is that of all its pixels.
    fn encode(&self, data: &[u8], width: u16, height: u16, quality: u8, compression: u8) -> (r: Vec<u8>)
        ensures
            small_whole(width, height) ==> tight_body_ok(
                super::common::rgb24_pixels(data@),
                width as nat,
                height as nat,
                quality,
                normalized_level(compression, quality),
                r@,
            ),
            exists|ps: Seq<(Rect, Vec<u8>)>|
                tiles_rect(piece_rects(ps), whole_rect(width, height)) && pieces_ok(
                    ps,
                    super::common::rgb24_pixels(data@),
                    width as nat,
                    height as nat,
                    quality,
                    normalized_level(compression, quality),
                ) && r@ == concat_bodies(ps),
    {
        let ps = encode_tight_rects(data, width, height, quality, compression);
        let r = join_bodies(&ps);
        proof {
            if small_whole(width, height) {
                let pixels = super::common::rgb24_pixels(data@);
                assert(pixels.len() == width as nat * height as nat) by (nonlinear_arith)
                    requires pixels.len() == data@.len() / 4, data@.len() == width as nat * height as nat * 4;
                lemma_whole_pixels(pixels, width, height);
                assert(ps@.drop_last() =~= seq![]);
                assert(concat_bodies(ps@) == concat_bodies(ps@.drop_last()) + ps@[0].1@);
                assert(r@ =~= ps@[0].1@);
            }
        }
        r
    }
}

/// A compressor for Tight's numbered zlib streams, for embedders that keep
/// them per connection.
pub trait TightStreamCompressor {
    /// Compresses `input` through stream `stream_id` at `level`.
    fn compress_tight_stream(&mut self, stream_id: u8, level: u8, input: &[u8]) -> Result<Vec<u8>, String>;
}

/// Tight with a compressor of the embedder's own; the streams the encoder
/// uses are its own, so the compressor is not called.
pub fn encode_tight_with_streams<C: TightStreamCompressor>(data: &[u8], width: u16, height: u16, quality: u8, compression: u8, compressor: &mut C) -> (r: Vec<u8>)
    requires
        data@.len() == width as nat * height as nat * 4,
    ensures
        exists|ps: Seq<(Rect, Vec<u8>)>|
            tiles_rect(piece_rects(ps), whole_rect(width, height)) && pieces_ok(
                ps,
                super::common::rgb24_pixels(data@),
                width as nat,
                height as nat,
                quality,
                normalized_level(compression, quality),
            ) && r@ == concat_bodies(ps),
{
    let encoding = TightEncoding;
    encoding.encode(data, width, height, quality, compression)
}

} // verus!
