//! ZRLE encoding: the rectangle cut into 64 by 64 tiles, each sent in the
//! smallest of raw, solid, packed-palette, plain-RLE and palette-RLE form,
//! and the tiles compressed through the connection's zlib stream.
use vstd::prelude::*;

use super::common::{cpixel, put_pixel24, rgb24_pixels, rgba_to_rgb24_pixels};
use super::raw::{raw_pixels, raw_spec};
use super::Encoding;
use crate::deflate::{compress_framed, framed, is_framed, zlib_compress, zlib_stream_of};
use crate::error::VncError;
use crate::protocol::{put_slice, put_u8, PixelFormat};

verus! {

/// Side of a ZRLE tile.
pub const TILE_SIZE: usize = 64;

// ---------------------------------------------------------------------------
// Runs and palettes
// ---------------------------------------------------------------------------

/// Length of the run of equal colours that starts at `i`.
pub open spec fn run_len(s: Seq<u32>, i: int) -> nat
    decreases s.len() - i,
{
    if i < 0 || i >= s.len() {
        0
    } else if i + 1 < s.len() && s[i + 1] == s[i] {
        1 + run_len(s, i + 1)
    } else {
        1
    }
}

/// A run starts at `i` and ends inside `s`.
pub open spec fn run_at(s: Seq<u32>, i: int) -> bool {
    0 <= i < s.len() && 1 <= run_len(s, i) && i + run_len(s, i) <= s.len()
}

proof fn lemma_run_len(s: Seq<u32>, i: int, k: int)
    requires
        0 <= i,
        1 <= k,
        i + k <= s.len(),
        forall|j: int| i <= j < i + k ==> s[j] == s[i],
        i + k == s.len() || s[i + k] != s[i],
    ensures
        run_len(s, i) == k,
    decreases k,
{
    if k > 1 {
        assert(s[i + 1] == s[i]);
        lemma_run_len(s, i + 1, k - 1);
    }
}

/// Number of runs longer than one pixel, and number of runs of one pixel, from `i` on.
pub open spec fn run_stats(s: Seq<u32>, i: int) -> (nat, nat)
    decreases s.len() - i,
{
    if !run_at(s, i) {
        (0, 0)
    } else {
        let n = run_len(s, i);
        let rest = run_stats(s, i + n);
        if n == 1 {
            (rest.0, rest.1 + 1)
        } else {
            (rest.0 + 1, rest.1)
        }
    }
}

/// The distinct colours among the first `n` pixels, in order of first
/// appearance, at most 256 of them.
pub open spec fn palette_upto(s: Seq<u32>, n: nat) -> Seq<u32>
    decreases n,
{
    if n == 0 {
        seq![]
    } else {
        let p = palette_upto(s, (n - 1) as nat);
        if p.len() < 256 && !p.contains(s[n - 1]) {
            p.push(s[n - 1])
        } else {
            p
        }
    }
}

/// The position of `c` in the palette (0 when absent).
pub open spec fn index_in(pal: Seq<u32>, c: u32) -> nat
    decreases pal.len(),
{
    if pal.len() == 0 {
        0
    } else if pal.last() == c {
        (pal.len() - 1) as nat
    } else {
        index_in(pal.drop_last(), c)
    }
}

/// A run length `m + 1` written as ZRLE does: bytes of 255 while at least
/// 255 remain, then the rest.
pub open spec fn run_count_bytes(m: nat) -> Seq<u8>
    decreases m,
{
    if m >= 255 {
        seq![255u8] + run_count_bytes((m - 255) as nat)
    } else {
        seq![m as u8]
    }
}

/// Each colour as three bytes.
pub open spec fn cpixels(s: Seq<u32>) -> Seq<u8>
    decreases s.len(),
{
    if s.len() == 0 {
        seq![]
    } else {
        cpixels(s.drop_last()) + cpixel(s.last())
    }
}

/// Plain RLE of the pixels from `i` on: each run as its colour and its length.
pub open spec fn rle_from(s: Seq<u32>, i: int) -> Seq<u8>
    decreases s.len() - i,
{
    if !run_at(s, i) {
        seq![]
    } else {
        let n = run_len(s, i);
        cpixel(s[i]) + run_count_bytes((n - 1) as nat) + rle_from(s, i + n)
    }
}

/// Palette RLE of the pixels from `i` on: a run of one or two pixels as its
/// index once or twice, a longer one as its index plus 128 and its length.
pub open spec fn prle_from(s: Seq<u32>, pal: Seq<u32>, i: int) -> Seq<u8>
    decreases s.len() - i,
{
    if !run_at(s, i) {
        seq![]
    } else {
        let n = run_len(s, i);
        let idx = index_in(pal, s[i]);
        let piece = if n == 1 {
            seq![idx as u8]
        } else if n == 2 {
            seq![idx as u8, idx as u8]
        } else {
            seq![(idx + 128) as u8] + run_count_bytes((n - 1) as nat)
        };
        piece + prle_from(s, pal, i + n)
    }
}

/// Bits per packed index for a palette of `n` colours.
pub open spec fn packed_bits(n: nat) -> nat {
    if n == 2 {
        1
    } else if n == 3 || n == 4 {
        2
    } else {
        4
    }
}

/// The indices `start .. start + k` of `row` in the first `k` of `ppb` slots
/// of one byte, most significant bits first, the other slots empty.
pub open spec fn pack_byte(row: Seq<u8>, step: nat, start: int, k: nat, ppb: nat) -> nat
    decreases ppb,
{
    if ppb == 0 {
        0
    } else if ppb > k {
        (pack_byte(row, step, start, k, (ppb - 1) as nat) * step) % 256
    } else {
        (pack_byte(row, step, start, (k - 1) as nat, (ppb - 1) as nat) * step + row[start + k - 1] as nat) % 256
    }
}

/// A row of palette indices packed `bits` to a byte, the last byte padded with zeros.
pub open spec fn packed_row(row: Seq<u8>, bits: nat) -> Seq<u8> {
    let ppb = 8nat / bits;
    let step = if bits == 1 { 2nat } else if bits == 2 { 4nat } else { 16nat };
    Seq::new(
        ((row.len() + ppb - 1) as nat / ppb) as nat,
        |j: int| {
            let start = j * ppb;
            let k = if row.len() - start >= ppb { ppb } else { (row.len() - start) as nat };
            pack_byte(row, step, start, k, ppb) as u8
        },
    )
}

/// The palette indices of row `r` of a `w`-wide tile.
pub open spec fn index_row(s: Seq<u32>, pal: Seq<u32>, w: nat, r: int) -> Seq<u8> {
    Seq::new(w, |x: int| index_in(pal, s[r * w + x]) as u8)
}

/// The packed indices of the first `r` rows.
pub open spec fn packed_rows(s: Seq<u32>, pal: Seq<u32>, w: nat, r: nat) -> Seq<u8>
    decreases r,
{
    if r == 0 {
        seq![]
    } else {
        packed_rows(s, pal, w, (r - 1) as nat) + packed_row(index_row(s, pal, w, r - 1), packed_bits(pal.len()))
    }
}

/// All pixels have the colour of the first.
pub open spec fn all_same(s: Seq<u32>) -> bool {
    forall|i: int| 0 <= i < s.len() ==> #[trigger] s[i] == s[0]
}

/// The raw form of a tile: subencoding 0 and every colour.
pub open spec fn zrle_raw_form(s: Seq<u32>) -> Seq<u8> {
    seq![0u8] + cpixels(s)
}

/// The plain-RLE form of a tile: subencoding 128 and the runs.
pub open spec fn zrle_rle_form(s: Seq<u32>) -> Seq<u8> {
    seq![128u8] + rle_from(s, 0)
}

/// The palette-RLE form of a tile with palette `pal`.
pub open spec fn zrle_prle_form(s: Seq<u32>, pal: Seq<u32>) -> Seq<u8> {
    seq![(128 + pal.len()) as u8] + cpixels(pal) + prle_from(s, pal, 0)
}

/// The packed-palette form of a `w` by `h` tile with palette `pal`.
pub open spec fn zrle_packed_form(s: Seq<u32>, pal: Seq<u32>, w: nat, h: nat) -> Seq<u8> {
    seq![pal.len() as u8] + cpixels(pal) + packed_rows(s, pal, w, h)
}

/// The ZRLE bytes of a `w` by `h` tile: solid when it has one colour, else
/// the shortest of raw, plain RLE, palette RLE (up to 127 colours) and
/// packed palette (up to 16 colours), the later of these on a tie.
pub open spec fn zrle_tile_spec(s: Seq<u32>, w: nat, h: nat) -> Seq<u8> {
    if s.len() > 0 && all_same(s) {
        seq![1u8] + cpixel(s[0])
    } else {
        let pal = palette_upto(s, s.len());
        let b0 = zrle_raw_form(s);
        let r = zrle_rle_form(s);
        let b1 = if r.len() <= b0.len() { r } else { b0 };
        let p = zrle_prle_form(s, pal);
        let b2 = if pal.len() < 128 && p.len() <= b1.len() { p } else { b1 };
        let k = zrle_packed_form(s, pal, w, h);
        if pal.len() < 17 && k.len() <= b2.len() { k } else { b2 }
    }
}

// ---------------------------------------------------------------------------
// Tile writers
// ---------------------------------------------------------------------------

/// Length of the run of equal colours that starts at `i`.
pub fn run_length(s: &[u32], i: usize) -> (r: usize)
    requires
        i < s@.len(),
    ensures
        r == run_len(s@, i as int),
        1 <= r,
        i + r <= s@.len(),
{
    let color = s[i];
    let len = s.len();
    let mut n: usize = 1;
    while i + n < len && s[i + n] == color
        invariant
            len == s@.len(),
            i < s@.len(),
            1 <= n,
            i + n <= s@.len(),
            color == s@[i as int],
            forall|j: int| i <= j < i + n ==> s@[j] == color,
        decreases s@.len() - i - n,
    {
        n += 1;
    }
    proof {
        lemma_run_len(s@, i as int, n as int);
    }
    n
}

/// Appends a run length as ZRLE writes it.
pub fn put_run_count(buf: &mut Vec<u8>, m: usize)
    ensures
        final(buf)@ == old(buf)@ + run_count_bytes(m as nat),
{
    let mut rest = m;
    while rest >= 255
        invariant
            buf@ + run_count_bytes(rest as nat) == old(buf)@ + run_count_bytes(m as nat),
        decreases rest,
    {
        let ghost b0 = buf@;
        buf.push(255);
        assert(b0 + run_count_bytes(rest as nat) =~= buf@ + run_count_bytes((rest - 255) as nat));
        rest -= 255;
    }
    let ghost b0 = buf@;
    buf.push(rest as u8);
    assert(b0 + run_count_bytes(rest as nat) =~= buf@);
}

/// Appends every colour as three bytes.
pub fn put_cpixels(buf: &mut Vec<u8>, s: &[u32])
    ensures
        final(buf)@ == old(buf)@ + cpixels(s@),
{
    let mut i: usize = 0;
    while i < s.len()
        invariant
            i <= s@.len(),
            buf@ == old(buf)@ + cpixels(s@.subrange(0, i as int)),
        decreases s@.len() - i,
    {
        put_pixel24(buf, s[i]);
        i += 1;
        proof {
            let t = s@.subrange(0, i as int);
            assert(t.drop_last() =~= s@.subrange(0, i - 1));
            assert(buf@ =~= old(buf)@ + cpixels(t));
        }
    }
    assert(s@.subrange(0, s@.len() as int) =~= s@);
}

/// Counts runs longer than one pixel and runs of one pixel, and collects the
/// palette: distinct colours in order of first appearance, at most 256.
pub fn analyze_runs_and_palette(pixels: &[u32]) -> (r: (usize, usize, Vec<u32>))
    ensures
        (r.0 as nat, r.1 as nat) == run_stats(pixels@, 0),
        r.0 + r.1 <= pixels@.len(),
        r.2@ == palette_upto(pixels@, pixels@.len()),
{
    let mut runs: usize = 0;
    let mut singles: usize = 0;
    let mut i: usize = 0;
    while i < pixels.len()
        invariant
            i <= pixels@.len(),
            runs + singles <= i,
            run_stats(pixels@, 0).0 == runs + run_stats(pixels@, i as int).0,
            run_stats(pixels@, 0).1 == singles + run_stats(pixels@, i as int).1,
        decreases pixels@.len() - i,
    {
        let n = run_length(pixels, i);
        if n == 1 {
            singles += 1;
        } else {
            runs += 1;
        }
        i += n;
    }
    let mut palette: Vec<u32> = Vec::new();
    let mut k: usize = 0;
    while k < pixels.len()
        invariant
            k <= pixels@.len(),
            palette@ == palette_upto(pixels@, k as nat),
            palette@.len() <= 256,
        decreases pixels@.len() - k,
    {
        let c = pixels[k];
        if palette.len() < 256 && !contains_u32(palette.as_slice(), c) {
            palette.push(c);
        }
        k += 1;
    }
    (runs, singles, palette)
}

/// Whether `c` occurs in `v`.
pub fn contains_u32(v: &[u32], c: u32) -> (r: bool)
    ensures
        r == v@.contains(c),
{
    let mut i: usize = 0;
    while i < v.len()
        invariant
            i <= v@.len(),
            forall|j: int| 0 <= j < i ==> v@[j] != c,
        decreases v@.len() - i,
    {
        if v[i] == c {
            assert(v@[i as int] == c);
            return true;
        }
        i += 1;
    }
    false
}

/// The position of `c` in the palette (0 when absent).
pub fn index_of(pal: &[u32], c: u32) -> (r: u8)
    requires
        pal@.len() <= 256,
    ensures
        r == index_in(pal@, c) as u8,
{
    let mut k: usize = pal.len();
    assert(pal@.subrange(0, k as int) =~= pal@);
    while k > 0
        invariant
            k <= pal@.len(),
            pal@.len() <= 256,
            index_in(pal@, c) == index_in(pal@.subrange(0, k as int), c),
        decreases k,
    {
        assert(pal@.subrange(0, k as int).drop_last() =~= pal@.subrange(0, k - 1));
        if pal[k - 1] == c {
            return (k - 1) as u8;
        }
        k -= 1;
    }
    0
}

/// Appends a solid tile: subencoding 1 and the colour.
pub fn encode_solid_color_tile(buf: &mut Vec<u8>, color: u32)
    ensures
        final(buf)@ == old(buf)@ + (seq![1u8] + cpixel(color)),
{
    put_u8(buf, 1);
    put_pixel24(buf, color);
    assert(final(buf)@ =~= old(buf)@ + (seq![1u8] + cpixel(color)));
}

/// Appends a raw tile: subencoding 0 and every colour.
pub fn encode_raw_tile(buf: &mut Vec<u8>, pixels: &[u32])
    ensures
        final(buf)@ == old(buf)@ + (seq![0u8] + cpixels(pixels@)),
{
    put_u8(buf, 0);
    put_cpixels(buf, pixels);
    assert(final(buf)@ =~= old(buf)@ + (seq![0u8] + cpixels(pixels@)));
}

/// Appends the plain-RLE runs of `pixels` (without the subencoding byte).
pub fn encode_rle_to_buf(buf: &mut Vec<u8>, pixels: &[u32])
    ensures
        final(buf)@ == old(buf)@ + rle_from(pixels@, 0),
{
    let mut i: usize = 0;
    while i < pixels.len()
        invariant
            i <= pixels@.len(),
            buf@ + rle_from(pixels@, i as int) == old(buf)@ + rle_from(pixels@, 0),
        decreases pixels@.len() - i,
    {
        let ghost b0 = buf@;
        let n = run_length(pixels, i);
        put_pixel24(buf, pixels[i]);
        put_run_count(buf, n - 1);
        assert(b0 + rle_from(pixels@, i as int) =~= buf@ + rle_from(pixels@, (i + n) as int));
        i += n;
    }
    assert(buf@ =~= buf@ + rle_from(pixels@, i as int));
}

/// Appends a palette-RLE tile: subencoding 128 + palette size, the palette,
/// and the runs as palette indices.
pub fn encode_packed_palette_rle_tile(buf: &mut Vec<u8>, pixels: &[u32], palette: &[u32])
    requires
        palette@.len() < 128,
    ensures
        final(buf)@ == old(buf)@ + (seq![(128 + palette@.len()) as u8] + cpixels(palette@) + prle_from(pixels@, palette@, 0)),
{
    put_u8(buf, 128 + palette.len() as u8);
    put_cpixels(buf, palette);
    let ghost head = buf@;
    let mut i: usize = 0;
    while i < pixels.len()
        invariant
            i <= pixels@.len(),
            palette@.len() < 128,
            buf@ + prle_from(pixels@, palette@, i as int) == head + prle_from(pixels@, palette@, 0),
        decreases pixels@.len() - i,
    {
        let ghost b0 = buf@;
        let n = run_length(pixels, i);
        let idx = index_of(palette, pixels[i]);
        proof {
            lemma_index_in_bound(palette@, pixels@[i as int]);
        }
        if n <= 2 {
            if n == 2 {
                buf.push(idx);
            }
            buf.push(idx);
        } else {
            buf.push(idx + 128);
            put_run_count(buf, n - 1);
        }
        assert(b0 + prle_from(pixels@, palette@, i as int) =~= buf@ + prle_from(pixels@, palette@, (i + n) as int));
        i += n;
    }
    assert(buf@ =~= buf@ + prle_from(pixels@, palette@, i as int));
    assert(final(buf)@ =~= old(buf)@ + (seq![(128 + palette@.len()) as u8] + cpixels(palette@) + prle_from(pixels@, palette@, 0)));
}

proof fn lemma_index_in_bound(pal: Seq<u32>, c: u32)
    ensures
        index_in(pal, c) < pal.len() || (pal.len() == 0 && index_in(pal, c) == 0),
    decreases pal.len(),
{
    if pal.len() > 0 {
        lemma_index_in_bound(pal.drop_last(), c);
    }
}

/// Packs one row of palette indices into bytes, most significant bits first.
pub fn pack_row(buf: &mut Vec<u8>, row: &Vec<u8>, bits: usize)
    requires
        bits == 1 || bits == 2 || bits == 4,
        row@.len() <= 4096,
    ensures
        final(buf)@ == old(buf)@ + packed_row(row@, bits as nat),
{
    let ppb: usize = if bits == 1 { 8 } else if bits == 2 { 4 } else { 2 };
    assert(ppb as nat == 8nat / bits as nat);
    let step: u32 = if bits == 1 { 2 } else if bits == 2 { 4 } else { 16 };
    let nbytes = (row.len() + ppb - 1) / ppb;
    let ghost spec_row = packed_row(row@, bits as nat);
    assert(spec_row.len() == nbytes);
    let mut j: usize = 0;
    while j < nbytes
        invariant
            bits == 1 || bits == 2 || bits == 4,
            ppb as nat == 8nat / bits as nat,
            step == if bits == 1 { 2nat } else if bits == 2 { 4nat } else { 16nat },
            nbytes as nat == (row@.len() + ppb as nat - 1) as nat / ppb as nat,
            spec_row == packed_row(row@, bits as nat),
            spec_row.len() == nbytes,
            row@.len() <= 4096,
            j <= nbytes,
            buf@ == old(buf)@ + spec_row.subrange(0, j as int),
        decreases nbytes - j,
    {
        assert(j * ppb < row@.len()) by (nonlinear_arith)
            requires j < nbytes, nbytes as nat == (row@.len() + ppb as nat - 1) as nat / ppb as nat, ppb >= 1;
        let start = j * ppb;
        let k = if row.len() - start >= ppb { ppb } else { row.len() - start };
        let mut acc: u32 = 0;
        let mut t: usize = 0;
        // The first `t` of the `ppb` slots, with the indices that fill them.
        while t < ppb
            invariant
                t <= ppb,
                k <= ppb,
                ppb <= 8,
                row@.len() <= 4096,
                start + k <= row@.len(),
                step <= 16,
                acc < 256,
                acc == if t <= k { pack_byte(row@, step as nat, start as int, t as nat, t as nat) } else {
                    pack_byte(row@, step as nat, start as int, k as nat, t as nat)
                },
            decreases ppb - t,
        {
            assert(acc * step <= 255 * 16) by (nonlinear_arith)
                requires acc < 256, step <= 16;
            if t < k {
                acc = (acc * step + row[start + t] as u32) % 256;
            } else {
                acc = (acc * step) % 256;
            }
            t += 1;
        }
        buf.push(acc as u8);
        proof {
            assert(spec_row[j as int] == pack_byte(row@, step as nat, start as int, k as nat, ppb as nat) as u8);
            assert(buf@ =~= old(buf)@ + spec_row.subrange(0, j + 1));
        }
        j += 1;
    }
    assert(spec_row.subrange(0, nbytes as int) =~= spec_row);
}

/// Appends a packed-palette tile: the palette size, the palette, and each
/// row's indices packed 1, 2 or 4 bits each.
pub fn encode_packed_palette_tile(buf: &mut Vec<u8>, pixels: &[u32], width: usize, height: usize, palette: &[u32])
    requires
        pixels@.len() == width * height,
        width <= TILE_SIZE,
        palette@.len() < 17,
    ensures
        final(buf)@ == old(buf)@ + (seq![palette@.len() as u8] + cpixels(palette@) + packed_rows(pixels@, palette@, width as nat, height as nat)),
{
    let n = palette.len();
    let bits: usize = if n == 2 { 1 } else if n == 3 || n == 4 { 2 } else { 4 };
    put_u8(buf, n as u8);
    put_cpixels(buf, palette);
    let ghost head = buf@;
    let mut r: usize = 0;
    while r < height
        invariant
            pixels@.len() == width * height,
            width <= TILE_SIZE,
            palette@.len() < 17,
            bits as nat == packed_bits(palette@.len()),
            r <= height,
            buf@ == head + packed_rows(pixels@, palette@, width as nat, r as nat),
        decreases height - r,
    {
        let mut row: Vec<u8> = Vec::new();
        let mut x: usize = 0;
        assert(r * width + width <= width * height) by (nonlinear_arith)
            requires r < height;
        let len = pixels.len();
        while x < width
            invariant
                len == pixels@.len(),
                pixels@.len() == width * height,
                r * width + width <= width * height,
                palette@.len() < 17,
                x <= width,
                row@.len() == x,
                forall|i: int| 0 <= i < x ==> row@[i] == index_in(palette@, pixels@[r * width + i]) as u8,
            decreases width - x,
        {
            let rw = r * width;
            row.push(index_of(palette, pixels[rw + x]));
            x += 1;
        }
        assert(row@ =~= index_row(pixels@, palette@, width as nat, r as int));
        pack_row(buf, &row, bits);
        r += 1;
    }
    assert(final(buf)@ =~= old(buf)@ + (seq![palette@.len() as u8] + cpixels(palette@) + packed_rows(pixels@, palette@, width as nat, height as nat)));
}

/// Appends one tile in the ZRLE form its contents call for.
pub fn encode_tile(buf: &mut Vec<u8>, pixels: &[u32], width: usize, height: usize)
    requires
        pixels@.len() == width * height,
        width <= TILE_SIZE,
        height <= TILE_SIZE,
    ensures
        final(buf)@ == old(buf)@ + zrle_tile_spec(pixels@, width as nat, height as nat),
{
    if pixels.len() > 0 {
        let mut solid = true;
        let mut i: usize = 1;
        while i < pixels.len()
            invariant
                1 <= i <= pixels@.len(),
                solid == forall|j: int| 0 <= j < i ==> #[trigger] pixels@[j] == pixels@[0],
            decreases pixels@.len() - i,
        {
            if pixels[i] != pixels[0] {
                solid = false;
            }
            i += 1;
        }
        if solid {
            encode_solid_color_tile(buf, pixels[0]);
            return;
        }
    }
    let (_runs, _singles, palette) = analyze_runs_and_palette(pixels);
    let mut best: Vec<u8> = Vec::new();
    encode_raw_tile(&mut best, pixels);
    let mut rle: Vec<u8> = Vec::new();
    put_u8(&mut rle, 128);
    encode_rle_to_buf(&mut rle, pixels);
    assert(rle@ =~= zrle_rle_form(pixels@));
    assert(best@ =~= zrle_raw_form(pixels@));
    if rle.len() <= best.len() {
        best = rle;
    }
    if palette.len() < 128 {
        let mut p: Vec<u8> = Vec::new();
        encode_packed_palette_rle_tile(&mut p, pixels, palette.as_slice());
        assert(p@ =~= zrle_prle_form(pixels@, palette@));
        if p.len() <= best.len() {
            best = p;
        }
    }
    if palette.len() < 17 {
        let mut k: Vec<u8> = Vec::new();
        encode_packed_palette_tile(&mut k, pixels, width, height, palette.as_slice());
        assert(k@ =~= zrle_packed_form(pixels@, palette@, width as nat, height as nat));
        if k.len() <= best.len() {
            best = k;
        }
    }
    put_slice(buf, best.as_slice());
}


// ---------------------------------------------------------------------------
// Reading tiles back
// ---------------------------------------------------------------------------

/// The colour of the three bytes (red, green, blue) at `p`.
pub open spec fn cpixel_at(b: Seq<u8>, p: int) -> u32 {
    (b[p] as nat + b[p + 1] as nat * 256 + b[p + 2] as nat * 0x1_0000) as u32
}

/// A run length (minus one) read at `p`, and where the next field starts.
pub open spec fn read_run(b: Seq<u8>, p: int) -> (nat, int)
    decreases b.len() - p,
{
    if p < 0 || p >= b.len() {
        (0, p)
    } else if b[p] == 255 {
        let r = read_run(b, p + 1);
        ((r.0 + 255) as nat, r.1)
    } else {
        (b[p] as nat, p + 1)
    }
}

/// `n` pixels read from plain-RLE data at `p`, the last run cut at `n`.
pub open spec fn rle_read(b: Seq<u8>, p: int, n: nat) -> Seq<u32>
    decreases n,
{
    if n == 0 {
        seq![]
    } else {
        let c = cpixel_at(b, p);
        let r = read_run(b, p + 3);
        let k: nat = if r.0 + 1 <= n { (r.0 + 1) as nat } else { n };
        Seq::new(k, |j: int| c) + rle_read(b, r.1, (n - k) as nat)
    }
}

/// `n` pixels read from palette-RLE data at `p`, with the palette's colours
/// starting at `pal_at`; the last run cut at `n`.
pub open spec fn prle_read(b: Seq<u8>, pal_at: int, p: int, n: nat) -> Seq<u32>
    decreases n,
{
    if n == 0 {
        seq![]
    } else if b[p] >= 128 {
        let c = cpixel_at(b, pal_at + 3 * (b[p] - 128));
        let r = read_run(b, p + 1);
        let k: nat = if r.0 + 1 <= n { (r.0 + 1) as nat } else { n };
        Seq::new(k, |j: int| c) + prle_read(b, pal_at, r.1, (n - k) as nat)
    } else {
        seq![cpixel_at(b, pal_at + 3 * b[p])] + prle_read(b, pal_at, p + 1, (n - 1) as nat)
    }
}

/// `n` pixels read from raw data at `p`.
pub open spec fn raw_read(b: Seq<u8>, p: int, n: nat) -> Seq<u32> {
    Seq::new(n, |j: int| cpixel_at(b, p + 3 * j))
}

/// The digit `d` places up of `v` written in base `step`.
pub open spec fn digit(v: nat, step: nat, d: nat) -> nat
    decreases d,
{
    if d == 0 {
        v % step
    } else {
        digit(v / step, step, (d - 1) as nat)
    }
}

/// Pixels per byte for packed indices of `bits` bits.
pub open spec fn per_byte(bits: nat) -> nat {
    if bits == 1 { 8 } else if bits == 2 { 4 } else { 2 }
}

/// Values an index of `bits` bits can take.
pub open spec fn step_of(bits: nat) -> nat {
    if bits == 1 { 2 } else if bits == 2 { 4 } else { 16 }
}

/// Bytes of one packed row of `w` indices of `bits` bits.
pub open spec fn row_bytes(w: nat, bits: nat) -> nat {
    ((w + per_byte(bits) - 1) as nat) / per_byte(bits)
}

/// `n` pixels of a `w`-wide tile read from packed-palette data: the palette
/// of `psize` colours at 1, the rows of indices after it.
pub open spec fn packed_read(b: Seq<u8>, psize: nat, w: nat, n: nat) -> Seq<u32> {
    let bits = packed_bits(psize);
    let ppb = per_byte(bits);
    let data_at = 1 + 3 * psize;
    Seq::new(
        n,
        |i: int|
            {
                let r = i / (w as int);
                let x = i % (w as int);
                let byte = b[data_at + r * row_bytes(w, bits) + x / (ppb as int)];
                cpixel_at(b, 1 + 3 * (digit(byte as nat, step_of(bits), (ppb - 1 - x % (ppb as int)) as nat) as int))
            },
    )
}

/// A `w` by `h` tile read back from its ZRLE bytes.
pub open spec fn zrle_tile_read(b: Seq<u8>, w: nat, h: nat) -> Seq<u32> {
    let n = w * h;
    if b[0] == 1 {
        Seq::new(n, |j: int| cpixel_at(b, 1))
    } else if b[0] == 0 {
        raw_read(b, 1, n)
    } else if b[0] <= 16 {
        packed_read(b, b[0] as nat, w, n)
    } else if b[0] == 128 {
        rle_read(b, 1, n)
    } else {
        prle_read(b, 1, 1 + 3 * (b[0] - 128), n)
    }
}

/// Every colour fits in 24 bits.
pub open spec fn colors_24(s: Seq<u32>) -> bool {
    forall|i: int| 0 <= i < s.len() ==> #[trigger] s[i] < 0x100_0000
}

proof fn lemma_cpixel_at(pre: Seq<u8>, c: u32, post: Seq<u8>)
    requires
        c < 0x100_0000,
    ensures
        cpixel_at(pre + cpixel(c) + post, pre.len() as int) == c,
{
    let b = pre + cpixel(c) + post;
    let o = pre.len() as int;
    assert(b[o] == (c % 256) as u8 && b[o + 1] == ((c / 256) % 256) as u8 && b[o + 2] == ((c / 0x1_0000) % 256) as u8);
}

proof fn lemma_read_run(pre: Seq<u8>, m: nat, post: Seq<u8>)
    ensures
        read_run(pre + run_count_bytes(m) + post, pre.len() as int).0 == m,
        read_run(pre + run_count_bytes(m) + post, pre.len() as int).1 == pre.len() + run_count_bytes(m).len(),
    decreases m,
{
    let b = pre + run_count_bytes(m) + post;
    if m >= 255 {
        let pre2 = pre.push(255u8);
        assert(b =~= pre2 + run_count_bytes((m - 255) as nat) + post);
        lemma_read_run(pre2, (m - 255) as nat, post);
    } else {
        assert(b[pre.len() as int] == m as u8);
    }
}

proof fn lemma_run_facts(s: Seq<u32>, i: int)
    requires
        0 <= i < s.len(),
    ensures
        run_at(s, i),
        forall|j: int| i <= j < i + run_len(s, i) ==> #[trigger] s[j] == s[i],
    decreases s.len() - i,
{
    if i + 1 < s.len() && s[i + 1] == s[i] {
        lemma_run_facts(s, i + 1);
    }
}

proof fn lemma_rle_read(s: Seq<u32>, i: int, pre: Seq<u8>, post: Seq<u8>)
    requires
        0 <= i <= s.len(),
        colors_24(s),
    ensures
        rle_read(pre + rle_from(s, i) + post, pre.len() as int, (s.len() - i) as nat) == s.subrange(i, s.len() as int),
    decreases s.len() - i,
{
    if i < s.len() {
        lemma_run_facts(s, i);
        let n = run_len(s, i);
        let cp = cpixel(s[i]);
        let rc = run_count_bytes((n - 1) as nat);
        let rest = rle_from(s, i + n);
        let b = pre + rle_from(s, i) + post;
        assert(rle_from(s, i) == cp + rc + rest);
        assert(b =~= pre + cp + (rc + rest + post));
        lemma_cpixel_at(pre, s[i], rc + rest + post);
        assert(b =~= (pre + cp) + rc + (rest + post));
        lemma_read_run(pre + cp, (n - 1) as nat, rest + post);
        let pre2 = pre + cp + rc;
        assert(b =~= pre2 + rest + post);
        lemma_rle_read(s, i + n, pre2, post);
        assert(Seq::new(n, |j: int| s[i]) + s.subrange(i + n, s.len() as int) =~= s.subrange(i, s.len() as int));
    } else {
        assert(s.subrange(i, s.len() as int) =~= seq![]);
    }
}

proof fn lemma_cpixels_read(s: Seq<u32>, pre: Seq<u8>, post: Seq<u8>)
    requires
        colors_24(s),
    ensures
        raw_read(pre + cpixels(s) + post, pre.len() as int, s.len()) == s,
    decreases s.len(),
{
    if s.len() > 0 {
        let d = s.drop_last();
        assert(colors_24(d)) by {
            assert forall|i: int| 0 <= i < d.len() implies #[trigger] d[i] < 0x100_0000 by {
                assert(d[i] == s[i]);
            }
        }
        let b = pre + cpixels(s) + post;
        assert(b =~= pre + cpixels(d) + (cpixel(s.last()) + post));
        lemma_cpixels_read(d, pre, cpixel(s.last()) + post);
        assert(cpixels(d).len() == 3 * d.len()) by {
            lemma_cpixels_len(d);
        }
        assert(b =~= (pre + cpixels(d)) + cpixel(s.last()) + post);
        lemma_cpixel_at(pre + cpixels(d), s.last(), post);
        assert forall|j: int| 0 <= j < s.len() implies #[trigger] raw_read(b, pre.len() as int, s.len())[j] == s[j] by {
            if j < d.len() {
                assert(raw_read(b, pre.len() as int, d.len())[j] == d[j]);
            }
        }
        assert(raw_read(b, pre.len() as int, s.len()) =~= s);
    }
}

pub(crate) proof fn lemma_cpixels_len(s: Seq<u32>)
    ensures
        cpixels(s).len() == 3 * s.len(),
    decreases s.len(),
{
    if s.len() > 0 {
        lemma_cpixels_len(s.drop_last());
    }
}

proof fn lemma_index_in(pal: Seq<u32>, c: u32)
    requires
        pal.contains(c),
    ensures
        index_in(pal, c) < pal.len(),
        pal[index_in(pal, c) as int] == c,
    decreases pal.len(),
{
    if pal.last() != c {
        let d = pal.drop_last();
        let k = choose|k: int| 0 <= k < pal.len() && pal[k] == c;
        assert(d[k] == c);
        lemma_index_in(d, c);
    }
}

proof fn lemma_palette_covers(s: Seq<u32>, n: nat)
    requires
        n <= s.len(),
        palette_upto(s, n).len() < 256,
    ensures
        forall|j: int| 0 <= j < n ==> palette_upto(s, n).contains(#[trigger] s[j]),
    decreases n,
{
    if n > 0 {
        let p = palette_upto(s, (n - 1) as nat);
        lemma_palette_grows(s, (n - 1) as nat);
        lemma_palette_covers(s, (n - 1) as nat);
        assert forall|j: int| 0 <= j < n implies palette_upto(s, n).contains(#[trigger] s[j]) by {
            if j < n - 1 {
                let k = choose|k: int| 0 <= k < p.len() && p[k] == s[j];
                if p.len() < 256 && !p.contains(s[n - 1]) {
                    assert(p.push(s[n - 1])[k] == s[j]);
                }
            } else {
                if p.len() < 256 && !p.contains(s[n - 1]) {
                    assert(p.push(s[n - 1])[p.len() as int] == s[j]);
                }
            }
        }
    }
}

proof fn lemma_palette_grows(s: Seq<u32>, n: nat)
    requires
        n < s.len(),
    ensures
        palette_upto(s, n).len() <= palette_upto(s, n + 1).len(),
{
}

proof fn lemma_prle_read(s: Seq<u32>, pal: Seq<u32>, i: int, pre: Seq<u8>, post: Seq<u8>, pal_at: int)
    requires
        0 <= i <= s.len(),
        pal.len() < 128,
        colors_24(pal),
        forall|j: int| 0 <= j < s.len() ==> pal.contains(#[trigger] s[j]),
        0 <= pal_at,
        pal_at + 3 * pal.len() <= pre.len(),
        forall|k: int| 0 <= k < pal.len() ==> #[trigger] cpixel_at(pre, pal_at + 3 * k) == pal[k],
    ensures
        prle_read(pre + prle_from(s, pal, i) + post, pal_at, pre.len() as int, (s.len() - i) as nat) == s.subrange(
            i,
            s.len() as int,
        ),
    decreases s.len() - i,
{
    let b = pre + prle_from(s, pal, i) + post;
    if i < s.len() {
        lemma_run_facts(s, i);
        let n = run_len(s, i);
        let idx = index_in(pal, s[i]);
        lemma_index_in(pal, s[i]);
        let rest = prle_from(s, pal, i + n);
        assert(cpixel_at(b, pal_at + 3 * idx) == pal[idx as int]) by {
            assert(cpixel_at(pre, pal_at + 3 * idx) == pal[idx as int]);
        }
        assert(idx < 128);
        assert(s.len() - i >= n);
        if n == 1 {
            assert(prle_from(s, pal, i) == seq![idx as u8] + rest);
            let pre2 = pre + seq![idx as u8];
            assert(b =~= pre2 + rest + post);
            assert(b[pre.len() as int] == idx as u8);
            assert(forall|k: int| 0 <= k < pal.len() ==> #[trigger] cpixel_at(pre2, pal_at + 3 * k) == cpixel_at(pre, pal_at + 3 * k));
            lemma_prle_read(s, pal, i + n, pre2, post, pal_at);
            let p = pre.len() as int;
            let nn = (s.len() - i) as nat;
            assert(b[p] < 128);
            assert(cpixel_at(b, pal_at + 3 * b[p]) == s[i]);
            assert(prle_read(b, pal_at, p, nn) == seq![cpixel_at(b, pal_at + 3 * b[p])] + prle_read(b, pal_at, p + 1, (nn - 1) as nat));
            assert(prle_read(b, pal_at, p + 1, (nn - 1) as nat) == s.subrange(i + 1, s.len() as int));
            assert(seq![s[i]] + s.subrange(i + 1, s.len() as int) =~= s.subrange(i, s.len() as int));
        } else if n == 2 {
            assert(prle_from(s, pal, i) == seq![idx as u8, idx as u8] + rest);
            let pre1 = pre + seq![idx as u8];
            let pre2 = pre + seq![idx as u8, idx as u8];
            assert(pre1 + rest.insert(0, idx as u8) + post =~= b);
            assert(b =~= pre2 + rest + post);
            assert(forall|k: int| 0 <= k < pal.len() ==> #[trigger] cpixel_at(pre2, pal_at + 3 * k) == cpixel_at(pre, pal_at + 3 * k));
            lemma_prle_read(s, pal, i + n, pre2, post, pal_at);
            assert(b[pre.len() as int] == idx as u8 && b[pre.len() as int + 1] == idx as u8);
            assert(s[i + 1] == s[i]);
            let p = pre.len() as int;
            let nn = (s.len() - i) as nat;
            assert(cpixel_at(b, pal_at + 3 * b[p]) == s[i]);
            assert(cpixel_at(b, pal_at + 3 * b[p + 1]) == s[i]);
            assert(prle_read(b, pal_at, p + 1, (nn - 1) as nat) == seq![cpixel_at(b, pal_at + 3 * b[p + 1])] + prle_read(b, pal_at, p + 2, (nn - 2) as nat));
            assert(prle_read(b, pal_at, p, nn) == seq![cpixel_at(b, pal_at + 3 * b[p])] + prle_read(b, pal_at, p + 1, (nn - 1) as nat));
            assert(seq![s[i]] + (seq![s[i]] + s.subrange(i + 2, s.len() as int)) =~= s.subrange(i, s.len() as int));
        } else {
            let rc = run_count_bytes((n - 1) as nat);
            assert(prle_from(s, pal, i) == seq![(idx + 128) as u8] + rc + rest);
            let pre1 = pre + seq![(idx + 128) as u8];
            assert(b =~= pre1 + rc + (rest + post));
            lemma_read_run(pre1, (n - 1) as nat, rest + post);
            let pre2 = pre1 + rc;
            assert(b =~= pre2 + rest + post);
            assert(forall|k: int| 0 <= k < pal.len() ==> #[trigger] cpixel_at(pre2, pal_at + 3 * k) == cpixel_at(pre, pal_at + 3 * k));
            lemma_prle_read(s, pal, i + n, pre2, post, pal_at);
            assert(b[pre.len() as int] == (idx + 128) as u8);
            let p = pre.len() as int;
            let nn = (s.len() - i) as nat;
            assert(b[p] >= 128 && b[p] - 128 == idx);
            assert(cpixel_at(b, pal_at + 3 * (b[p] - 128)) == s[i]);
            assert(read_run(b, p + 1).0 == n - 1 && read_run(b, p + 1).1 == pre2.len());
            assert(prle_read(b, pal_at, p, nn) == Seq::new(n, |j: int| cpixel_at(b, pal_at + 3 * (b[p] - 128))) + prle_read(b, pal_at, pre2.len() as int, (nn - n) as nat));
            assert(Seq::new(n, |j: int| cpixel_at(b, pal_at + 3 * (b[p] - 128))) =~= Seq::new(n, |j: int| s[i]));
            assert(Seq::new(n, |j: int| s[i]) + s.subrange(i + n, s.len() as int) =~= s.subrange(i, s.len() as int));
        }
    } else {
        assert(s.subrange(i, s.len() as int) =~= seq![]);
    }
}

/// `step` to the power `m`.
pub open spec fn spow(step: nat, m: nat) -> nat
    decreases m,
{
    if m == 0 { 1 } else { step * spow(step, (m - 1) as nat) }
}

proof fn lemma_pack_byte(row: Seq<u8>, step: nat, start: int, k: nat, m: nat)
    requires
        2 <= step,
        k <= m,
        spow(step, m) <= 256,
        0 <= start,
        start + k <= row.len(),
        forall|t: int| 0 <= t < k ==> #[trigger] row[start + t] < step,
    ensures
        pack_byte(row, step, start, k, m) < spow(step, m),
        forall|t: int| 0 <= t < k ==> #[trigger] digit(pack_byte(row, step, start, k, m), step, (m - 1 - t) as nat) == row[start + t],
    decreases m,
{
    if m > 0 {
        let sp = spow(step, (m - 1) as nat);
        assert(sp <= spow(step, m)) by (nonlinear_arith)
            requires spow(step, m) == step * sp, step >= 2;
        if m > k {
            lemma_pack_byte(row, step, start, k, (m - 1) as nat);
            let v = pack_byte(row, step, start, k, (m - 1) as nat);
            assert(v * step < spow(step, m)) by (nonlinear_arith)
                requires v < sp, spow(step, m) == step * sp, step >= 2;
            assert((v * step) % 256 == v * step);
            assert forall|t: int| 0 <= t < k implies #[trigger] digit(pack_byte(row, step, start, k, m), step, (m - 1 - t) as nat) == row[start + t] by {
                assert((v * step) / step == v) by (nonlinear_arith)
                    requires step >= 2;
                assert(digit(v, step, (m - 2 - t) as nat) == row[start + t]);
            }
        } else {
            lemma_pack_byte(row, step, start, (k - 1) as nat, (m - 1) as nat);
            let v = pack_byte(row, step, start, (k - 1) as nat, (m - 1) as nat);
            let a = row[start + k - 1] as nat;
            assert(a < step);
            assert(v * step + a < spow(step, m)) by (nonlinear_arith)
                requires v < sp, spow(step, m) == step * sp, a < step, step >= 2;
            assert((v * step + a) % 256 == v * step + a);
            assert((v * step + a) / step == v && (v * step + a) % step == a) by (nonlinear_arith)
                requires a < step, step >= 2;
            assert forall|t: int| 0 <= t < k implies #[trigger] digit(pack_byte(row, step, start, k, m), step, (m - 1 - t) as nat) == row[start + t] by {
                if t < k - 1 {
                    assert(digit(v, step, (m - 2 - t) as nat) == row[start + t]);
                }
            }
        }
    }
}

proof fn lemma_packed_row(row: Seq<u8>, bits: nat, x: int)
    requires
        bits == 1 || bits == 2 || bits == 4,
        0 <= x < row.len(),
        forall|t: int| 0 <= t < row.len() ==> #[trigger] row[t] < step_of(bits),
    ensures
        x / (per_byte(bits) as int) < packed_row(row, bits).len(),
        digit(packed_row(row, bits)[x / (per_byte(bits) as int)] as nat, step_of(bits), (per_byte(bits) - 1 - x % (per_byte(bits) as int)) as nat) == row[x],
        packed_row(row, bits).len() == row_bytes(row.len(), bits),
{
    let ppb = per_byte(bits);
    let step = step_of(bits);
    assert(8nat / bits == ppb);
    assert(spow(step, ppb) == 256) by {
        reveal_with_fuel(spow, 9);
    }
    let j = x / (ppb as int);
    let t = x % (ppb as int);
    let start = j * ppb;
    assert(x == start + t && 0 <= t < ppb && 0 <= j) by (nonlinear_arith)
        requires j == x / (ppb as int), t == x % (ppb as int), start == j * ppb, ppb >= 2, x >= 0;
    assert(j < ((row.len() + ppb - 1) as nat) / ppb) by (nonlinear_arith)
        requires j == x / (ppb as int), x < row.len(), ppb >= 2, x >= 0;
    let k: nat = if row.len() - start >= ppb { ppb } else { (row.len() - start) as nat };
    assert(t < k);
    assert forall|u: int| 0 <= u < k implies #[trigger] row[start + u] < step by {
        assert(row[start + u] < step_of(bits));
    }
    lemma_pack_byte(row, step, start, k, ppb);
    assert(packed_row(row, bits)[j] == pack_byte(row, step, start, k, ppb) as u8);
}

proof fn lemma_packed_rows(s: Seq<u32>, pal: Seq<u32>, w: nat, r: nat)
    requires
        packed_bits(pal.len()) == 1 || packed_bits(pal.len()) == 2 || packed_bits(pal.len()) == 4,
    ensures
        packed_rows(s, pal, w, r).len() == r * row_bytes(w, packed_bits(pal.len())),
        forall|q: int, j: int|
            0 <= q < r && 0 <= j < row_bytes(w, packed_bits(pal.len())) ==> #[trigger] packed_rows(s, pal, w, r)[q
                * row_bytes(w, packed_bits(pal.len())) + j] == packed_row(index_row(s, pal, w, q), packed_bits(pal.len()))[j],
    decreases r,
{
    let bits = packed_bits(pal.len());
    let rb = row_bytes(w, bits);
    if r > 0 {
        lemma_packed_rows(s, pal, w, (r - 1) as nat);
        let last = packed_row(index_row(s, pal, w, r - 1), bits);
        assert(8nat / bits == per_byte(bits));
        assert(last.len() == rb);
        assert((r - 1) * rb + rb == r * rb) by (nonlinear_arith);
        assert forall|q: int, j: int| 0 <= q < r && 0 <= j < rb implies #[trigger] packed_rows(s, pal, w, r)[q * rb + j]
            == packed_row(index_row(s, pal, w, q), bits)[j] by {
            if q < r - 1 {
                assert(q * rb + j < (r - 1) * rb) by (nonlinear_arith)
                    requires q < r - 1, j < rb, 0 <= q, 0 <= j;
            } else {
                assert(q * rb + j - (r - 1) * rb == j) by (nonlinear_arith)
                    requires q == r - 1;
            }
        }
    }
}

proof fn lemma_packed_tile(s: Seq<u32>, w: nat, h: nat)
    requires
        s.len() == w * h,
        s.len() > 0,
        colors_24(s),
        palette_upto(s, s.len()).len() < 17,
    ensures
        ({
            let pal = palette_upto(s, s.len());
            packed_read(seq![pal.len() as u8] + cpixels(pal) + packed_rows(s, pal, w, h), pal.len(), w, s.len()) == s
        }),
{
    let pal = palette_upto(s, s.len());
    let bits = packed_bits(pal.len());
    let ppb = per_byte(bits);
    let rb = row_bytes(w, bits);
    let pre = seq![pal.len() as u8] + cpixels(pal);
    let b = pre + packed_rows(s, pal, w, h);
    lemma_palette_colors(s, s.len());
    lemma_cpixels_read(pal, seq![pal.len() as u8], packed_rows(s, pal, w, h));
    lemma_cpixels_len(pal);
    assert(b =~= seq![pal.len() as u8] + cpixels(pal) + packed_rows(s, pal, w, h));
    lemma_palette_covers(s, s.len());
    lemma_packed_rows(s, pal, w, h);
    assert(w > 0) by (nonlinear_arith)
        requires s.len() == w * h, s.len() > 0;
    assert forall|i: int| 0 <= i < s.len() implies #[trigger] packed_read(b, pal.len(), w, s.len())[i] == s[i] by {
        let r = i / (w as int);
        let x = i % (w as int);
        assert(0 <= x < w && 0 <= r < h && i == r * w + x) by (nonlinear_arith)
            requires 0 <= i < w * h, w > 0, r == i / (w as int), x == i % (w as int);
        let row = index_row(s, pal, w, r);
        assert forall|t: int| 0 <= t < row.len() implies #[trigger] row[t] < step_of(bits) by {
            assert(0 <= r * w + t < s.len()) by (nonlinear_arith)
                requires 0 <= r < h, 0 <= t < w, s.len() == w * h;
            lemma_index_in(pal, s[r * w + t]);
        }
        lemma_packed_row(row, bits, x);
        assert(0 <= x / (ppb as int) < rb);
        assert(packed_rows(s, pal, w, h)[r * rb + x / (ppb as int)] == packed_row(row, bits)[x / (ppb as int)]);
        assert(0 <= r * rb + x / (ppb as int) < h * rb) by (nonlinear_arith)
            requires 0 <= r < h, 0 <= x / (ppb as int) < rb;
        assert(pre.len() == 1 + 3 * pal.len());
        assert(b[1 + 3 * pal.len() + r * rb + x / (ppb as int)] == packed_rows(s, pal, w, h)[r * rb + x / (ppb as int)]);
        lemma_index_in(pal, s[i]);
        let idx = index_in(pal, s[i]);
        assert(row[x] == idx as u8);
        assert(raw_read(b, 1, pal.len())[idx as int] == pal[idx as int]);
    }
    assert(packed_read(b, pal.len(), w, s.len()) =~= s);
}

/// Every tile reads back as the pixels it was made from, whichever of the
/// five forms ZRLE sends it in.
pub proof fn lemma_zrle_tile_round_trip(s: Seq<u32>, w: nat, h: nat)
    requires
        s.len() == w * h,
        s.len() > 0,
        colors_24(s),
    ensures
        zrle_tile_read(zrle_tile_spec(s, w, h), w, h) == s,
{
    let b = zrle_tile_spec(s, w, h);
    if all_same(s) {
        lemma_cpixel_at(seq![1u8], s[0], seq![]);
        assert(b =~= seq![1u8] + cpixel(s[0]) + seq![]);
        assert forall|j: int| 0 <= j < s.len() implies #[trigger] zrle_tile_read(b, w, h)[j] == s[j] by {
            assert(s[j] == s[0]);
        }
        assert(zrle_tile_read(b, w, h) =~= s);
    } else {
        lemma_palette_small(s, s.len());
        lemma_palette_two(s);
        let pal = palette_upto(s, s.len());
        if pal.len() < 17 && b == zrle_packed_form(s, pal, w, h) {
            lemma_packed_tile(s, w, h);
        } else if pal.len() < 128 && b == zrle_prle_form(s, pal) {
            let pre = seq![(128 + pal.len()) as u8] + cpixels(pal);
            assert(colors_24(pal)) by {
                lemma_palette_colors(s, s.len());
            }
            lemma_cpixels_read(pal, seq![(128 + pal.len()) as u8], seq![]);
            lemma_cpixels_len(pal);
            assert(pre =~= seq![(128 + pal.len()) as u8] + cpixels(pal) + seq![]);
            assert forall|k: int| 0 <= k < pal.len() implies #[trigger] cpixel_at(pre, 1 + 3 * k) == pal[k] by {
                assert(raw_read(pre, 1, pal.len())[k] == pal[k]);
            }
            lemma_palette_covers(s, s.len());
            assert(b =~= pre + prle_from(s, pal, 0) + seq![]);
            lemma_prle_read(s, pal, 0, pre, seq![], 1);
            assert(s.subrange(0, s.len() as int) =~= s);
        } else if b == zrle_rle_form(s) {
            assert(b =~= seq![128u8] + rle_from(s, 0) + seq![]);
            lemma_rle_read(s, 0, seq![128u8], seq![]);
            assert(s.subrange(0, s.len() as int) =~= s);
        } else {
            assert(b == zrle_raw_form(s));
            assert(b =~= seq![0u8] + cpixels(s) + seq![]);
            lemma_cpixels_read(s, seq![0u8], seq![]);
        }
    }
}

/// A tile sent in one of the palette or RLE forms is never longer than the
/// raw form, nor than any other form that applies to it.
pub proof fn lemma_zrle_tile_shortest(s: Seq<u32>, w: nat, h: nat)
    requires
        !(s.len() > 0 && all_same(s)),
    ensures
        ({
            let b = zrle_tile_spec(s, w, h);
            let pal = palette_upto(s, s.len());
            &&& b.len() <= zrle_raw_form(s).len()
            &&& b.len() <= zrle_rle_form(s).len()
            &&& (pal.len() < 128 ==> b.len() <= zrle_prle_form(s, pal).len())
            &&& (pal.len() < 17 ==> b.len() <= zrle_packed_form(s, pal, w, h).len())
        }),
{
}

proof fn lemma_palette_two(s: Seq<u32>)
    requires
        s.len() > 0,
        !all_same(s),
    ensures
        palette_upto(s, s.len()).len() >= 2,
{
    let pal = palette_upto(s, s.len());
    if pal.len() < 256 {
        lemma_palette_covers(s, s.len());
        let j = choose|j: int| 0 <= j < s.len() && #[trigger] s[j] != s[0];
        assert(pal.contains(s[0]));
        assert(pal.contains(s[j]));
        if pal.len() < 2 {
            let a = choose|k: int| 0 <= k < pal.len() && #[trigger] pal[k] == s[0];
            let c = choose|k: int| 0 <= k < pal.len() && #[trigger] pal[k] == s[j];
            assert(a == c);
        }
    }
}

proof fn lemma_palette_nonempty(s: Seq<u32>, n: nat)
    requires
        1 <= n <= s.len(),
    ensures
        palette_upto(s, n).len() >= 1,
    decreases n,
{
    if n > 1 {
        lemma_palette_nonempty(s, (n - 1) as nat);
    }
}

proof fn lemma_palette_colors(s: Seq<u32>, n: nat)
    requires
        n <= s.len(),
        colors_24(s),
    ensures
        colors_24(palette_upto(s, n)),
    decreases n,
{
    if n > 0 {
        lemma_palette_colors(s, (n - 1) as nat);
        let p = palette_upto(s, (n - 1) as nat);
        assert(s[n - 1] < 0x100_0000);
        if p.len() < 256 && !p.contains(s[n - 1]) {
            assert forall|i: int| 0 <= i < p.len() + 1 implies #[trigger] p.push(s[n - 1])[i] < 0x100_0000 by {
                if i < p.len() {
                    assert(p[i] < 0x100_0000);
                }
            }
        }
    }
}

proof fn lemma_palette_small(s: Seq<u32>, n: nat)
    ensures
        palette_upto(s, n).len() <= 256,
    decreases n,
{
    if n > 0 {
        lemma_palette_small(s, (n - 1) as nat);
    }
}

// ---------------------------------------------------------------------------
// Rectangles
// ---------------------------------------------------------------------------

/// The smaller of `a` and `b`.
pub open spec fn min_nat(a: nat, b: nat) -> nat {
    if a < b { a } else { b }
}

/// The `tw` by `th` tile at (`x`, `y`) of a `width`-wide pixel array, row by row.
pub open spec fn tile_of(pixels: Seq<u32>, width: nat, x: int, y: int, tw: nat, th: nat) -> Seq<u32> {
    Seq::new(tw * th, |i: int| pixels[(y + i / tw as int) * width + x + i % tw as int])
}

/// The encoded tiles of the first `ncols` columns of the tile row at `y`.
pub open spec fn zrle_tile_row(pixels: Seq<u32>, width: nat, height: nat, y: nat, ncols: nat) -> Seq<u8>
    decreases ncols,
{
    if ncols == 0 {
        seq![]
    } else {
        let x = (ncols - 1) * 64;
        let tw = min_nat(64, (width - x) as nat);
        let th = min_nat(64, (height - y) as nat);
        zrle_tile_row(pixels, width, height, y, (ncols - 1) as nat) + zrle_tile_spec(
            tile_of(pixels, width, x, y as int, tw, th),
            tw,
            th,
        )
    }
}

/// Number of tiles needed to span `n` pixels.
pub open spec fn tiles_across(n: nat) -> nat {
    (n + 63) / 64
}

/// The encoded tiles of the first `nrows` tile rows.
pub open spec fn zrle_tiles(pixels: Seq<u32>, width: nat, height: nat, nrows: nat) -> Seq<u8>
    decreases nrows,
{
    if nrows == 0 {
        seq![]
    } else {
        zrle_tiles(pixels, width, height, (nrows - 1) as nat) + zrle_tile_row(
            pixels,
            width,
            height,
            ((nrows - 1) * 64) as nat,
            tiles_across(width),
        )
    }
}

/// The uncompressed ZRLE data of a `width` by `height` RGBA32 rectangle.
pub open spec fn zrle_stream(data: Seq<u8>, width: nat, height: nat) -> Seq<u8> {
    zrle_tiles(rgb24_pixels(data), width, height, tiles_across(height))
}

pub(crate) proof fn lemma_tile_of(t: Seq<u32>, pixels: Seq<u32>, width: nat, x: int, y: int, tw: nat, th: nat)
    requires
        t.len() == tw * th,
        forall|dy: int, dx: int|
            0 <= dy < th && 0 <= dx < tw ==> #[trigger] t[dy * tw + dx] == pixels[(y + dy) * width + x + dx],
    ensures
        t == tile_of(pixels, width, x, y, tw, th),
{
    assert forall|i: int| 0 <= i < tw * th implies #[trigger] t[i] == tile_of(pixels, width, x, y, tw, th)[i] by {
        let dy = i / tw as int;
        let dx = i % tw as int;
        assert(tw > 0) by (nonlinear_arith)
            requires 0 <= i < tw * th;
        assert(i == dy * tw + dx && 0 <= dx < tw && 0 <= dy < th) by (nonlinear_arith)
            requires 0 <= i < tw * th, tw > 0, dy == i / tw as int, dx == i % tw as int;
        assert(t[dy * tw + dx] == pixels[(y + dy) * width + x + dx]);
    }
    assert(t =~= tile_of(pixels, width, x, y, tw, th));
}

/// The uncompressed ZRLE data of a rectangle: its 64 by 64 tiles, row by
/// row, each in the form its contents call for.
pub fn encode_zrle_tiles(data: &[u8], width: u16, height: u16) -> (r: Vec<u8>)
    requires
        data@.len() == width as nat * height as nat * 4,
    ensures
        r@ == zrle_stream(data@, width as nat, height as nat),
{
    let pixels = rgba_to_rgb24_pixels(data);
    let w = width as usize;
    let h = height as usize;
    assert(pixels@.len() == w * h) by (nonlinear_arith)
        requires pixels@.len() == data@.len() / 4, data@.len() == width as nat * height as nat * 4, w == width, h == height;
    let mut buf: Vec<u8> = Vec::new();
    let nrows = (h + 63) / 64;
    let ncols = (w + 63) / 64;
    let mut r: usize = 0;
    while r < nrows
        invariant
            pixels@.len() == w * h,
            w == width,
            h == height,
            nrows == tiles_across(h as nat),
            ncols == tiles_across(w as nat),
            r <= nrows,
            buf@ == zrle_tiles(pixels@, w as nat, h as nat, r as nat),
        decreases nrows - r,
    {
        let y = r * 64;
        let th = if h - y < 64 { h - y } else { 64 };
        let mut c: usize = 0;
        let ghost row_start = buf@;
        while c < ncols
            invariant
                pixels@.len() == w * h,
                w == width,
                h == height,
                nrows == tiles_across(h as nat),
                ncols == tiles_across(w as nat),
                r < nrows,
                y == r * 64,
                y < h,
                th == min_nat(64, (h - y) as nat),
                c <= ncols,
                row_start == zrle_tiles(pixels@, w as nat, h as nat, r as nat),
                buf@ == row_start + zrle_tile_row(pixels@, w as nat, h as nat, y as nat, c as nat),
            decreases ncols - c,
        {
            let x = c * 64;
            let tw = if w - x < 64 { w - x } else { 64 };
            assert((y + th) * w <= pixels@.len()) by (nonlinear_arith)
                requires y + th <= h, pixels@.len() == w * h;
            let tile = super::common::extract_tile(pixels.as_slice(), w, x, y, tw, th);
            proof {
                lemma_tile_of(tile@, pixels@, w as nat, x as int, y as int, tw as nat, th as nat);
            }
            encode_tile(&mut buf, tile.as_slice(), tw, th);
            c += 1;
        }
        r += 1;
    }
    buf
}

/// ZRLE through the connection's persistent zlib stream: the tiles,
/// compressed and flushed, preceded by their compressed length.
pub fn encode_zrle_persistent(data: &[u8], width: u16, height: u16, pixel_format: &PixelFormat, compressor: &mut flate2::Compress) -> (r: Result<Vec<u8>, VncError>)
    requires
        data@.len() == width as nat * height as nat * 4,
    ensures
        r matches Ok(v) ==> is_framed(v@),
{
    let tiles = encode_zrle_tiles(data, width, height);
    compress_framed(compressor, tiles.as_slice())
}

/// The zlib level a ZRLE compression setting selects: 1 for 0, the setting
/// itself for 1 to 3, 6 for 4 to 6, and 9 above.
pub open spec fn zrle_level(compression: u8) -> u32 {
    if compression == 0 {
        1
    } else if compression <= 3 {
        compression as u32
    } else if compression <= 6 {
        6
    } else {
        9
    }
}

/// ZRLE as one complete zlib stream at the level `compression` selects: the
/// tiles, compressed, preceded by their compressed length.
pub fn encode_zrle(data: &[u8], width: u16, height: u16, pixel_format: &PixelFormat, compression: u8) -> (r: Result<Vec<u8>, VncError>)
    requires
        data@.len() == width as nat * height as nat * 4,
    ensures
        r matches Ok(v) ==> v@ == framed(zlib_stream_of(zrle_level(compression), zrle_stream(data@, width as nat, height as nat))),
        r is Err <==> zlib_stream_of(zrle_level(compression), zrle_stream(data@, width as nat, height as nat)).len() > u32::MAX,
{
    let level: u32 = if compression == 0 {
        1
    } else if compression <= 3 {
        compression as u32
    } else if compression <= 6 {
        6
    } else {
        9
    };
    let tiles = encode_zrle_tiles(data, width, height);
    match zlib_compress(level, tiles.as_slice()) {
        Some(z) => {
            if z.len() > u32::MAX as usize {
                return Err(VncError::Encoding(String::new()));
            }
            Ok(crate::deflate::frame_compressed(z.as_slice()))
        },
        None => Err(VncError::Encoding(String::new())),
    }
}

/// The ZRLE encoder with a stream of its own per rectangle.
pub struct ZrleEncoding;

impl Encoding for ZrleEncoding {
    /// The compressed tiles, or the pixels as Raw when the compressed
    /// stream is too long for its 32-bit length.
    fn encode(&self, data: &[u8], width: u16, height: u16, quality: u8, compression: u8) -> (r: Vec<u8>)
        ensures
            zlib_stream_of(zrle_level(compression), zrle_stream(data@, width as nat, height as nat)).len() <= u32::MAX
                ==> r@ == framed(zlib_stream_of(zrle_level(compression), zrle_stream(data@, width as nat, height as nat))),
            zlib_stream_of(zrle_level(compression), zrle_stream(data@, width as nat, height as nat)).len() > u32::MAX
                ==> r@ == raw_spec(data@),
    {
        let pixel_format = PixelFormat::rgba32();
        match encode_zrle(data, width, height, &pixel_format, compression) {
            Ok(v) => v,
            Err(_) => raw_pixels(data),
        }
    }
}

} // verus!
