//! Pixel analysis shared by the encoders: packing RGBA32 into 24-bit
//! colours, colour statistics, tiles, and the carving of a rectangle into
//! single-coloured subrectangles.
use vstd::prelude::*;

use vstd::hash_map::HashMapWithView;

use crate::protocol::{le32, put_u32_le, put_u8, PixelFormat};
use crate::translate::{shifts_fit, translate_pixels, translate_spec};

verus! {

broadcast use vstd::std_specs::hash::axiom_u32_obeys_hash_table_key_model;

/// A single-coloured rectangle inside a larger one.
#[derive(Debug, Clone, Copy, PartialEq, Eq, Structural)]
pub struct Subrect {
    /// Colour, as `R | G << 8 | B << 16`.
    pub color: u32,
    /// Left edge, relative to the enclosing rectangle.
    pub x: u16,
    /// Top edge, relative to the enclosing rectangle.
    pub y: u16,
    /// Width.
    pub w: u16,
    /// Height.
    pub h: u16,
}

/// The 24-bit colour of red, green and blue bytes: red lowest.
pub open spec fn rgb24(r: u8, g: u8, b: u8) -> u32 {
    (r as nat + g as nat * 256 + b as nat * 0x1_0000) as u32
}

/// The colours of the RGBA32 pixels in `data`, alpha dropped.
pub open spec fn rgb24_pixels(data: Seq<u8>) -> Seq<u32> {
    Seq::new(data.len() / 4, |i: int| rgb24(data[4 * i], data[4 * i + 1], data[4 * i + 2]))
}

/// How often `c` occurs in `s`.
pub open spec fn count_of(s: Seq<u32>, c: u32) -> nat
    decreases s.len(),
{
    if s.len() == 0 {
        0
    } else {
        count_of(s.drop_last(), c) + if s.last() == c { 1nat } else { 0nat }
    }
}

proof fn lemma_count_push(s: Seq<u32>, p: u32, c: u32)
    ensures
        count_of(s.push(p), c) == count_of(s, c) + if p == c { 1nat } else { 0nat },
{
    assert(s.push(p).drop_last() =~= s);
}

proof fn lemma_count_zero(s: Seq<u32>, c: u32)
    requires
        !s.contains(c),
    ensures
        count_of(s, c) == 0,
    decreases s.len(),
{
    if s.len() > 0 {
        assert(!s.drop_last().contains(c)) by {
            if s.drop_last().contains(c) {
                let j = choose|j: int| 0 <= j < s.drop_last().len() && #[trigger] s.drop_last()[j] == c;
                assert(s[j] == c);
            }
        }
        lemma_count_zero(s.drop_last(), c);
    }
}

proof fn lemma_count_bound(s: Seq<u32>, c: u32)
    ensures
        count_of(s, c) <= s.len(),
    decreases s.len(),
{
    if s.len() > 0 {
        lemma_count_bound(s.drop_last(), c);
    }
}

/// Converts RGBA32 bytes to 24-bit colours, four bytes per pixel.
pub fn rgba_to_rgb24_pixels(data: &[u8]) -> (r: Vec<u32>)
    ensures
        r@ == rgb24_pixels(data@),
{
    let len = data.len();
    let n = len / 4;
    let mut out: Vec<u32> = Vec::with_capacity(n);
    let mut i: usize = 0;
    while i < n
        invariant
            n == data@.len() / 4,
            len == data@.len(),
            i <= n,
            out@.len() == i,
            forall|j: int| 0 <= j < i ==> out@[j] == rgb24(data@[4 * j], data@[4 * j + 1], data@[4 * j + 2]),
        decreases n - i,
    {
        assert(4 * i + 4 <= data@.len()) by (nonlinear_arith)
            requires i < n, n == data@.len() / 4;
        let o = 4 * i;
        out.push(data[o] as u32 + data[o + 1] as u32 * 256 + data[o + 2] as u32 * 0x1_0000);
        i += 1;
    }
    assert(out@ =~= rgb24_pixels(data@));
    out
}

/// Counts how often each colour occurs in `pixels`.
fn color_counts(pixels: &[u32]) -> (m: HashMapWithView<u32, usize>)
    ensures
        forall|c: u32| #[trigger] m@.contains_key(c) <==> pixels@.contains(c),
        forall|c: u32| m@.contains_key(c) ==> #[trigger] m@[c] == count_of(pixels@, c),
{
    let mut m: HashMapWithView<u32, usize> = HashMapWithView::new();
    let mut i: usize = 0;
    while i < pixels.len()
        invariant
            i <= pixels@.len(),
            forall|c: u32| #[trigger] m@.contains_key(c) <==> pixels@.subrange(0, i as int).contains(c),
            forall|c: u32|
                m@.contains_key(c) ==> #[trigger] m@[c] == count_of(pixels@.subrange(0, i as int), c),
        decreases pixels@.len() - i,
    {
        let p = pixels[i];
        let prefix = Ghost(pixels@.subrange(0, i as int));
        assert(pixels@.subrange(0, i + 1) =~= prefix@.push(p));
        proof {
            assert forall|c: u32| #[trigger] count_of(pixels@.subrange(0, i + 1), c) == count_of(prefix@, c) + if p == c { 1nat } else { 0nat } by {
                lemma_count_push(prefix@, p, c);
            }
            lemma_count_bound(prefix@, p);
        }
        let cur: usize = match m.get(&p) {
            Some(v) => *v,
            None => {
                proof {
                    lemma_count_zero(prefix@, p);
                }
                0
            },
        };
        m.insert(p, cur + 1);
        i += 1;
        assert forall|c: u32| #[trigger] m@.contains_key(c) <==> pixels@.subrange(0, i as int).contains(c) by {
            if pixels@.subrange(0, i as int).contains(c) && c != p {
                let j = choose|j: int| 0 <= j < i && #[trigger] pixels@.subrange(0, i as int)[j] == c;
                assert(prefix@[j] == c);
            }
            if prefix@.contains(c) {
                let j = choose|j: int| 0 <= j < prefix@.len() && #[trigger] prefix@[j] == c;
                assert(pixels@.subrange(0, i as int)[j] == c);
            }
            if c == p {
                assert(pixels@.subrange(0, i as int)[i - 1] == c);
            }
        }
        assert forall|c: u32| m@.contains_key(c) implies #[trigger] m@[c] == count_of(pixels@.subrange(0, i as int), c) by {
            if c != p {
                assert(prefix@.contains(c));
            } else if !prefix@.contains(c) {
                lemma_count_zero(prefix@, p);
            }
        }
    }
    assert(pixels@.subrange(0, pixels@.len() as int) =~= pixels@);
    m
}

/// The most frequent colour of `pixels` (the first to reach the highest count);
/// 0 for no pixels.
pub fn get_background_color(pixels: &[u32]) -> (r: u32)
    ensures
        pixels@.len() == 0 ==> r == 0,
        pixels@.len() > 0 ==> pixels@.contains(r),
        forall|c: u32| #[trigger] count_of(pixels@, c) <= count_of(pixels@, r),
{
    if pixels.len() == 0 {
        proof {
            assert forall|c: u32| #[trigger] count_of(pixels@, c) <= count_of(pixels@, 0) by {}
        }
        return 0;
    }
    let counts = color_counts(pixels);
    let mut best: u32 = pixels[0];
    assert(counts@.contains_key(best)) by {
        assert(pixels@[0] == best);
    }
    let mut best_count: usize = *counts.get(&best).unwrap();
    let mut i: usize = 1;
    while i < pixels.len()
        invariant
            1 <= i <= pixels@.len(),
            pixels@.contains(best),
            best_count == count_of(pixels@, best),
            forall|c: u32| #[trigger] counts@.contains_key(c) <==> pixels@.contains(c),
            forall|c: u32| counts@.contains_key(c) ==> #[trigger] counts@[c] == count_of(pixels@, c),
            forall|j: int| 0 <= j < i ==> count_of(pixels@, #[trigger] pixels@[j]) <= best_count,
        decreases pixels@.len() - i,
    {
        let p = pixels[i];
        assert(counts@.contains_key(p)) by {
            assert(pixels@[i as int] == p);
        }
        let c = *counts.get(&p).unwrap();
        if c > best_count {
            best = p;
            best_count = c;
            assert(pixels@[i as int] == p);
        }
        i += 1;
    }
    proof {
        assert forall|c: u32| #[trigger] count_of(pixels@, c) <= count_of(pixels@, best) by {
            if pixels@.contains(c) {
                let j = choose|j: int| 0 <= j < pixels@.len() && #[trigger] pixels@[j] == c;
                assert(count_of(pixels@, pixels@[j]) <= best_count);
            } else {
                lemma_count_zero(pixels@, c);
            }
        }
    }
    best
}

/// Copies the `tw` by `th` tile at (`x`, `y`) out of a `width`-wide pixel array.
pub fn extract_tile(pixels: &[u32], width: usize, x: usize, y: usize, tw: usize, th: usize) -> (r:
    Vec<u32>)
    requires
        x + tw <= width,
        y + th <= usize::MAX,
        (y + th) * width <= pixels@.len(),
    ensures
        r@.len() == tw * th,
        forall|dy: int, dx: int|
            0 <= dy < th && 0 <= dx < tw ==> #[trigger] r@[dy * tw + dx] == pixels@[(y + dy) * width
                + x + dx],
{
    let len = pixels.len();
    let mut tile: Vec<u32> = Vec::new();
    let mut dy: usize = 0;
    while dy < th
        invariant
            len == pixels@.len(),
            y + th <= usize::MAX,
            x + tw <= width,
            (y + th) * width <= pixels@.len(),
            dy <= th,
            tile@.len() == dy * tw,
            forall|ddy: int, ddx: int|
                0 <= ddy < dy && 0 <= ddx < tw ==> #[trigger] tile@[ddy * tw + ddx] == pixels@[(y
                    + ddy) * width + x + ddx],
        decreases th - dy,
    {
        let mut dx: usize = 0;
        assert((y + dy) * width + x + tw <= (y + th) * width) by (nonlinear_arith)
            requires dy < th, x + tw <= width;
        while dx < tw
            invariant
                len == pixels@.len(),
                y + th <= usize::MAX,
                x + tw <= width,
                (y + th) * width <= pixels@.len(),
                (y + dy) * width + x + tw <= (y + th) * width,
                dy < th,
                dx <= tw,
                tile@.len() == dy * tw + dx,
                forall|ddy: int, ddx: int|
                    0 <= ddy < dy && 0 <= ddx < tw ==> #[trigger] tile@[ddy * tw + ddx] == pixels@[(y
                        + ddy) * width + x + ddx],
                forall|ddx: int| 0 <= ddx < dx ==> #[trigger] tile@[dy * tw + ddx] == pixels@[(y
                    + dy) * width + x + ddx],
            decreases tw - dx,
        {
            assert((y + dy) * width + x + dx < len);
            let row: usize = (y + dy) * width;
            tile.push(pixels[row + (x + dx)]);
            proof {
                assert forall|ddy: int, ddx: int|
                    0 <= ddy < dy && 0 <= ddx < tw implies #[trigger] tile@[ddy * tw + ddx] == pixels@[(y
                        + ddy) * width + x + ddx] by {
                    assert(ddy * tw + ddx < dy * tw) by (nonlinear_arith)
                        requires ddy < dy, ddx < tw, 0 <= ddx;
                }
            }
            dx += 1;
        }
        proof {
            assert forall|ddy: int, ddx: int|
                0 <= ddy < dy + 1 && 0 <= ddx < tw implies #[trigger] tile@[ddy * tw + ddx] == pixels@[(y
                    + ddy) * width + x + ddx] by {
                if ddy == dy {
                }
            }
            assert(dy * tw + tw == (dy + 1) * tw) by (nonlinear_arith);
        }
        dy += 1;
    }
    tile
}

/// Whether every pixel has the colour of the first; `None` for no pixels.
pub fn check_solid_color(pixels: &[u32]) -> (r: Option<u32>)
    ensures
        r matches Some(c) ==> pixels@.len() > 0 && c == pixels@[0] && forall|i: int|
            0 <= i < pixels@.len() ==> pixels@[i] == c,
        r is None ==> pixels@.len() == 0 || exists|i: int| 0 <= i < pixels@.len() && #[trigger] pixels@[i] != pixels@[0],
{
    if pixels.len() == 0 {
        return None;
    }
    let first = pixels[0];
    let mut i: usize = 1;
    while i < pixels.len()
        invariant
            1 <= i <= pixels@.len(),
            first == pixels@[0],
            forall|j: int| 0 <= j < i ==> pixels@[j] == first,
        decreases pixels@.len() - i,
    {
        if pixels[i] != first {
            return None;
        }
        i += 1;
    }
    Some(first)
}

/// The distinct colours of `pixels`, each once, most frequent first.
pub fn build_palette(pixels: &[u32]) -> (r: Vec<u32>)
    ensures
        forall|c: u32| r@.contains(c) <==> pixels@.contains(c),
        forall|i: int, j: int| 0 <= i < j < r@.len() ==> r@[i] != r@[j],
        forall|i: int, j: int|
            0 <= i < j < r@.len() ==> count_of(pixels@, #[trigger] r@[i]) >= count_of(pixels@, #[trigger] r@[j]),
{
    let counts = color_counts(pixels);
    let mut seen: HashMapWithView<u32, usize> = HashMapWithView::new();
    // (colour, count) pairs, kept sorted by count, highest first.
    let mut pal: Vec<(u32, usize)> = Vec::new();
    let mut i: usize = 0;
    while i < pixels.len()
        invariant
            i <= pixels@.len(),
            forall|c: u32| #[trigger] counts@.contains_key(c) <==> pixels@.contains(c),
            forall|c: u32| counts@.contains_key(c) ==> #[trigger] counts@[c] == count_of(pixels@, c),
            forall|c: u32| #[trigger] seen@.contains_key(c) <==> exists|k: int| 0 <= k < pal@.len() && #[trigger] pal@[k].0 == c,
            forall|c: u32| seen@.contains_key(c) <==> pixels@.subrange(0, i as int).contains(c),
            forall|k: int| 0 <= k < pal@.len() ==> #[trigger] pal@[k].1 == count_of(pixels@, pal@[k].0),
            forall|a: int, b: int| 0 <= a < b < pal@.len() ==> pal@[a].0 != pal@[b].0,
            forall|a: int, b: int| 0 <= a < b < pal@.len() ==> #[trigger] pal@[a].1 >= #[trigger] pal@[b].1,
        decreases pixels@.len() - i,
    {
        let p = pixels[i];
        assert(pixels@.subrange(0, i + 1) =~= pixels@.subrange(0, i as int).push(p));
        if !seen.contains_key(&p) {
            assert(counts@.contains_key(p)) by {
                assert(pixels@[i as int] == p);
            }
            let cnt = *counts.get(&p).unwrap();
            // Find the insertion point: after every entry with a count >= cnt.
            let mut pos: usize = 0;
            while pos < pal.len() && pal[pos].1 >= cnt
                invariant
                    pos <= pal@.len(),
                    forall|k: int| 0 <= k < pos ==> #[trigger] pal@[k].1 >= cnt,
                decreases pal@.len() - pos,
            {
                pos += 1;
            }
            proof {
                assert forall|k: int| pos <= k < pal@.len() implies #[trigger] pal@[k].1 < cnt by {
                    if pos < pal@.len() {
                        assert(pal@[pos as int].1 >= pal@[k].1 || pos == k);
                    }
                }
            }
            let ghost old_pal = pal@;
            pal.insert(pos, (p, cnt));
            seen.insert(p, 0);
            proof {
                assert forall|c: u32| #[trigger] seen@.contains_key(c) <==> exists|k: int| 0 <= k < pal@.len() && #[trigger] pal@[k].0 == c by {
                    if seen@.contains_key(c) {
                        if c == p {
                            assert(pal@[pos as int].0 == c);
                        } else {
                            let k = choose|k: int| 0 <= k < old_pal.len() && #[trigger] old_pal[k].0 == c;
                            if k < pos {
                                assert(pal@[k].0 == c);
                            } else {
                                assert(pal@[k + 1].0 == c);
                            }
                        }
                    }
                    if exists|k: int| 0 <= k < pal@.len() && #[trigger] pal@[k].0 == c {
                        let k = choose|k: int| 0 <= k < pal@.len() && #[trigger] pal@[k].0 == c;
                        if k < pos {
                            assert(old_pal[k].0 == c);
                        } else if k > pos {
                            assert(old_pal[k - 1].0 == c);
                        }
                    }
                }
                assert forall|a: int, b: int| 0 <= a < b < pal@.len() implies pal@[a].0 != pal@[b].0 by {
                    if a == pos {
                        assert(old_pal[b - 1].0 != p);
                    } else if b == pos {
                        assert(old_pal[a].0 != p);
                    }
                }
            }
        } else {
            proof {
                assert forall|c: u32| seen@.contains_key(c) <==> pixels@.subrange(0, i + 1).contains(c) by {
                    if pixels@.subrange(0, i + 1).contains(c) && c != p {
                        let j = choose|j: int| 0 <= j < i + 1 && #[trigger] pixels@.subrange(0, i + 1)[j] == c;
                        assert(pixels@.subrange(0, i as int)[j] == c);
                    }
                    if pixels@.subrange(0, i as int).contains(c) {
                        let j = choose|j: int| 0 <= j < i && #[trigger] pixels@.subrange(0, i as int)[j] == c;
                        assert(pixels@.subrange(0, i + 1)[j] == c);
                    }
                }
            }
        }
        proof {
            assert forall|c: u32| seen@.contains_key(c) <==> pixels@.subrange(0, i + 1).contains(c) by {
                if pixels@.subrange(0, i + 1).contains(c) && c != p {
                    let j = choose|j: int| 0 <= j < i + 1 && #[trigger] pixels@.subrange(0, i + 1)[j] == c;
                    assert(pixels@.subrange(0, i as int)[j] == c);
                }
                if pixels@.subrange(0, i as int).contains(c) {
                    let j = choose|j: int| 0 <= j < i && #[trigger] pixels@.subrange(0, i as int)[j] == c;
                    assert(pixels@.subrange(0, i + 1)[j] == c);
                }
                if c == p {
                    assert(pixels@.subrange(0, i + 1)[i as int] == c);
                }
            }
        }
        i += 1;
    }
    assert(pixels@.subrange(0, pixels@.len() as int) =~= pixels@);
    let mut out: Vec<u32> = Vec::new();
    let mut k: usize = 0;
    while k < pal.len()
        invariant
            k <= pal@.len(),
            out@.len() == k,
            forall|j: int| 0 <= j < k ==> out@[j] == #[trigger] pal@[j].0,
        decreases pal@.len() - k,
    {
        out.push(pal[k].0);
        k += 1;
    }
    proof {
        assert forall|c: u32| out@.contains(c) <==> pixels@.contains(c) by {
            if out@.contains(c) {
                let j = choose|j: int| 0 <= j < out@.len() && #[trigger] out@[j] == c;
                assert(pal@[j].0 == c);
                assert(seen@.contains_key(c));
            }
            if pixels@.contains(c) {
                assert(seen@.contains_key(c));
                let j = choose|j: int| 0 <= j < pal@.len() && #[trigger] pal@[j].0 == c;
                assert(out@[j] == c);
            }
        }
        assert forall|a: int, b: int| 0 <= a < b < out@.len() implies out@[a] != out@[b] by {
            assert(pal@[a].0 != pal@[b].0);
        }
        assert forall|a: int, b: int|
            0 <= a < b < out@.len() implies count_of(pixels@, #[trigger] out@[a]) >= count_of(pixels@, #[trigger] out@[b]) by {
            assert(pal@[a].1 >= pal@[b].1);
        }
    }
    out
}

/// The pixel at column `x`, row `y` of a `width`-wide array.
pub open spec fn px<T>(s: Seq<T>, width: nat, x: int, y: int) -> T {
    s[y * width + x]
}

pub proof fn lemma_index(width: nat, height: nat, x: int, y: int)
    requires
        0 <= x < width,
        0 <= y < height,
    ensures
        0 <= y * width + x < width * height,
{
    assert(y * width + x < width * height) by (nonlinear_arith)
        requires 0 <= x < width, 0 <= y < height;
    assert(0 <= y * width) by (nonlinear_arith)
        requires 0 <= y, 0 <= width;
}

pub proof fn lemma_index_unique(width: nat, x1: int, y1: int, x2: int, y2: int)
    requires
        0 <= x1 < width,
        0 <= x2 < width,
        0 <= y1,
        0 <= y2,
        y1 * width + x1 == y2 * width + x2,
    ensures
        x1 == x2 && y1 == y2,
{
    if y1 < y2 {
        assert(y1 * width + width <= y2 * width) by (nonlinear_arith)
            requires y1 < y2, 0 <= width;
    } else if y2 < y1 {
        assert(y2 * width + width <= y1 * width) by (nonlinear_arith)
            requires y2 < y1, 0 <= width;
    }
}

/// The row-order position of the top-left pixel of `s` in a `width`-wide array.
pub open spec fn corner(s: Subrect, width: nat) -> int {
    s.y * width + s.x
}

/// Subrectangle `s` covers the pixel (`x`, `y`).
pub open spec fn covers(s: Subrect, x: int, y: int) -> bool {
    s.x <= x < s.x + s.w && s.y <= y < s.y + s.h
}

/// Subrectangle `s` is non-empty and lies inside a `width` by `height` rectangle.
pub open spec fn subrect_in(s: Subrect, width: nat, height: nat) -> bool {
    s.w >= 1 && s.h >= 1 && s.x + s.w <= width && s.y + s.h <= height
}

/// The subrectangles lie inside the rectangle, differ from `bg`, hold only
/// pixels of their own colour, and do not overlap.
pub open spec fn is_partial_carving(pixels: Seq<u32>, width: nat, height: nat, bg: u32, rs: Seq<Subrect>) -> bool {
    &&& forall|k: int| 0 <= k < rs.len() ==> subrect_in(#[trigger] rs[k], width, height) && rs[k].color != bg
    &&& forall|k: int, x: int, y: int|
        0 <= k < rs.len() && #[trigger] covers(rs[k], x, y) ==> px(pixels, width, x, y) == rs[k].color
    &&& forall|k1: int, k2: int, x: int, y: int|
        0 <= k1 < rs.len() && 0 <= k2 < rs.len() && k1 != k2 && #[trigger] covers(rs[k1], x, y)
            ==> !#[trigger] covers(rs[k2], x, y)
}

/// `rs` carves every pixel that differs from `bg` into disjoint single-coloured
/// rectangles: painting `bg` and then each subrectangle gives back `pixels`.
pub open spec fn is_carving(pixels: Seq<u32>, width: nat, height: nat, bg: u32, rs: Seq<Subrect>) -> bool {
    &&& is_partial_carving(pixels, width, height, bg, rs)
    &&& forall|x: int, y: int|
        0 <= x < width && 0 <= y < height && #[trigger] px(pixels, width, x, y) != bg ==> exists|k: int|
            0 <= k < rs.len() && #[trigger] covers(rs[k], x, y)
}

/// The pixel (`x`, `y`) is not yet carved and has colour `color`.
pub open spec fn free_px(pixels: Seq<u32>, marked: Seq<bool>, width: nat, x: int, y: int, color: u32) -> bool {
    !px(marked, width, x, y) && px(pixels, width, x, y) == color
}

/// Every pixel of the `rw` by `rh` rectangle at (`x`, `y`) is free and of colour `color`.
pub open spec fn free_rect(pixels: Seq<u32>, marked: Seq<bool>, width: nat, x: int, y: int, rw: int, rh: int, color: u32) -> bool {
    forall|dx: int, dy: int| 0 <= dx < rw && 0 <= dy < rh ==> #[trigger] free_px(pixels, marked, width, x + dx, y + dy, color)
}

/// How many pixels from (`x`, `y`) rightwards are free and of colour `color`.
fn scan_row(pixels: &[u32], marked: &Vec<bool>, width: usize, height: usize, x: usize, y: usize, n: usize, color: u32) -> (r: usize)
    requires
        pixels@.len() == width * height,
        marked@.len() == width * height,
        width * height <= usize::MAX,
        x + n <= width,
        y < height,
    ensures
        r <= n,
        forall|dx: int| 0 <= dx < r ==> #[trigger] free_px(pixels@, marked@, width as nat, x + dx, y as int, color),
        r < n ==> !free_px(pixels@, marked@, width as nat, x + r, y as int, color),
{
    let mut i: usize = 0;
    while i < n
        invariant
            pixels@.len() == width * height,
            marked@.len() == width * height,
            width * height <= usize::MAX,
            x + n <= width,
            y < height,
            i <= n,
            forall|dx: int| 0 <= dx < i ==> #[trigger] free_px(pixels@, marked@, width as nat, x + dx, y as int, color),
        decreases n - i,
    {
        proof {
            lemma_index(width as nat, height as nat, (x + i) as int, y as int);
        }
        let idx = y * width + (x + i);
        if marked[idx] || pixels[idx] != color {
            return i;
        }
        i += 1;
    }
    i
}

/// How many pixels from (`x`, `y`) downwards are free and of colour `color`.
fn scan_col(pixels: &[u32], marked: &Vec<bool>, width: usize, height: usize, x: usize, y: usize, n: usize, color: u32) -> (r: usize)
    requires
        pixels@.len() == width * height,
        marked@.len() == width * height,
        width * height <= usize::MAX,
        x < width,
        y + n <= height,
    ensures
        r <= n,
        forall|dy: int| 0 <= dy < r ==> #[trigger] free_px(pixels@, marked@, width as nat, x as int, y + dy, color),
        r < n ==> !free_px(pixels@, marked@, width as nat, x as int, y + r, color),
{
    let mut i: usize = 0;
    while i < n
        invariant
            pixels@.len() == width * height,
            marked@.len() == width * height,
            width * height <= usize::MAX,
            x < width,
            y + n <= height,
            i <= n,
            forall|dy: int| 0 <= dy < i ==> #[trigger] free_px(pixels@, marked@, width as nat, x as int, y + dy, color),
        decreases n - i,
    {
        proof {
            lemma_index(width as nat, height as nat, x as int, (y + i) as int);
        }
        let idx = (y + i) * width + x;
        if marked[idx] || pixels[idx] != color {
            return i;
        }
        i += 1;
    }
    i
}

/// Marks the `w` by `h` rectangle at (`x`, `y`) as carved.
fn mark_rect(marked: &mut Vec<bool>, width: usize, height: usize, x: usize, y: usize, w: usize, h: usize)
    requires
        old(marked)@.len() == width * height,
        width * height <= usize::MAX,
        x + w <= width,
        y + h <= height,
    ensures
        final(marked)@.len() == width * height,
        forall|xx: int, yy: int|
            0 <= xx < width && 0 <= yy < height ==> #[trigger] px(final(marked)@, width as nat, xx, yy) == (px(
                old(marked)@,
                width as nat,
                xx,
                yy,
            ) || (x <= xx < x + w && y <= yy < y + h)),
{
    let ghost orig = marked@;
    let mut dy: usize = 0;
    while dy < h
        invariant
            marked@.len() == width * height,
            width * height <= usize::MAX,
            orig.len() == width * height,
            x + w <= width,
            y + h <= height,
            dy <= h,
            forall|xx: int, yy: int|
                0 <= xx < width && 0 <= yy < height ==> #[trigger] px(marked@, width as nat, xx, yy) == (px(
                    orig,
                    width as nat,
                    xx,
                    yy,
                ) || (x <= xx < x + w && y <= yy < y + dy)),
        decreases h - dy,
    {
        let mut dx: usize = 0;
        while dx < w
            invariant
                marked@.len() == width * height,
                width * height <= usize::MAX,
                orig.len() == width * height,
                x + w <= width,
                y + h <= height,
                dy < h,
                dx <= w,
                forall|xx: int, yy: int|
                    0 <= xx < width && 0 <= yy < height ==> #[trigger] px(marked@, width as nat, xx, yy) == (px(
                        orig,
                        width as nat,
                        xx,
                        yy,
                    ) || (x <= xx < x + w && y <= yy < y + dy) || (yy == y + dy && x <= xx < x + dx)),
            decreases w - dx,
        {
            proof {
                lemma_index(width as nat, height as nat, (x + dx) as int, (y + dy) as int);
            }
            let idx = (y + dy) * width + (x + dx);
            let ghost before = marked@;
            marked.set(idx, true);
            proof {
                assert forall|xx: int, yy: int|
                    0 <= xx < width && 0 <= yy < height implies #[trigger] px(marked@, width as nat, xx, yy) == (px(
                        orig,
                        width as nat,
                        xx,
                        yy,
                    ) || (x <= xx < x + w && y <= yy < y + dy) || (yy == y + dy && x <= xx < x + dx + 1)) by {
                    lemma_index(width as nat, height as nat, xx, yy);
                    if yy * width + xx == idx {
                        lemma_index_unique(width as nat, xx, yy, (x + dx) as int, (y + dy) as int);
                    } else {
                        assert(px(marked@, width as nat, xx, yy) == px(before, width as nat, xx, yy));
                    }
                }
            }
            dx += 1;
        }
        dy += 1;
    }
}

/// Carves the pixels of a `width` by `height` array that differ from
/// `bg_color` into disjoint single-coloured rectangles, greedily: each
/// uncarved pixel, in row order, starts the larger of a rectangle grown
/// rightwards first and one grown downwards first.
pub fn find_subrects(pixels: &[u32], width: usize, height: usize, bg_color: u32) -> (r: Vec<Subrect>)
    requires
        pixels@.len() == width * height,
        width <= 0xffff,
        height <= 0xffff,
    ensures
        is_carving(pixels@, width as nat, height as nat, bg_color, r@),
        r@.len() <= width * height,
        forall|k1: int, k2: int| 0 <= k1 < k2 < r@.len() ==> corner(#[trigger] r@[k1], width as nat) < corner(#[trigger] r@[k2], width as nat),
        forall|k: int, xx: int, yy: int|
            0 <= k < r@.len() && 0 <= xx < width && 0 <= yy < height && yy * width + xx < corner(#[trigger] r@[k], width as nat)
                && #[trigger] px(pixels@, width as nat, xx, yy) != bg_color ==> exists|j: int| 0 <= j < k && #[trigger] covers(r@[j], xx, yy),
{
    let ghost w = width as nat;
    assert(width * height <= 0xffff * 0xffff) by (nonlinear_arith)
        requires width <= 0xffff, height <= 0xffff;
    let mut subrects: Vec<Subrect> = Vec::new();
    let mut marked: Vec<bool> = vec![false; pixels.len()];
    proof {
        assert forall|xx: int, yy: int| 0 <= xx < width && 0 <= yy < height implies !#[trigger] px(marked@, w, xx, yy) by {
            lemma_index(w, height as nat, xx, yy);
        }
    }
    let mut y: usize = 0;
    while y < height
        invariant
            pixels@.len() == width * height,
            marked@.len() == width * height,
            width * height <= 0xffff * 0xffff,
            width <= 0xffff,
            height <= 0xffff,
            y <= height,
            w == width,
            subrects@.len() <= y * width,
            forall|k: int| 0 <= k < subrects@.len() ==> #[trigger] corner(subrects@[k], w) < y * width,
            forall|k1: int, k2: int| 0 <= k1 < k2 < subrects@.len() ==> corner(#[trigger] subrects@[k1], w) < corner(#[trigger] subrects@[k2], w),
            forall|k: int, xx: int, yy: int|
                0 <= k < subrects@.len() && 0 <= xx < width && 0 <= yy < height && yy * width + xx < corner(#[trigger] subrects@[k], w)
                    && #[trigger] px(pixels@, w, xx, yy) != bg_color ==> exists|j: int| 0 <= j < k && #[trigger] covers(subrects@[j], xx, yy),
            is_partial_carving(pixels@, w, height as nat, bg_color, subrects@),
            forall|xx: int, yy: int| 0 <= xx < width && 0 <= yy < height ==> (#[trigger] px(marked@, w, xx, yy) <==> exists|k: int| 0 <= k < subrects@.len() && #[trigger] covers(subrects@[k], xx, yy)),
            forall|xx: int, yy: int| 0 <= xx < width && 0 <= yy < y && #[trigger] px(pixels@, w, xx, yy) != bg_color ==> px(marked@, w, xx, yy),
        decreases height - y,
    {
        let mut x: usize = 0;
        while x < width
            invariant
                pixels@.len() == width * height,
                marked@.len() == width * height,
                width * height <= 0xffff * 0xffff,
                width <= 0xffff,
                height <= 0xffff,
                y < height,
                x <= width,
                w == width,
                subrects@.len() <= y * width + x,
                forall|k: int| 0 <= k < subrects@.len() ==> #[trigger] corner(subrects@[k], w) < y * width + x,
                forall|k1: int, k2: int| 0 <= k1 < k2 < subrects@.len() ==> corner(#[trigger] subrects@[k1], w) < corner(#[trigger] subrects@[k2], w),
                forall|k: int, xx: int, yy: int|
                    0 <= k < subrects@.len() && 0 <= xx < width && 0 <= yy < height && yy * width + xx < corner(#[trigger] subrects@[k], w)
                        && #[trigger] px(pixels@, w, xx, yy) != bg_color ==> exists|j: int| 0 <= j < k && #[trigger] covers(subrects@[j], xx, yy),
                is_partial_carving(pixels@, w, height as nat, bg_color, subrects@),
                forall|xx: int, yy: int| 0 <= xx < width && 0 <= yy < height ==> (#[trigger] px(marked@, w, xx, yy) <==> exists|k: int| 0 <= k < subrects@.len() && #[trigger] covers(subrects@[k], xx, yy)),
                forall|xx: int, yy: int| 0 <= xx < width && 0 <= yy < height && (yy < y || (yy == y && xx < x)) && #[trigger] px(pixels@, w, xx, yy) != bg_color ==> px(marked@, w, xx, yy),
            decreases width - x,
        {
            proof {
                lemma_index(w, height as nat, x as int, y as int);
            }
            let idx = y * width + x;
            if !marked[idx] && pixels[idx] != bg_color {
                let color = pixels[idx];
                // Grow rightwards, then downwards.
                let max_w = scan_row(pixels, &marked, width, height, x, y, width - x, color);
                assert(free_px(pixels@, marked@, w, x + 0, y as int, color));
                let mut h: usize = 1;
                let mut growing = true;
                while growing && y + h < height
                    invariant
                        pixels@.len() == width * height,
                        marked@.len() == width * height,
                        width * height <= 0xffff * 0xffff,
                        w == width,
                        x + max_w <= width,
                        y + h <= height,
                        h >= 1,
                        free_rect(pixels@, marked@, w, x as int, y as int, max_w as int, h as int, color),
                    decreases (height - h) as int + if growing { 1int } else { 0int },
                {
                    let n = scan_row(pixels, &marked, width, height, x, y + h, max_w, color);
                    if n == max_w {
                        proof {
                            assert forall|dx: int, dy: int| 0 <= dx < max_w && 0 <= dy < h + 1 implies #[trigger] free_px(pixels@, marked@, w, x + dx, y + dy, color) by {
                                if dy == h {
                                    assert(free_px(pixels@, marked@, w, x + dx, (y + h) as int, color));
                                }
                            }
                        }
                        h += 1;
                    } else {
                        growing = false;
                    }
                }
                // Grow downwards, then rightwards.
                let max_h = scan_col(pixels, &marked, width, height, x, y, height - y, color);
                assert(free_px(pixels@, marked@, w, x as int, y + 0, color));
                let mut w2: usize = 1;
                let mut growing2 = true;
                while growing2 && x + w2 < width
                    invariant
                        pixels@.len() == width * height,
                        marked@.len() == width * height,
                        width * height <= 0xffff * 0xffff,
                        w == width,
                        x + w2 <= width,
                        y + max_h <= height,
                        w2 >= 1,
                        free_rect(pixels@, marked@, w, x as int, y as int, w2 as int, max_h as int, color),
                    decreases (width - w2) as int + if growing2 { 1int } else { 0int },
                {
                    let n = scan_col(pixels, &marked, width, height, x + w2, y, max_h, color);
                    if n == max_h {
                        proof {
                            assert forall|dx: int, dy: int| 0 <= dx < w2 + 1 && 0 <= dy < max_h implies #[trigger] free_px(pixels@, marked@, w, x + dx, y + dy, color) by {
                                if dx == w2 {
                                    assert(free_px(pixels@, marked@, w, (x + w2) as int, y + dy, color));
                                }
                            }
                        }
                        w2 += 1;
                    } else {
                        growing2 = false;
                    }
                }
                assert(w2 * max_h <= 0xffff * 0xffff) by (nonlinear_arith)
                    requires w2 <= 0xffff, max_h <= 0xffff;
                assert(max_w * h <= 0xffff * 0xffff) by (nonlinear_arith)
                    requires max_w <= 0xffff, h <= 0xffff;
                let mut best_w = max_w;
                let mut best_h = h;
                if w2 * max_h > best_w * best_h {
                    best_w = w2;
                    best_h = max_h;
                }
                assert(free_rect(pixels@, marked@, w, x as int, y as int, best_w as int, best_h as int, color));
                assert(best_w >= 1 && best_h >= 1);
                let ghost old_marked = marked@;
                let ghost old_rs = subrects@;
                mark_rect(&mut marked, width, height, x, y, best_w, best_h);
                let sr = Subrect { color, x: x as u16, y: y as u16, w: best_w as u16, h: best_h as u16 };
                subrects.push(sr);
                proof {
                    let n = old_rs.len() as int;
                    assert(subrects@[n] == sr);
                    assert forall|xx: int, yy: int| #[trigger] covers(sr, xx, yy) implies px(pixels@, w, xx, yy) == color && !px(old_marked, w, xx, yy) by {
                        assert(free_px(pixels@, old_marked, w, x + (xx - x), y + (yy - y), color));
                    }
                    assert forall|k: int| 0 <= k < subrects@.len() implies subrect_in(#[trigger] subrects@[k], w, height as nat) && subrects@[k].color != bg_color by {
                        if k < n {
                            assert(subrects@[k] == old_rs[k]);
                        }
                    }
                    assert forall|k: int, xx: int, yy: int|
                        0 <= k < subrects@.len() && #[trigger] covers(subrects@[k], xx, yy) implies px(pixels@, w, xx, yy) == subrects@[k].color by {
                        if k < n {
                            assert(subrects@[k] == old_rs[k]);
                        }
                    }
                    assert forall|k1: int, k2: int, xx: int, yy: int|
                        0 <= k1 < subrects@.len() && 0 <= k2 < subrects@.len() && k1 != k2 && #[trigger] covers(subrects@[k1], xx, yy)
                            implies !#[trigger] covers(subrects@[k2], xx, yy) by {
                        if k1 < n && k2 < n {
                            assert(subrects@[k1] == old_rs[k1]);
                            assert(subrects@[k2] == old_rs[k2]);
                        } else if k1 == n {
                            assert(subrects@[k2] == old_rs[k2]);
                            if covers(old_rs[k2], xx, yy) {
                                assert(subrect_in(old_rs[k2], w, height as nat));
                                assert(px(old_marked, w, xx, yy));
                            }
                        } else {
                            assert(subrects@[k1] == old_rs[k1]);
                            if covers(sr, xx, yy) {
                                assert(subrect_in(old_rs[k1], w, height as nat));
                                assert(px(old_marked, w, xx, yy));
                            }
                        }
                    }
                    assert forall|k: int, xx: int, yy: int|
                        0 <= k < subrects@.len() && 0 <= xx < width && 0 <= yy < height && yy * width + xx < corner(#[trigger] subrects@[k], w)
                            && #[trigger] px(pixels@, w, xx, yy) != bg_color implies exists|j: int| 0 <= j < k && #[trigger] covers(subrects@[j], xx, yy) by {
                        if k < n {
                            assert(subrects@[k] == old_rs[k]);
                            let j = choose|j: int| 0 <= j < k && #[trigger] covers(old_rs[j], xx, yy);
                            assert(subrects@[j] == old_rs[j]);
                        } else {
                            assert(corner(subrects@[k], w) == y * width + x);
                            assert(yy < y || (yy == y && xx < x)) by (nonlinear_arith)
                                requires yy * width + xx < y * width + x, 0 <= xx < width, 0 <= x < width, 0 <= yy;
                            assert(px(old_marked, w, xx, yy));
                            let j = choose|j: int| 0 <= j < old_rs.len() && #[trigger] covers(old_rs[j], xx, yy);
                            assert(subrects@[j] == old_rs[j]);
                        }
                    }
                    assert forall|xx: int, yy: int| 0 <= xx < width && 0 <= yy < height implies (#[trigger] px(marked@, w, xx, yy) <==> exists|k: int| 0 <= k < subrects@.len() && #[trigger] covers(subrects@[k], xx, yy)) by {
                        if px(marked@, w, xx, yy) {
                            if covers(sr, xx, yy) {
                                assert(covers(subrects@[n], xx, yy));
                            } else {
                                assert(px(old_marked, w, xx, yy));
                                let k = choose|k: int| 0 <= k < old_rs.len() && #[trigger] covers(old_rs[k], xx, yy);
                                assert(subrects@[k] == old_rs[k]);
                                assert(covers(subrects@[k], xx, yy));
                            }
                        }
                        if exists|k: int| 0 <= k < subrects@.len() && #[trigger] covers(subrects@[k], xx, yy) {
                            let k = choose|k: int| 0 <= k < subrects@.len() && #[trigger] covers(subrects@[k], xx, yy);
                            if k < n {
                                assert(subrects@[k] == old_rs[k]);
                                assert(covers(old_rs[k], xx, yy));
                            }
                        }
                    }
                }
            }
            x += 1;
        }
        assert(y * width + width == (y + 1) * width) by (nonlinear_arith);
        y += 1;
    }
    assert(height * width == width * height) by (nonlinear_arith);
    subrects
}

/// The colour at (`x`, `y`) after painting `bg` and then each subrectangle in turn.
pub open spec fn paint(rs: Seq<Subrect>, bg: u32, x: int, y: int) -> u32
    decreases rs.len(),
{
    if rs.len() == 0 {
        bg
    } else if covers(rs.last(), x, y) {
        rs.last().color
    } else {
        paint(rs.drop_last(), bg, x, y)
    }
}

proof fn lemma_paint_one(rs: Seq<Subrect>, bg: u32, x: int, y: int)
    ensures
        (forall|k: int| 0 <= k < rs.len() ==> !#[trigger] covers(rs[k], x, y)) ==> paint(rs, bg, x, y) == bg,
        forall|k: int|
            0 <= k < rs.len() && #[trigger] covers(rs[k], x, y) && (forall|j: int| 0 <= j < rs.len() && j != k ==> !#[trigger] covers(rs[j], x, y))
                ==> paint(rs, bg, x, y) == rs[k].color,
    decreases rs.len(),
{
    if rs.len() > 0 {
        let d = rs.drop_last();
        lemma_paint_one(d, bg, x, y);
        assert forall|k: int| 0 <= k < d.len() implies #[trigger] d[k] == rs[k] by {}
        if forall|k: int| 0 <= k < rs.len() ==> !#[trigger] covers(rs[k], x, y) {
            assert(!covers(rs[rs.len() - 1], x, y));
            assert forall|k: int| 0 <= k < d.len() implies !#[trigger] covers(d[k], x, y) by {
                assert(!covers(rs[k], x, y));
            }
        }
        assert forall|k: int|
            0 <= k < rs.len() && #[trigger] covers(rs[k], x, y) && (forall|j: int| 0 <= j < rs.len() && j != k ==> !#[trigger] covers(rs[j], x, y))
                implies paint(rs, bg, x, y) == rs[k].color by {
            if k < rs.len() - 1 {
                assert(!covers(rs[rs.len() - 1], x, y));
                assert(covers(d[k], x, y));
                assert forall|j: int| 0 <= j < d.len() && j != k implies !#[trigger] covers(d[j], x, y) by {
                    assert(!covers(rs[j], x, y));
                }
            }
        }
    }
}

/// Painting a carving over its background gives back the pixels it was carved from.
pub proof fn lemma_paint_carving(pixels: Seq<u32>, width: nat, height: nat, bg: u32, rs: Seq<Subrect>)
    requires
        is_carving(pixels, width, height, bg, rs),
    ensures
        forall|x: int, y: int| 0 <= x < width && 0 <= y < height ==> #[trigger] paint(rs, bg, x, y) == px(pixels, width, x, y),
{
    assert forall|x: int, y: int| 0 <= x < width && 0 <= y < height implies #[trigger] paint(rs, bg, x, y) == px(pixels, width, x, y) by {
        lemma_paint_one(rs, bg, x, y);
        if px(pixels, width, x, y) != bg {
            let k = choose|k: int| 0 <= k < rs.len() && #[trigger] covers(rs[k], x, y);
            assert forall|j: int| 0 <= j < rs.len() && j != k implies !#[trigger] covers(rs[j], x, y) by {}
        } else {
            assert forall|k: int| 0 <= k < rs.len() implies !#[trigger] covers(rs[k], x, y) by {
                if covers(rs[k], x, y) {
                    assert(px(pixels, width, x, y) == rs[k].color);
                }
            }
        }
    }
}

/// The colours of a tile for Hextile: (solid, mono, background, foreground).
/// A solid tile has one colour, the background; a mono tile has exactly two,
/// the background being at least as frequent as the foreground; otherwise the
/// background is the most frequent colour. No pixels count as solid black.
pub fn analyze_tile_colors(pixels: &[u32]) -> (r: (bool, bool, u32, u32))
    ensures
        pixels@.len() == 0 ==> r == (true, true, 0u32, 0u32),
        pixels@.len() > 0 ==> pixels@.contains(r.2),
        r.0 ==> r.1,
        r.0 && pixels@.len() > 0 ==> r.3 == 0 && forall|i: int| 0 <= i < pixels@.len() ==> pixels@[i] == r.2,
        !r.0 ==> exists|i: int| 0 <= i < pixels@.len() && pixels@[i] != r.2,
        r.1 && !r.0 ==> {
            &&& r.2 != r.3
            &&& pixels@.contains(r.3)
            &&& forall|i: int| 0 <= i < pixels@.len() ==> pixels@[i] == r.2 || pixels@[i] == r.3
            &&& count_of(pixels@, r.2) >= count_of(pixels@, r.3)
        },
        forall|a: u32, b: u32|
            a != b && pixels@.contains(a) && pixels@.contains(b) && (forall|i: int|
                0 <= i < pixels@.len() ==> #[trigger] pixels@[i] == a || pixels@[i] == b) ==> !r.0 && r.1 && ((r.2 == a
                && r.3 == b) || (r.2 == b && r.3 == a)),
        !r.1 ==> {
            &&& r.3 == 0
            &&& forall|c: u32| #[trigger] count_of(pixels@, c) <= count_of(pixels@, r.2)
            &&& exists|i: int, j: int|
                0 <= i < pixels@.len() && 0 <= j < pixels@.len() && pixels@[i] != r.2 && pixels@[j]
                    != r.2 && pixels@[i] != pixels@[j]
        },
{
    if pixels.len() == 0 {
        return (true, true, 0, 0);
    }
    let first = pixels[0];
    assert(pixels@.contains(first)) by { assert(pixels@[0] == first); }
    let mut second: Option<u32> = None;
    let mut i: usize = 1;
    // Find up to two distinct colours; stop at a third.
    while i < pixels.len()
        invariant
            1 <= i <= pixels@.len(),
            first == pixels@[0],
            second matches Some(s) ==> s != first && pixels@.contains(s),
            forall|j: int| 0 <= j < i ==> pixels@[j] == first || (second matches Some(s) && pixels@[j] == s),
            second is None ==> forall|j: int| 0 <= j < i ==> pixels@[j] == first,
        decreases pixels@.len() - i,
    {
        let p = pixels[i];
        if p != first {
            match second {
                None => {
                    second = Some(p);
                    assert(pixels@[i as int] == p);
                },
                Some(s) => {
                    if p != s {
                        // A third colour: the tile is neither solid nor mono.
                        let bg = get_background_color(pixels);
                        proof {
                            let si = choose|j: int| 0 <= j < pixels@.len() && #[trigger] pixels@[j] == s;
                            if bg == first {
                                assert(pixels@[si] != bg && pixels@[i as int] != bg && pixels@[si] != pixels@[i as int]);
                            } else if bg == s {
                                assert(pixels@[0] != bg && pixels@[i as int] != bg && pixels@[0] != pixels@[i as int]);
                            } else {
                                assert(pixels@[0] != bg && pixels@[si] != bg && pixels@[0] != pixels@[si]);
                            }
                        }
                        return (false, false, bg, 0);
                    }
                },
            }
        }
        i += 1;
    }
    match second {
        None => (true, true, first, 0),
        Some(s) => {
            let counts = color_counts(pixels);
            assert(counts@.contains_key(first) && counts@.contains_key(s));
            let n_first = *counts.get(&first).unwrap();
            let n_second = *counts.get(&s).unwrap();
            let si = Ghost(choose|j: int| 0 <= j < pixels@.len() && #[trigger] pixels@[j] == s);
            if n_first >= n_second {
                assert(pixels@[si@] != first);
                (false, true, first, s)
            } else {
                assert(pixels@[0] != s);
                (false, true, s, first)
            }
        },
    }
}

/// Appends a colour as four little-endian bytes.
pub fn put_pixel32(buf: &mut Vec<u8>, pixel: u32)
    ensures
        final(buf)@ == old(buf)@ + le32(pixel),
{
    put_u32_le(buf, pixel);
}

/// The three bytes red, green, blue of a colour `R | G << 8 | B << 16`.
pub open spec fn cpixel(c: u32) -> Seq<u8> {
    seq![(c % 256) as u8, ((c / 256) % 256) as u8, ((c / 0x1_0000) % 256) as u8]
}

/// Appends a colour as three bytes: red, green, blue.
pub fn put_pixel24(buf: &mut Vec<u8>, pixel: u32)
    ensures
        final(buf)@ == old(buf)@ + cpixel(pixel),
{
    put_u8(buf, (pixel % 256) as u8);
    put_u8(buf, ((pixel / 256) % 256) as u8);
    put_u8(buf, ((pixel / 0x1_0000) % 256) as u8);
    assert(final(buf)@ =~= old(buf)@ + cpixel(pixel));
}

/// The format has 24 bits of depth and 8 bits per component.
pub open spec fn is_depth24(f: PixelFormat) -> bool {
    f.depth == 24 && f.red_max == 255 && f.green_max == 255 && f.blue_max == 255
}

/// The bytes of one colour in a viewer's format: three bytes for a depth-24
/// format with 8-bit components, otherwise the translated pixel.
pub open spec fn client_pixel_spec(pixel: u32, f: PixelFormat) -> Seq<u8> {
    let r = (pixel % 256) as u8;
    let g = ((pixel / 256) % 256) as u8;
    let b = ((pixel / 0x1_0000) % 256) as u8;
    if is_depth24(f) {
        let v = ((r as u32) << f.red_shift) | ((g as u32) << f.green_shift) | ((b as u32)
            << f.blue_shift);
        if f.big_endian_flag != 0 {
            seq![((v / 0x1_0000) % 256) as u8, ((v / 256) % 256) as u8, (v % 256) as u8]
        } else {
            seq![(v % 256) as u8, ((v / 256) % 256) as u8, ((v / 0x1_0000) % 256) as u8]
        }
    } else {
        translate_spec(seq![r, g, b, 0u8], PixelFormat::rgba32_spec(), f)
    }
}

/// Writes one colour in the viewer's pixel format.
pub fn translate_pixel_to_client_format(pixel: u32, client_format: &PixelFormat) -> (r: Vec<u8>)
    requires
        shifts_fit(*client_format),
    ensures
        r@ == client_pixel_spec(pixel, *client_format),
{
    let r = (pixel % 256) as u8;
    let g = ((pixel / 256) % 256) as u8;
    let b = ((pixel / 0x1_0000) % 256) as u8;
    if client_format.depth == 24 && client_format.red_max == 255 && client_format.green_max == 255
        && client_format.blue_max == 255 {
        let v: u32 = ((r as u32) << client_format.red_shift) | ((g as u32)
            << client_format.green_shift) | ((b as u32) << client_format.blue_shift);
        let mut out: Vec<u8> = Vec::new();
        if client_format.big_endian_flag != 0 {
            out.push(((v / 0x1_0000) % 256) as u8);
            out.push(((v / 256) % 256) as u8);
            out.push((v % 256) as u8);
        } else {
            out.push((v % 256) as u8);
            out.push(((v / 256) % 256) as u8);
            out.push(((v / 0x1_0000) % 256) as u8);
        }
        assert(out@ =~= client_pixel_spec(pixel, *client_format));
        out
    } else {
        let rgba: [u8; 4] = [r, g, b, 0];
        let server_format = PixelFormat::rgba32();
        let out = translate_pixels(rgba.as_slice(), &server_format, client_format);
        assert(rgba@ =~= seq![r, g, b, 0u8]);
        out
    }
}

} // verus!
