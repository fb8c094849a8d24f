//! Conversion of pixels from the server's RGBA32 layout to the layout a
//! viewer asked for, and back.
use vstd::prelude::*;

use crate::protocol::{put_slice, PixelFormat};

verus! {

/// Bytes that one pixel of format `f` takes.
pub open spec fn pixel_bytes(f: PixelFormat) -> nat {
    if f.bits_per_pixel == 16 {
        2
    } else if f.bits_per_pixel == 24 {
        3
    } else if f.bits_per_pixel == 32 {
        4
    } else {
        1
    }
}

/// The shifts of `f` are all below 32.
pub open spec fn shifts_fit(f: PixelFormat) -> bool {
    f.red_shift < 32 && f.green_shift < 32 && f.blue_shift < 32
}

/// A component of `max + 1` levels, scaled to the 0..=255 range.
pub open spec fn scale_spec(value: u32, max: u16) -> u8 {
    if max == 0 {
        0
    } else if max == 255 {
        value as u8
    } else {
        ((value as nat * 255) / max as nat) as u8
    }
}

/// An 8-bit component scaled down to `max + 1` levels.
pub open spec fn downscale_spec(value: u8, max: u16) -> u16 {
    if max == 0 {
        0
    } else if max == 255 {
        value as u16
    } else {
        ((value as nat * max as nat) / 255) as u16
    }
}

/// The integer value of one pixel's bytes in format `f`.
pub open spec fn pixel_value_spec(p: Seq<u8>, f: PixelFormat) -> u32 {
    if f.bits_per_pixel == 16 {
        if f.big_endian_flag != 0 {
            (p[0] as nat * 256 + p[1] as nat) as u32
        } else {
            (p[1] as nat * 256 + p[0] as nat) as u32
        }
    } else if f.bits_per_pixel == 32 {
        if f.big_endian_flag != 0 {
            (p[0] as nat * 0x100_0000 + p[1] as nat * 0x1_0000 + p[2] as nat * 256
                + p[3] as nat) as u32
        } else {
            (p[3] as nat * 0x100_0000 + p[2] as nat * 0x1_0000 + p[1] as nat * 256
                + p[0] as nat) as u32
        }
    } else if f.bits_per_pixel == 24 {
        if f.big_endian_flag != 0 {
            (p[0] as nat * 0x1_0000 + p[1] as nat * 256 + p[2] as nat) as u32
        } else {
            (p[2] as nat * 0x1_0000 + p[1] as nat * 256 + p[0] as nat) as u32
        }
    } else {
        p[0] as u32
    }
}

/// The red, green and blue components, on the 0..=255 scale, of one pixel in format `f`.
pub open spec fn extract_spec(p: Seq<u8>, f: PixelFormat) -> (u8, u8, u8) {
    let v = pixel_value_spec(p, f);
    (
        scale_spec((v >> f.red_shift) & (f.red_max as u32), f.red_max),
        scale_spec((v >> f.green_shift) & (f.green_max as u32), f.green_max),
        scale_spec((v >> f.blue_shift) & (f.blue_max as u32), f.blue_max),
    )
}

/// The integer value of a pixel of components `r`, `g`, `b` in format `f`.
pub open spec fn pack_value_spec(r: u8, g: u8, b: u8, f: PixelFormat) -> u32 {
    ((downscale_spec(r, f.red_max) as u32) << f.red_shift) | ((downscale_spec(g, f.green_max)
        as u32) << f.green_shift) | ((downscale_spec(b, f.blue_max) as u32) << f.blue_shift)
}

/// The bytes of the pixel value `v` in format `f`.
pub open spec fn value_bytes_spec(v: u32, f: PixelFormat) -> Seq<u8> {
    if f.bits_per_pixel == 16 {
        let h = v % 0x1_0000;
        if f.big_endian_flag != 0 {
            seq![(h / 256) as u8, (h % 256) as u8]
        } else {
            seq![(h % 256) as u8, (h / 256) as u8]
        }
    } else if f.bits_per_pixel == 24 {
        if f.big_endian_flag != 0 {
            seq![((v / 0x1_0000) % 256) as u8, ((v / 256) % 256) as u8, (v % 256) as u8]
        } else {
            seq![(v % 256) as u8, ((v / 256) % 256) as u8, ((v / 0x1_0000) % 256) as u8]
        }
    } else if f.bits_per_pixel == 32 {
        if f.big_endian_flag != 0 {
            seq![
                (v / 0x100_0000) as u8,
                ((v / 0x1_0000) % 256) as u8,
                ((v / 256) % 256) as u8,
                (v % 256) as u8,
            ]
        } else {
            seq![
                (v % 256) as u8,
                ((v / 256) % 256) as u8,
                ((v / 0x1_0000) % 256) as u8,
                (v / 0x100_0000) as u8,
            ]
        }
    } else {
        seq![(v % 256) as u8]
    }
}

/// The bytes of a pixel of components `r`, `g`, `b` in format `f`.
pub open spec fn pack_spec(r: u8, g: u8, b: u8, f: PixelFormat) -> Seq<u8> {
    value_bytes_spec(pack_value_spec(r, g, b, f), f)
}

/// The first `n` pixels of `src`, read in format `from` and written in format `to`.
pub open spec fn translate_prefix(src: Seq<u8>, from: PixelFormat, to: PixelFormat, n: nat) -> Seq<u8>
    decreases n,
{
    if n == 0 {
        seq![]
    } else {
        let b = pixel_bytes(from);
        let c = extract_spec(src.subrange(b * (n - 1) as int, b * n as int), from);
        translate_prefix(src, from, to, (n - 1) as nat) + pack_spec(c.0, c.1, c.2, to)
    }
}

/// Two formats that lay pixels out identically.
pub open spec fn formats_equal_spec(a: PixelFormat, b: PixelFormat) -> bool {
    &&& a.bits_per_pixel == b.bits_per_pixel
    &&& a.depth == b.depth
    &&& (a.big_endian_flag == b.big_endian_flag || a.bits_per_pixel == 8)
    &&& a.true_colour_flag == b.true_colour_flag
    &&& (a.true_colour_flag == 0 || (a.red_max == b.red_max && a.green_max == b.green_max
        && a.blue_max == b.blue_max && a.red_shift == b.red_shift && a.green_shift
        == b.green_shift && a.blue_shift == b.blue_shift))
}

/// Pixels in the server's RGBA32 layout with the padding byte (the fourth
/// of each pixel) set to zero; pixels of other layouts as they are.
pub open spec fn strip_alpha(src: Seq<u8>, f: PixelFormat) -> Seq<u8> {
    if f.is_rgba32_spec() {
        Seq::new(src.len(), |i: int| if i % 4 == 3 { 0u8 } else { src[i] })
    } else {
        src
    }
}

/// What translation turns `src` (pixels in format `from`) into: for two
/// formats that lay pixels out alike, the pixels with RGBA32's padding
/// byte zeroed; otherwise each pixel read and written again.
pub open spec fn translate_spec(src: Seq<u8>, from: PixelFormat, to: PixelFormat) -> Seq<u8> {
    if formats_equal_spec(from, to) {
        strip_alpha(src, from)
    } else {
        translate_prefix(src, from, to, src.len() / pixel_bytes(from))
    }
}

/// Translates pixels from `server_format` to `client_format`, either way.
pub fn translate_pixels(src: &[u8], server_format: &PixelFormat, client_format: &PixelFormat) -> (r:
    Vec<u8>)
    requires
        src@.len() % pixel_bytes(*server_format) == 0,
        shifts_fit(*server_format),
        shifts_fit(*client_format),
    ensures
        r@ == translate_spec(src@, *server_format, *client_format),
{
    if pixel_formats_equal(server_format, client_format) {
        let strip = server_format.is_compatible_with_rgba32();
        let mut copy: Vec<u8> = Vec::new();
        let mut k: usize = 0;
        while k < src.len()
            invariant
                k <= src@.len(),
                copy@.len() == k,
                strip == server_format.is_rgba32_spec(),
                forall|i: int| 0 <= i < k ==> #[trigger] copy@[i] == strip_alpha(src@, *server_format)[i],
            decreases src@.len() - k,
        {
            copy.push(if strip && k % 4 == 3 { 0 } else { src[k] });
            k += 1;
        }
        assert(copy@ =~= strip_alpha(src@, *server_format));
        return copy;
    }
    let bpp: usize = if server_format.bits_per_pixel == 16 {
        2
    } else if server_format.bits_per_pixel == 24 {
        3
    } else if server_format.bits_per_pixel == 32 {
        4
    } else {
        1
    };
    let len = src.len();
    let pixel_count = len / bpp;
    let mut dst: Vec<u8> = Vec::new();
    let mut i: usize = 0;
    while i < pixel_count
        invariant
            bpp == pixel_bytes(*server_format),
            pixel_count as int == (src@.len() as int) / (bpp as int),
            len == src@.len(),
            i <= pixel_count,
            shifts_fit(*server_format),
            shifts_fit(*client_format),
            dst@ == translate_prefix(src@, *server_format, *client_format, i as nat),
        decreases pixel_count - i,
    {
        assert(bpp * i + bpp <= src@.len()) by (nonlinear_arith)
            requires i < pixel_count, pixel_count as int == (src@.len() as int) / (bpp as int), bpp >= 1;
        let offset = i * bpp;
        let px = slice_range(src, offset, offset + bpp);
        let (r, g, b) = extract_rgb(px, server_format);
        pack_pixel(&mut dst, r, g, b, client_format);
        i += 1;
    }
    dst
}

/// The bytes `start..end` of `s`.
pub fn slice_range(s: &[u8], start: usize, end: usize) -> (r: &[u8])
    requires
        start <= end <= s@.len(),
    ensures
        r@ == s@.subrange(start as int, end as int),
{
    &s[start..end]
}

/// Reads the red, green and blue components of one pixel, scaled to 0..=255.
pub fn extract_rgb(pixel: &[u8], format: &PixelFormat) -> (r: (u8, u8, u8))
    requires
        pixel@.len() >= pixel_bytes(*format),
        shifts_fit(*format),
    ensures
        r == extract_spec(pixel@, *format),
{
    let pixel_value: u32 = if format.bits_per_pixel == 16 {
        if format.big_endian_flag != 0 {
            pixel[0] as u32 * 256 + pixel[1] as u32
        } else {
            pixel[1] as u32 * 256 + pixel[0] as u32
        }
    } else if format.bits_per_pixel == 32 {
        if format.big_endian_flag != 0 {
            pixel[0] as u32 * 0x100_0000 + pixel[1] as u32 * 0x1_0000 + pixel[2] as u32 * 256
                + pixel[3] as u32
        } else {
            pixel[3] as u32 * 0x100_0000 + pixel[2] as u32 * 0x1_0000 + pixel[1] as u32 * 256
                + pixel[0] as u32
        }
    } else if format.bits_per_pixel == 24 {
        if format.big_endian_flag != 0 {
            pixel[0] as u32 * 0x1_0000 + pixel[1] as u32 * 256 + pixel[2] as u32
        } else {
            pixel[2] as u32 * 0x1_0000 + pixel[1] as u32 * 256 + pixel[0] as u32
        }
    } else {
        pixel[0] as u32
    };
    let r_raw = (pixel_value >> format.red_shift) & format.red_max as u32;
    let g_raw = (pixel_value >> format.green_shift) & format.green_max as u32;
    let b_raw = (pixel_value >> format.blue_shift) & format.blue_max as u32;
    (
        scale_component(r_raw, format.red_max),
        scale_component(g_raw, format.green_max),
        scale_component(b_raw, format.blue_max),
    )
}

/// Appends one pixel of components `r`, `g`, `b` in `format`.
pub fn pack_pixel(dst: &mut Vec<u8>, r: u8, g: u8, b: u8, format: &PixelFormat)
    requires
        shifts_fit(*format),
    ensures
        final(dst)@ == old(dst)@ + pack_spec(r, g, b, *format),
{
    let r_scaled = downscale_component(r, format.red_max);
    let g_scaled = downscale_component(g, format.green_max);
    let b_scaled = downscale_component(b, format.blue_max);
    let v: u32 = ((r_scaled as u32) << format.red_shift) | ((g_scaled as u32)
        << format.green_shift) | ((b_scaled as u32) << format.blue_shift);
    if format.bits_per_pixel == 16 {
        let h = v % 0x1_0000;
        if format.big_endian_flag != 0 {
            dst.push((h / 256) as u8);
            dst.push((h % 256) as u8);
        } else {
            dst.push((h % 256) as u8);
            dst.push((h / 256) as u8);
        }
    } else if format.bits_per_pixel == 24 {
        if format.big_endian_flag != 0 {
            dst.push(((v / 0x1_0000) % 256) as u8);
            dst.push(((v / 256) % 256) as u8);
            dst.push((v % 256) as u8);
        } else {
            dst.push((v % 256) as u8);
            dst.push(((v / 256) % 256) as u8);
            dst.push(((v / 0x1_0000) % 256) as u8);
        }
    } else if format.bits_per_pixel == 32 {
        if format.big_endian_flag != 0 {
            dst.push((v / 0x100_0000) as u8);
            dst.push(((v / 0x1_0000) % 256) as u8);
            dst.push(((v / 256) % 256) as u8);
            dst.push((v % 256) as u8);
        } else {
            dst.push((v % 256) as u8);
            dst.push(((v / 256) % 256) as u8);
            dst.push(((v / 0x1_0000) % 256) as u8);
            dst.push((v / 0x100_0000) as u8);
        }
    } else {
        dst.push((v % 256) as u8);
    }
    assert(final(dst)@ =~= old(dst)@ + pack_spec(r, g, b, *format));
}

/// Scales a component of `max + 1` levels to the 0..=255 range.
pub fn scale_component(value: u32, max: u16) -> (r: u8)
    ensures
        r == scale_spec(value, max),
{
    if max == 0 {
        return 0;
    }
    if max == 255 {
        return value as u8;
    }
    ((value as u64 * 255) / max as u64) as u8
}

/// Scales an 8-bit component down to `max + 1` levels.
pub fn downscale_component(value: u8, max: u16) -> (r: u16)
    ensures
        r == downscale_spec(value, max),
        r <= max,
{
    if max == 0 {
        return 0;
    }
    if max == 255 {
        return value as u16;
    }
    assert((value as nat * max as nat) / 255 <= max as nat) by (nonlinear_arith)
        requires value <= 255;
    ((value as u32 * max as u32) / 255) as u16
}

/// Whether two formats lay pixels out identically, so that no translation is needed.
pub fn pixel_formats_equal(a: &PixelFormat, b: &PixelFormat) -> (r: bool)
    ensures
        r == formats_equal_spec(*a, *b),
{
    a.bits_per_pixel == b.bits_per_pixel && a.depth == b.depth && (a.big_endian_flag
        == b.big_endian_flag || a.bits_per_pixel == 8) && a.true_colour_flag
        == b.true_colour_flag && (a.true_colour_flag == 0 || (a.red_max == b.red_max
        && a.green_max == b.green_max && a.blue_max == b.blue_max && a.red_shift == b.red_shift
        && a.green_shift == b.green_shift && a.blue_shift == b.blue_shift))
}


// ---------------------------------------------------------------------------
// Round trip through a viewer's format
// ---------------------------------------------------------------------------

/// `m` is the largest value of a component of 1 to 8 bits.
pub open spec fn is_mask(m: u16) -> bool {
    m == 1 || m == 3 || m == 7 || m == 15 || m == 31 || m == 63 || m == 127 || m == 255
}

/// The bits a component of largest value `m` at bit `s` occupies.
pub open spec fn field(m: u16, s: u8) -> u32 {
    (m as u32) << s
}

/// One more than the largest pixel value of `bpp` bits.
pub open spec fn value_limit(bpp: u8) -> nat {
    if bpp == 8 {
        0x100
    } else if bpp == 16 {
        0x1_0000
    } else if bpp == 24 {
        0x100_0000
    } else {
        0x1_0000_0000
    }
}

/// A true-colour layout whose components are masks of 1 to 8 bits, lie
/// whole inside the pixel, and do not overlap.
pub open spec fn separable_layout(f: PixelFormat) -> bool {
    &&& f.true_colour_flag != 0
    &&& shifts_fit(f)
    &&& (f.bits_per_pixel == 8 || f.bits_per_pixel == 16 || f.bits_per_pixel == 24 || f.bits_per_pixel == 32)
    &&& is_mask(f.red_max) && is_mask(f.green_max) && is_mask(f.blue_max)
    &&& field(f.red_max, f.red_shift) >> f.red_shift == f.red_max as u32
    &&& field(f.green_max, f.green_shift) >> f.green_shift == f.green_max as u32
    &&& field(f.blue_max, f.blue_shift) >> f.blue_shift == f.blue_max as u32
    &&& field(f.red_max, f.red_shift) & field(f.green_max, f.green_shift) == 0
    &&& field(f.red_max, f.red_shift) & field(f.blue_max, f.blue_shift) == 0
    &&& field(f.green_max, f.green_shift) & field(f.blue_max, f.blue_shift) == 0
    &&& ((field(f.red_max, f.red_shift) | field(f.green_max, f.green_shift) | field(f.blue_max, f.blue_shift)) as nat)
        < value_limit(f.bits_per_pixel)
}

/// A component that came back within `ceil(255 / m)` of `c`.
pub open spec fn close_to(c: u8, back: u8, m: u16) -> bool {
    let d = if c >= back { c - back } else { back - c };
    d <= (255 + m - 1) / (m as int)
}

proof fn lemma_in_field(d: u32, m: u32, s: u8)
    by (bit_vector)
    requires
        d <= m,
        m <= 255,
        m & ((m + 1) as u32) == 0,
        s < 32,
        (m << s) >> s == m,
    ensures
        (d << s) | (m << s) == (m << s),
{
}

proof fn lemma_disjoint_part(x: u32, fx: u32, fy: u32)
    by (bit_vector)
    requires
        x | fx == fx,
        fx & fy == 0,
    ensures
        x & fy == 0,
{
}

proof fn lemma_read_field(d: u32, m: u32, s: u8, o: u32)
    by (bit_vector)
    requires
        d <= m,
        m <= 255,
        m & ((m + 1) as u32) == 0,
        s < 32,
        (m << s) >> s == m,
        o & (m << s) == 0,
    ensures
        (((d << s) | o) >> s) & m == d,
{
}

proof fn lemma_or_within(a: u32, b: u32, c: u32, fa: u32, fb: u32, fc: u32)
    by (bit_vector)
    requires
        a | fa == fa,
        b | fb == fb,
        c | fc == fc,
    ensures
        (a | b | c) <= (fa | fb | fc),
        (a | b | c) == (b | c) | a,
        (a | b | c) == (a | c) | b,
{
}

proof fn lemma_fields(dr: u32, dg: u32, db: u32, rs: u8, gs: u8, bs: u8, rm: u32, gm: u32, bm: u32)
    requires
        dr <= rm,
        dg <= gm,
        db <= bm,
        rm <= 255,
        gm <= 255,
        bm <= 255,
        rm & ((rm + 1) as u32) == 0,
        gm & ((gm + 1) as u32) == 0,
        bm & ((bm + 1) as u32) == 0,
        rs < 32,
        gs < 32,
        bs < 32,
        (rm << rs) >> rs == rm,
        (gm << gs) >> gs == gm,
        (bm << bs) >> bs == bm,
        (rm << rs) & (gm << gs) == 0,
        (rm << rs) & (bm << bs) == 0,
        (gm << gs) & (bm << bs) == 0,
    ensures
        (((dr << rs) | (dg << gs) | (db << bs)) >> rs) & rm == dr,
        (((dr << rs) | (dg << gs) | (db << bs)) >> gs) & gm == dg,
        (((dr << rs) | (dg << gs) | (db << bs)) >> bs) & bm == db,
        ((dr << rs) | (dg << gs) | (db << bs)) <= ((rm << rs) | (gm << gs) | (bm << bs)),
{
    let fr = rm << rs;
    let fg = gm << gs;
    let fb = bm << bs;
    let xr = dr << rs;
    let xg = dg << gs;
    let xb = db << bs;
    lemma_in_field(dr, rm, rs);
    lemma_in_field(dg, gm, gs);
    lemma_in_field(db, bm, bs);
    lemma_or_within(xr, xg, xb, fr, fg, fb);
    assert(fg & fr == 0 && fb & fr == 0 && fb & fg == 0) by (bit_vector)
        requires fr & fg == 0, fr & fb == 0, fg & fb == 0;
    lemma_disjoint_part(xg, fg, fr);
    lemma_disjoint_part(xb, fb, fr);
    lemma_disjoint_part(xr, fr, fg);
    lemma_disjoint_part(xb, fb, fg);
    lemma_disjoint_part(xr, fr, fb);
    lemma_disjoint_part(xg, fg, fb);
    assert((xg | xb) & fr == 0 && (xr | xb) & fg == 0 && (xr | xg) & fb == 0) by (bit_vector)
        requires xg & fr == 0, xb & fr == 0, xr & fg == 0, xb & fg == 0, xr & fb == 0, xg & fb == 0;
    lemma_read_field(dr, rm, rs, xg | xb);
    lemma_read_field(dg, gm, gs, xr | xb);
    lemma_read_field(db, bm, bs, xr | xg);
    assert((xr | xg | xb) == (xr | (xg | xb)) && (xr | xg | xb) == (xg | (xr | xb)) && (xr | xg | xb) == (xb | (xr | xg))) by (bit_vector);
}

proof fn lemma_value_bytes(v: u32, f: PixelFormat)
    requires
        (v as nat) < value_limit(f.bits_per_pixel),
        f.bits_per_pixel == 8 || f.bits_per_pixel == 16 || f.bits_per_pixel == 24 || f.bits_per_pixel == 32,
    ensures
        pixel_value_spec(value_bytes_spec(v, f), f) == v,
        value_bytes_spec(v, f).len() == pixel_bytes(f),
{
}

proof fn lemma_component(c: u8, m: u16)
    requires
        is_mask(m),
    ensures
        downscale_spec(c, m) <= m,
        close_to(c, scale_spec(downscale_spec(c, m) as u32, m), m),
        m == 255 ==> scale_spec(downscale_spec(c, m) as u32, m) == c,
{
    if m != 255 {
        let d = ((c as nat * m as nat) / 255) as nat;
        assert(d <= m) by (nonlinear_arith)
            requires d == (c as nat * m as nat) / 255, c <= 255;
        let s = (d * 255) / (m as nat);
        assert(s <= c && c - s <= (255 + m - 1) / (m as int)) by (nonlinear_arith)
            requires d == (c as nat * m as nat) / 255, s == (d * 255) / (m as nat), c <= 255, 1 <= m <= 127;
        assert(s <= 255);
    }
}

/// A pixel written in a viewer's format and read back comes back with each
/// component within `ceil(255 / max)` of where it started, and exactly for
/// components of 8 bits.
pub proof fn lemma_translate_round_trip(r: u8, g: u8, b: u8, f: PixelFormat)
    requires
        separable_layout(f),
    ensures
        ({
            let back = extract_spec(pack_spec(r, g, b, f), f);
            &&& close_to(r, back.0, f.red_max)
            &&& close_to(g, back.1, f.green_max)
            &&& close_to(b, back.2, f.blue_max)
            &&& (f.red_max == 255 ==> back.0 == r)
            &&& (f.green_max == 255 ==> back.1 == g)
            &&& (f.blue_max == 255 ==> back.2 == b)
        }),
        (pack_value_spec(r, g, b, f) as nat) < value_limit(f.bits_per_pixel),
        pack_spec(r, g, b, f).len() == pixel_bytes(f),
{
    lemma_component(r, f.red_max);
    lemma_component(g, f.green_max);
    lemma_component(b, f.blue_max);
    let dr = downscale_spec(r, f.red_max) as u32;
    let dg = downscale_spec(g, f.green_max) as u32;
    let db = downscale_spec(b, f.blue_max) as u32;
    let rm = f.red_max as u32;
    let gm = f.green_max as u32;
    let bm = f.blue_max as u32;
    assert(rm & ((rm + 1) as u32) == 0 && gm & ((gm + 1) as u32) == 0 && bm & ((bm + 1) as u32) == 0) by (bit_vector)
        requires
            rm == 1 || rm == 3 || rm == 7 || rm == 15 || rm == 31 || rm == 63 || rm == 127 || rm == 255,
            gm == 1 || gm == 3 || gm == 7 || gm == 15 || gm == 31 || gm == 63 || gm == 127 || gm == 255,
            bm == 1 || bm == 3 || bm == 7 || bm == 15 || bm == 31 || bm == 63 || bm == 127 || bm == 255;
    lemma_fields(dr, dg, db, f.red_shift, f.green_shift, f.blue_shift, rm, gm, bm);
    let v = pack_value_spec(r, g, b, f);
    assert(v == (dr << f.red_shift) | (dg << f.green_shift) | (db << f.blue_shift));
    lemma_value_bytes(v, f);
}

proof fn lemma_rgba32_read(p0: u8, p1: u8, p2: u8, p3: u8, v: u32)
    by (bit_vector)
    requires
        v == (p3 as u32) * 0x100_0000 + (p2 as u32) * 0x1_0000 + (p1 as u32) * 256 + (p0 as u32),
    ensures
        (v >> 0u8) & 255 == p0 as u32,
        (v >> 8u8) & 255 == p1 as u32,
        (v >> 16u8) & 255 == p2 as u32,
{
}

proof fn lemma_rgba32_write(r: u8, g: u8, b: u8, v: u32)
    by (bit_vector)
    requires
        v == ((r as u32) << 0u8) | ((g as u32) << 8u8) | ((b as u32) << 16u8),
    ensures
        v % 256 == r as u32,
        (v / 256) % 256 == g as u32,
        (v / 0x1_0000) % 256 == b as u32,
        v / 0x100_0000 == 0,
{
}

/// A pixel converted from RGBA32 into a viewer's format and back comes
/// back as four bytes with the padding byte zero and each component within
/// `ceil(255 / max)` of where it started, exactly for components of 8 bits.
pub proof fn lemma_translate_pixels_round_trip(p: Seq<u8>, c: PixelFormat)
    requires
        p.len() == 4,
        separable_layout(c),
    ensures
        ({
            let q = translate_spec(translate_spec(p, PixelFormat::rgba32_spec(), c), c, PixelFormat::rgba32_spec());
            &&& q.len() == 4
            &&& q[3] == 0
            &&& close_to(p[0], q[0], c.red_max)
            &&& close_to(p[1], q[1], c.green_max)
            &&& close_to(p[2], q[2], c.blue_max)
            &&& (c.red_max == 255 ==> q[0] == p[0])
            &&& (c.green_max == 255 ==> q[1] == p[1])
            &&& (c.blue_max == 255 ==> q[2] == p[2])
        }),
{
    let s = PixelFormat::rgba32_spec();
    if formats_equal_spec(s, c) {
        assert(c.is_rgba32_spec());
        assert(formats_equal_spec(c, s));
    } else {
        assert(!formats_equal_spec(c, s));
        assert(p.subrange(0, 4) =~= p);
        let v = pixel_value_spec(p, s);
        lemma_rgba32_read(p[0], p[1], p[2], p[3], v);
        assert(extract_spec(p, s) == (p[0], p[1], p[2]));
        let t = translate_spec(p, s, c);
        assert(p.len() / pixel_bytes(s) == 1);
        assert(translate_prefix(p, s, c, 0) =~= seq![]);
        assert(t =~= pack_spec(p[0], p[1], p[2], c));
        lemma_translate_round_trip(p[0], p[1], p[2], c);
        lemma_value_bytes(pack_value_spec(p[0], p[1], p[2], c), c);
        let pb = pixel_bytes(c);
        assert(t.len() == pb);
        assert(t.subrange(0, pb as int) =~= t);
        let back = extract_spec(t, c);
        assert(t.len() / pixel_bytes(c) == 1);
        assert(translate_prefix(t, c, s, 0) =~= seq![]);
        assert(translate_spec(t, c, s) =~= pack_spec(back.0, back.1, back.2, s));
        let w = pack_value_spec(back.0, back.1, back.2, s);
        lemma_rgba32_write(back.0, back.1, back.2, w);
    }
}

} // verus!
