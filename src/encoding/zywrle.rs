//! ZYWRLE: a lossy wavelet pass over the pixels before ZRLE. Pixels are
//! turned into YUV, run through a piecewise-linear Haar transform, the
//! high-frequency coefficients quantized, and the coefficients packed back
//! into pixel positions.
use vstd::prelude::*;

verus! {

/// The quantization table `t` (0 to 3) applied to a coefficient byte `b`.
pub open spec fn zywrle_conv_spec(t: nat, b: u8) -> i8 {
    if t == 0 {
        0i8
    } else if t == 1 {
        if b <= 22 { 0i8 } else if b <= 39 { 32i8 } else if b <= 50 { 48i8 } else if b <= 59 { 56i8 } else if b <= 67 { 64i8 } else if b <= 75 { 72i8 } else if b <= 81 { 80i8 } else if b <= 93 { 88i8 } else if b <= 98 { 96i8 } else if b <= 108 { 104i8 } else if b <= 117 { 112i8 } else if b <= 127 { 120i8 } else if b <= 128 { 0i8 } else if b <= 138 { -120i8 } else if b <= 147 { -112i8 } else if b <= 157 { -104i8 } else if b <= 162 { -96i8 } else if b <= 174 { -88i8 } else if b <= 180 { -80i8 } else if b <= 188 { -72i8 } else if b <= 196 { -64i8 } else if b <= 205 { -56i8 } else if b <= 216 { -48i8 } else if b <= 233 { -32i8 } else { 0i8 }
    } else if t == 2 {
        if b <= 31 { 0i8 } else if b <= 55 { 48i8 } else if b <= 71 { 64i8 } else if b <= 84 { 80i8 } else if b <= 95 { 88i8 } else if b <= 106 { 104i8 } else if b <= 115 { 112i8 } else if b <= 127 { 120i8 } else if b <= 128 { 0i8 } else if b <= 140 { -120i8 } else if b <= 149 { -112i8 } else if b <= 160 { -104i8 } else if b <= 171 { -88i8 } else if b <= 184 { -80i8 } else if b <= 200 { -64i8 } else if b <= 224 { -48i8 } else { 0i8 }
    } else if t == 3 {
        if b <= 63 { 0i8 } else if b <= 127 { 88i8 } else if b <= 128 { 0i8 } else if b <= 192 { -88i8 } else { 0i8 }
    } else {
        0i8
    }
}

/// Looks up the quantization table `t` (0 to 3) for a coefficient byte.
pub fn zywrle_conv(t: usize, b: u8) -> (r: i8)
    ensures
        r == zywrle_conv_spec(t as nat, b),
{
    if t == 0 {
        0i8
    } else if t == 1 {
        if b <= 22 { 0i8 } else if b <= 39 { 32i8 } else if b <= 50 { 48i8 } else if b <= 59 { 56i8 } else if b <= 67 { 64i8 } else if b <= 75 { 72i8 } else if b <= 81 { 80i8 } else if b <= 93 { 88i8 } else if b <= 98 { 96i8 } else if b <= 108 { 104i8 } else if b <= 117 { 112i8 } else if b <= 127 { 120i8 } else if b <= 128 { 0i8 } else if b <= 138 { -120i8 } else if b <= 147 { -112i8 } else if b <= 157 { -104i8 } else if b <= 162 { -96i8 } else if b <= 174 { -88i8 } else if b <= 180 { -80i8 } else if b <= 188 { -72i8 } else if b <= 196 { -64i8 } else if b <= 205 { -56i8 } else if b <= 216 { -48i8 } else if b <= 233 { -32i8 } else { 0i8 }
    } else if t == 2 {
        if b <= 31 { 0i8 } else if b <= 55 { 48i8 } else if b <= 71 { 64i8 } else if b <= 84 { 80i8 } else if b <= 95 { 88i8 } else if b <= 106 { 104i8 } else if b <= 115 { 112i8 } else if b <= 127 { 120i8 } else if b <= 128 { 0i8 } else if b <= 140 { -120i8 } else if b <= 149 { -112i8 } else if b <= 160 { -104i8 } else if b <= 171 { -88i8 } else if b <= 184 { -80i8 } else if b <= 200 { -64i8 } else if b <= 224 { -48i8 } else { 0i8 }
    } else if t == 3 {
        if b <= 63 { 0i8 } else if b <= 127 { 88i8 } else if b <= 128 { 0i8 } else if b <= 192 { -88i8 } else { 0i8 }
    } else {
        0i8
    }
}

/// The quantization table used for channel `ch` (0 = U, 1 = Y, 2 = V) of the
/// coefficients of pass `l` when transforming to `level`.
pub open spec fn zywrle_param(level: nat, l: nat, ch: nat) -> nat {
    if level == 1 {
        if l == 0 && ch == 1 { 2 } else { 0 }
    } else if level == 2 {
        if l == 0 { if ch == 1 { 3 } else { 0 } } else if l == 1 { 1 } else { 0 }
    } else {
        if l == 0 { if ch == 1 { 3 } else { 0 } } else if l == 1 { 2 } else if l == 2 { 1 } else { 0 }
    }
}

fn zywrle_param_of(level: usize, l: usize, ch: usize) -> (r: usize)
    ensures
        r == zywrle_param(level as nat, l as nat, ch as nat),
        r <= 3,
{
    if level == 1 {
        if l == 0 && ch == 1 { 2 } else { 0 }
    } else if level == 2 {
        if l == 0 { if ch == 1 { 3 } else { 0 } } else if l == 1 { 1 } else { 0 }
    } else {
        if l == 0 { if ch == 1 { 3 } else { 0 } } else if l == 1 { 2 } else if l == 2 { 1 } else { 0 }
    }
}

/// The piecewise-linear Haar step on two signed coefficients: the pair
/// (low, high) that replaces (a, b).
pub open spec fn harr_spec(a: i8, b: i8) -> (i8, i8) {
    let x0 = a as i32;
    let x1 = b as i32;
    if (x0 ^ x1) & 0x80 != 0 {
        let n1 = (x1 + x0) as i32;
        let n0 = if ((n1 ^ x1) & 0x80) == 0 { (x0 - n1) as i32 } else { x0 };
        (n1 as i8, n0 as i8)
    } else {
        let n0 = (x0 - x1) as i32;
        let n1 = if ((n0 ^ x0) & 0x80) == 0 { (x1 + n0) as i32 } else { x1 };
        (n1 as i8, n0 as i8)
    }
}

/// One piecewise-linear Haar step.
pub fn harr(a: i8, b: i8) -> (r: (i8, i8))
    ensures
        r == harr_spec(a, b),
{
    let x0 = a as i32;
    let x1 = b as i32;
    if (x0 ^ x1) & 0x80 != 0 {
        let n1 = x1 + x0;
        let n0 = if ((n1 ^ x1) & 0x80) == 0 { x0 - n1 } else { x0 };
        (n1 as i8, n0 as i8)
    } else {
        let n0 = x0 - x1;
        let n1 = if ((n0 ^ x0) & 0x80) == 0 { x1 + n0 } else { x1 };
        (n1 as i8, n0 as i8)
    }
}

/// A coefficient moved off -128.
pub open spec fn avoid_min(v: i32) -> i32 {
    if v == -128 { -127i32 } else { v }
}

/// The YUV bytes (U, Y, V) of a pixel by the reversible colour transform:
/// Y = (R + 2G + B) / 4 - 128, U = (B - G) >> 1, V = (R - G) >> 1, none -128.
pub open spec fn yuv_spec(r: u8, g: u8, b: u8) -> (u8, u8, u8) {
    let y = avoid_min((((r as i32 + (g as i32) * 2 + b as i32) as i32) / 4 - 128) as i32);
    let u = avoid_min(((b as i32 - g as i32) as i32) >> 1);
    let v = avoid_min(((r as i32 - g as i32) as i32) >> 1);
    (u as u8, y as u8, v as u8)
}

/// The reversible colour transform of one pixel.
pub fn rgb_to_yuv(r: u8, g: u8, b: u8) -> (out: (u8, u8, u8))
    ensures
        out == yuv_spec(r, g, b),
{
    let mut y: i32 = (r as i32 + (g as i32) * 2 + b as i32) / 4 - 128;
    let mut u: i32 = (b as i32 - g as i32) >> 1;
    let mut v: i32 = (r as i32 - g as i32) >> 1;
    if y == -128 {
        y += 1;
    }
    if u == -128 {
        u += 1;
    }
    if v == -128 {
        v += 1;
    }
    (u as u8, y as u8, v as u8)
}

/// `n` rounded down to a multiple of 2 to the `level`.
pub open spec fn aligned(n: nat, level: nat) -> nat {
    let p: nat = if level == 1 { 2 } else if level == 2 { 4 } else { 8 };
    n / p * p
}

/// Width and height rounded down to a multiple of 2 to the `level` (1 to 3).
pub fn calc_aligned_size(width: usize, height: usize, level: usize) -> (r: (usize, usize))
    requires
        1 <= level <= 3,
    ensures
        r.0 == aligned(width as nat, level as nat),
        r.1 == aligned(height as nat, level as nat),
{
    let p: usize = if level == 1 { 2 } else if level == 2 { 4 } else { 8 };
    (width / p * p, height / p * p)
}


/// Applies the Haar step to the three channels of coefficients `p0` and `p1`.
fn harr_pair(coef: &mut Vec<u8>, p0: usize, p1: usize)
    requires
        p0 < p1,
        4 * p1 + 4 <= old(coef)@.len(),
    ensures
        final(coef)@.len() == old(coef)@.len(),
        forall|c: int|
            0 <= c < 3 ==> {
                let pr = harr_spec(old(coef)@[4 * p0 + c] as i8, old(coef)@[4 * p1 + c] as i8);
                &&& #[trigger] final(coef)@[4 * p0 + c] == pr.0 as u8
                &&& final(coef)@[4 * p1 + c] == pr.1 as u8
            },
        forall|i: int|
            0 <= i < old(coef)@.len() && !(4 * p0 <= i < 4 * p0 + 3) && !(4 * p1 <= i < 4 * p1 + 3)
                ==> #[trigger] final(coef)@[i] == old(coef)@[i],
        final(coef)@ == harr_at(old(coef)@, p0 as int, p1 as int),
{
    let n = coef.len();
    let mut c: usize = 0;
    while c < 3
        invariant
            n == old(coef)@.len(),
            p0 < p1,
            4 * p1 + 4 <= old(coef)@.len(),
            coef@.len() == old(coef)@.len(),
            c <= 3,
            forall|cc: int|
                0 <= cc < c ==> {
                    let pr = harr_spec(old(coef)@[4 * p0 + cc] as i8, old(coef)@[4 * p1 + cc] as i8);
                    &&& #[trigger] coef@[4 * p0 + cc] == pr.0 as u8
                    &&& coef@[4 * p1 + cc] == pr.1 as u8
                },
            forall|i: int|
                0 <= i < old(coef)@.len() && !(4 * p0 <= i < 4 * p0 + c) && !(4 * p1 <= i < 4 * p1 + c)
                    ==> #[trigger] coef@[i] == old(coef)@[i],
        decreases 3 - c,
    {
        let a = coef[4 * p0 + c];
        let b = coef[4 * p1 + c];
        let (x, y) = harr(a as i8, b as i8);
        coef.set(4 * p0 + c, x as u8);
        coef.set(4 * p1 + c, y as u8);
        c += 1;
    }
    assert forall|i: int| 0 <= i < coef@.len() implies #[trigger] coef@[i] == harr_at(old(coef)@, p0 as int, p1 as int)[i] by {
        if 4 * p0 <= i < 4 * p0 + 3 {
            let cc = i - 4 * p0;
            assert(coef@[4 * p0 + cc] == harr_spec(old(coef)@[4 * p0 + cc] as i8, old(coef)@[4 * p1 + cc] as i8).0 as u8);
        } else if 4 * p1 <= i < 4 * p1 + 3 {
            let cc = i - 4 * p1;
            assert(coef@[4 * p0 + cc] == harr_spec(old(coef)@[4 * p0 + cc] as i8, old(coef)@[4 * p1 + cc] as i8).0 as u8);
        }
    }
    assert(coef@ =~= harr_at(old(coef)@, p0 as int, p1 as int));
}

/// The coefficients with the Haar step applied to the three channels of
/// positions `p0` and `p1`.
pub open spec fn harr_at(c: Seq<u8>, p0: int, p1: int) -> Seq<u8> {
    Seq::new(
        c.len(),
        |i: int|
            if 4 * p0 <= i < 4 * p0 + 3 {
                harr_spec(c[i] as i8, c[i + 4 * (p1 - p0)] as i8).0 as u8
            } else if 4 * p1 <= i < 4 * p1 + 3 {
                harr_spec(c[i - 4 * (p1 - p0)] as i8, c[i] as i8).1 as u8
            } else {
                c[i]
            },
    )
}

/// The first `k` pairs of row `y` transformed: columns `x0` and `x0 + step`
/// with `x0` a multiple of `2 * step`.
pub open spec fn row_pairs(c: Seq<u8>, w: nat, y: nat, step: nat, k: nat) -> Seq<u8>
    decreases k,
{
    if k == 0 {
        c
    } else {
        let x0 = (k - 1) * 2 * step;
        harr_at(row_pairs(c, w, y, step, (k - 1) as nat), (y * w + x0) as int, (y * w + x0 + step) as int)
    }
}

/// The horizontal pass over the first `r` rows at multiples of `step`.
pub open spec fn rows_pass(c: Seq<u8>, w: nat, step: nat, r: nat) -> Seq<u8>
    decreases r,
{
    if r == 0 {
        c
    } else {
        row_pairs(rows_pass(c, w, step, (r - 1) as nat), w, ((r - 1) * step) as nat, step, w / (2 * step))
    }
}

/// The first `k` pairs of column `x` transformed: rows `y0` and `y0 + step`
/// with `y0` a multiple of `2 * step`.
pub open spec fn col_pairs(c: Seq<u8>, w: nat, x: nat, step: nat, k: nat) -> Seq<u8>
    decreases k,
{
    if k == 0 {
        c
    } else {
        let y0 = (k - 1) * 2 * step;
        harr_at(col_pairs(c, w, x, step, (k - 1) as nat), (y0 * w + x) as int, ((y0 + step) * w + x) as int)
    }
}

/// The vertical pass over the first `q` columns at multiples of `step`.
pub open spec fn cols_pass(c: Seq<u8>, w: nat, h: nat, step: nat, q: nat) -> Seq<u8>
    decreases q,
{
    if q == 0 {
        c
    } else {
        col_pairs(cols_pass(c, w, h, step, (q - 1) as nat), w, ((q - 1) * step) as nat, step, h / (2 * step))
    }
}

/// How many lines at multiples of `step` a length of `n` holds.
pub open spec fn lines(n: nat, step: nat) -> nat {
    ((n + step - 1) as nat) / step
}

/// The coefficients with the three channels of position `p` quantized for
/// pass `l` of `level`.
pub open spec fn quant_at(c: Seq<u8>, p: int, level: nat, l: nat) -> Seq<u8> {
    Seq::new(
        c.len(),
        |i: int|
            if 4 * p <= i < 4 * p + 3 {
                zywrle_conv_spec(zywrle_param(level, l, (i - 4 * p) as nat), c[i]) as u8
            } else {
                c[i]
            },
    )
}

/// Column offset of band `band` in a block of side `2 * step`.
pub open spec fn band_ox(band: nat, step: nat) -> nat {
    if band % 2 == 1 { step } else { 0 }
}

/// Row offset of band `band` in a block of side `2 * step`.
pub open spec fn band_oy(band: nat, step: nat) -> nat {
    if band >= 2 { step } else { 0 }
}

/// The coefficient position of band `band` in block (`kx`, `ky`).
pub open spec fn band_pos(w: nat, step: nat, band: nat, ky: nat, kx: nat) -> int {
    ((ky * 2 * step + band_oy(band, step)) * w + kx * 2 * step + band_ox(band, step)) as int
}

/// Band `band` quantized in the first `k` blocks of block row `ky`.
pub open spec fn filter_row(c: Seq<u8>, w: nat, level: nat, l: nat, step: nat, band: nat, ky: nat, k: nat) -> Seq<u8>
    decreases k,
{
    if k == 0 {
        c
    } else {
        quant_at(filter_row(c, w, level, l, step, band, ky, (k - 1) as nat), band_pos(w, step, band, ky, (k - 1) as nat), level, l)
    }
}

/// Band `band` quantized in the first `r` block rows.
pub open spec fn filter_band(c: Seq<u8>, w: nat, level: nat, l: nat, step: nat, band: nat, r: nat) -> Seq<u8>
    decreases r,
{
    if r == 0 {
        c
    } else {
        filter_row(filter_band(c, w, level, l, step, band, (r - 1) as nat), w, level, l, step, band, (r - 1) as nat, w / (2 * step))
    }
}

/// Bands 1 to `b - 1` quantized over the whole `w` by `h` area.
pub open spec fn filter_bands(c: Seq<u8>, w: nat, h: nat, level: nat, l: nat, step: nat, b: nat) -> Seq<u8>
    decreases b,
{
    if b <= 1 {
        c
    } else {
        filter_band(filter_bands(c, w, h, level, l, step, (b - 1) as nat), w, level, l, step, (b - 1) as nat, h / (2 * step))
    }
}

/// The step of pass `l`.
pub open spec fn pass_step(l: nat) -> nat {
    if l == 0 { 1 } else if l == 1 { 2 } else { 4 }
}

/// The first `l` passes: horizontal, vertical, then quantization of the
/// high-frequency bands.
pub open spec fn wavelet_spec(c: Seq<u8>, w: nat, h: nat, level: nat, l: nat) -> Seq<u8>
    decreases l,
{
    if l == 0 {
        c
    } else {
        let st = pass_step((l - 1) as nat);
        let a = rows_pass(wavelet_spec(c, w, h, level, (l - 1) as nat), w, st, lines(h, st));
        let b = cols_pass(a, w, h, st, lines(w, st));
        filter_bands(b, w, h, level, (l - 1) as nat, st, 4)
    }
}

fn quant_cell(coef: &mut Vec<u8>, p: usize, level: usize, l: usize)
    requires
        4 * p + 4 <= old(coef)@.len(),
    ensures
        final(coef)@ == quant_at(old(coef)@, p as int, level as nat, l as nat),
{
    let n = coef.len();
    let mut c: usize = 0;
    while c < 3
        invariant
            n == coef@.len(),
            n == old(coef)@.len(),
            4 * p + 4 <= n,
            c <= 3,
            forall|i: int|
                0 <= i < n ==> #[trigger] coef@[i] == if 4 * p <= i < 4 * p + c {
                    quant_at(old(coef)@, p as int, level as nat, l as nat)[i]
                } else {
                    old(coef)@[i]
                },
        decreases 3 - c,
    {
        let t = zywrle_param_of(level, l, c);
        let b = coef[4 * p + c];
        coef.set(4 * p + c, zywrle_conv(t, b) as u8);
        c += 1;
    }
    assert(coef@ =~= quant_at(old(coef)@, p as int, level as nat, l as nat));
}

/// One horizontal Haar pass at step `step` (1, 2 or 4).
fn wavelet_rows(coef: &mut Vec<u8>, w: usize, h: usize, step: usize)
    requires
        old(coef)@.len() == w * h * 4,
        w <= 0xffff,
        h <= 0xffff,
        1 <= step <= 4,
    ensures
        final(coef)@.len() == old(coef)@.len(),
        final(coef)@ == rows_pass(old(coef)@, w as nat, step as nat, lines(h as nat, step as nat)),
{
    let n = coef.len();
    let nrows = (h + step - 1) / step;
    let npairs = w / (2 * step);
    let mut r: usize = 0;
    while r < nrows
        invariant
            coef@.len() == w * h * 4,
            n == coef@.len(),
            w <= 0xffff,
            h <= 0xffff,
            1 <= step <= 4,
            nrows == lines(h as nat, step as nat),
            npairs as nat == (w as nat) / (2 * step as nat),
            r <= nrows,
            coef@ == rows_pass(old(coef)@, w as nat, step as nat, r as nat),
        decreases nrows - r,
    {
        assert(r * step < h) by (nonlinear_arith)
            requires r < nrows, nrows as int == (h + step - 1) as int / (step as int), step >= 1;
        let yy = r * step;
        assert(yy * w + w <= w * h) by (nonlinear_arith)
            requires yy < h;
        let ghost base = coef@;
        let mut k: usize = 0;
        while k < npairs
            invariant
                coef@.len() == w * h * 4,
            n == coef@.len(),
                w <= 0xffff,
                h <= 0xffff,
                1 <= step <= 4,
                npairs as nat == (w as nat) / (2 * step as nat),
                k <= npairs,
                yy < h,
                yy == r * step,
                yy * w + w <= w * h,
                coef@ == row_pairs(base, w as nat, yy as nat, step as nat, k as nat),
            decreases npairs - k,
        {
            assert(k * 2 * step + 2 * step <= w) by (nonlinear_arith)
                requires k < npairs, npairs as int == (w as int) / (2 * step as int), step >= 1;
            let xx = k * 2 * step;
            let p0 = yy * w + xx;
            harr_pair(coef, p0, p0 + step);
            k += 1;
        }
        r += 1;
    }
}

/// One vertical Haar pass at step `step` (1, 2 or 4).
fn wavelet_cols(coef: &mut Vec<u8>, w: usize, h: usize, step: usize)
    requires
        old(coef)@.len() == w * h * 4,
        w <= 0xffff,
        h <= 0xffff,
        1 <= step <= 4,
    ensures
        final(coef)@.len() == old(coef)@.len(),
        final(coef)@ == cols_pass(old(coef)@, w as nat, h as nat, step as nat, lines(w as nat, step as nat)),
{
    let n = coef.len();
    let ncols = (w + step - 1) / step;
    let npairs = h / (2 * step);
    let mut q: usize = 0;
    while q < ncols
        invariant
            coef@.len() == w * h * 4,
            n == coef@.len(),
            w <= 0xffff,
            h <= 0xffff,
            1 <= step <= 4,
            ncols == lines(w as nat, step as nat),
            npairs as nat == (h as nat) / (2 * step as nat),
            q <= ncols,
            coef@ == cols_pass(old(coef)@, w as nat, h as nat, step as nat, q as nat),
        decreases ncols - q,
    {
        assert(q * step < w) by (nonlinear_arith)
            requires q < ncols, ncols as int == (w + step - 1) as int / (step as int), step >= 1;
        let xx = q * step;
        let ghost base = coef@;
        let mut k: usize = 0;
        while k < npairs
            invariant
                coef@.len() == w * h * 4,
            n == coef@.len(),
                w <= 0xffff,
                h <= 0xffff,
                1 <= step <= 4,
                npairs as nat == (h as nat) / (2 * step as nat),
                k <= npairs,
                xx < w,
                xx == q * step,
                coef@ == col_pairs(base, w as nat, xx as nat, step as nat, k as nat),
            decreases npairs - k,
        {
            assert(k * 2 * step + 2 * step <= h) by (nonlinear_arith)
                requires k < npairs, npairs as int == (h as int) / (2 * step as int), step >= 1;
            let yy = k * 2 * step;
            assert((yy + step) * w + xx < w * h) by (nonlinear_arith)
                requires yy + step < h, xx < w;
            assert(yy * w + xx < (yy + step) * w + xx) by (nonlinear_arith)
                requires step >= 1, xx < w;
            let p0 = yy * w + xx;
            let p1 = (yy + step) * w + xx;
            harr_pair(coef, p0, p1);
            k += 1;
        }
        q += 1;
    }
}

/// Quantizes the three high-frequency bands of pass `l` (block side `2 * step`).
fn filter_wavelet_square(coef: &mut Vec<u8>, w: usize, h: usize, level: usize, l: usize, step: usize)
    requires
        old(coef)@.len() == w * h * 4,
        w <= 0xffff,
        h <= 0xffff,
        1 <= step <= 4,
    ensures
        final(coef)@.len() == old(coef)@.len(),
        final(coef)@ == filter_bands(old(coef)@, w as nat, h as nat, level as nat, l as nat, step as nat, 4),
{
    let n = coef.len();
    let s = 2 * step;
    let nby = h / s;
    let nbx = w / s;
    let mut band: usize = 1;
    while band < 4
        invariant
            coef@.len() == w * h * 4,
            n == coef@.len(),
            w <= 0xffff,
            h <= 0xffff,
            1 <= step <= 4,
            s == 2 * step,
            nby as nat == (h as nat) / (s as nat),
            nbx as nat == (w as nat) / (s as nat),
            1 <= band <= 4,
            coef@ == filter_bands(old(coef)@, w as nat, h as nat, level as nat, l as nat, step as nat, band as nat),
        decreases 4 - band,
    {
        let ox: usize = if band % 2 == 1 { step } else { 0 };
        let oy: usize = if band >= 2 { step } else { 0 };
        let ghost b0 = coef@;
        let mut ky: usize = 0;
        while ky < nby
            invariant
                coef@.len() == w * h * 4,
            n == coef@.len(),
                w <= 0xffff,
                h <= 0xffff,
                1 <= step <= 4,
                s == 2 * step,
                nby as nat == (h as nat) / (s as nat),
                nbx as nat == (w as nat) / (s as nat),
                1 <= band < 4,
                ox == band_ox(band as nat, step as nat),
                oy == band_oy(band as nat, step as nat),
                ky <= nby,
                coef@ == filter_band(b0, w as nat, level as nat, l as nat, step as nat, band as nat, ky as nat),
            decreases nby - ky,
        {
            let ghost r0 = coef@;
            let mut kx: usize = 0;
            while kx < nbx
                invariant
                    coef@.len() == w * h * 4,
            n == coef@.len(),
                    w <= 0xffff,
                    h <= 0xffff,
                    1 <= step <= 4,
                    s == 2 * step,
                    nby as nat == (h as nat) / (s as nat),
                    nbx as nat == (w as nat) / (s as nat),
                    ky < nby,
                    ox == band_ox(band as nat, step as nat),
                    oy == band_oy(band as nat, step as nat),
                    kx <= nbx,
                    coef@ == filter_row(r0, w as nat, level as nat, l as nat, step as nat, band as nat, ky as nat, kx as nat),
                decreases nbx - kx,
            {
                assert(ky * s + s <= h && kx * s + s <= w) by (nonlinear_arith)
                    requires ky < nby, nby as int == (h as int) / (s as int), kx < nbx, nbx as int == (w as int) / (s as int), s >= 2;
                let yy = ky * s + oy;
                let xx = kx * s + ox;
                assert(yy * w + xx < w * h) by (nonlinear_arith)
                    requires yy < h, xx < w;
                let p = yy * w + xx;
                assert(ky * s == ky * 2 * step && kx * s == kx * 2 * step) by (nonlinear_arith)
                    requires s == 2 * step;
                assert(p as int == band_pos(w as nat, step as nat, band as nat, ky as nat, kx as nat));
                quant_cell(coef, p, level, l);
                kx += 1;
            }
            ky += 1;
        }
        band += 1;
    }
}

/// The pixel bytes `d` with the coefficient at `p` written at pixel `q` as
/// V, Y, U and a zero byte.
pub open spec fn pack_at(d: Seq<u8>, coef: Seq<u8>, p: int, q: int) -> Seq<u8> {
    Seq::new(
        d.len(),
        |i: int|
            if 4 * q <= i < 4 * q + 4 {
                if i == 4 * q {
                    coef[4 * p + 2]
                } else if i == 4 * q + 1 {
                    coef[4 * p + 1]
                } else if i == 4 * q + 2 {
                    coef[4 * p]
                } else {
                    0u8
                }
            } else {
                d[i]
            },
    )
}

/// Band `band` copied from the first `k` blocks of block row `ky`.
pub open spec fn pack_row(d: Seq<u8>, coef: Seq<u8>, w: nat, width: nat, step: nat, band: nat, ky: nat, k: nat) -> Seq<u8>
    decreases k,
{
    if k == 0 {
        d
    } else {
        let kx = (k - 1) as nat;
        pack_at(pack_row(d, coef, w, width, step, band, ky, kx), coef, band_pos(w, step, band, ky, kx), band_pos(width, step, band, ky, kx))
    }
}

/// Band `band` copied from the first `r` block rows.
pub open spec fn pack_band(d: Seq<u8>, coef: Seq<u8>, w: nat, width: nat, step: nat, band: nat, r: nat) -> Seq<u8>
    decreases r,
{
    if r == 0 {
        d
    } else {
        pack_row(pack_band(d, coef, w, width, step, band, (r - 1) as nat), coef, w, width, step, band, (r - 1) as nat, w / (2 * step))
    }
}

/// Copies the band `r` of pass `l` (block side `2 * step`) into pixel
/// positions of `dst`, whose rows are `width` pixels long: V, Y and U into
/// red, green and blue, alpha zero.
fn pack_coeff(coef: &Vec<u8>, dst: &mut Vec<u8>, r: usize, w: usize, h: usize, step: usize, width: usize, height: usize)
    requires
        coef@.len() == w * h * 4,
        old(dst)@.len() == width * height * 4,
        w <= width,
        h <= height,
        width <= 0xffff,
        height <= 0xffff,
        1 <= step <= 4,
    ensures
        final(dst)@.len() == old(dst)@.len(),
        forall|i: int|
            0 <= i < old(dst)@.len() && (i / 4) % (width as int) >= w as int ==> #[trigger] final(dst)@[i] == old(dst)@[i],
        forall|i: int|
            0 <= i < old(dst)@.len() && (i / 4) / (width as int) >= h as int ==> #[trigger] final(dst)@[i] == old(dst)@[i],
        r < 4 ==> final(dst)@ == pack_band(old(dst)@, coef@, w as nat, width as nat, step as nat, r as nat, (h as nat) / (2 * step as nat)),
{
    let n = dst.len();
    let cn = coef.len();
    let s = 2 * step;
    let ox: usize = if r % 2 == 1 { step } else { 0 };
    let oy: usize = if r >= 2 { step } else { 0 };
    let ghost d0 = dst@;
    let ghost mut ky: nat = 0;
    let mut yy: usize = 0;
    while yy + s <= h
        invariant
            yy == ky * s,
            r < 4 ==> ox == band_ox(r as nat, step as nat) && oy == band_oy(r as nat, step as nat),
            r < 4 ==> dst@ == pack_band(d0, coef@, w as nat, width as nat, step as nat, r as nat, ky),
            coef@.len() == w * h * 4,
            dst@.len() == width * height * 4,
            n == dst@.len(),
            cn == coef@.len(),
            1 <= step <= 4,
            d0.len() == width * height * 4,
            w <= width,
            h <= height,
            width <= 0xffff,
            height <= 0xffff,
            yy <= h,
            s == 2 * step,
            ox <= step,
            oy <= step,
            forall|i: int|
                0 <= i < d0.len() && (i / 4) % (width as int) >= w as int ==> #[trigger] dst@[i] == d0[i],
            forall|i: int|
                0 <= i < d0.len() && (i / 4) / (width as int) >= h as int ==> #[trigger] dst@[i] == d0[i],
        decreases h - yy,
    {
        let ghost row0 = dst@;
        let ghost mut kx: nat = 0;
        let mut xx: usize = 0;
        while xx + s <= w
            invariant
                yy == ky * s,
                xx == kx * s,
                r < 4 ==> ox == band_ox(r as nat, step as nat) && oy == band_oy(r as nat, step as nat),
                r < 4 ==> dst@ == pack_row(row0, coef@, w as nat, width as nat, step as nat, r as nat, ky, kx),
                coef@.len() == w * h * 4,
                dst@.len() == width * height * 4,
                n == dst@.len(),
                cn == coef@.len(),
                1 <= step <= 4,
                d0.len() == width * height * 4,
                w <= width,
                h <= height,
                width <= 0xffff,
                height <= 0xffff,
                xx <= w,
                s == 2 * step,
                ox <= step,
                oy <= step,
                yy + s <= h,
                forall|i: int|
                    0 <= i < d0.len() && (i / 4) % (width as int) >= w as int ==> #[trigger] dst@[i] == d0[i],
                forall|i: int|
                    0 <= i < d0.len() && (i / 4) / (width as int) >= h as int ==> #[trigger] dst@[i] == d0[i],
            decreases w - xx,
        {
            let px = xx + ox;
            let py = yy + oy;
            assert(py * w + px < w * h) by (nonlinear_arith)
                requires py < h, px < w;
            assert(py * width + px < width * height) by (nonlinear_arith)
                requires py < h, px < w, w <= width, h <= height;
            let p = py * w + px;
            let q = py * width + px;
            let v = coef[4 * p + 2];
            let yv = coef[4 * p + 1];
            let u = coef[4 * p];
            let ghost before = dst@;
            dst.set(4 * q, v);
            dst.set(4 * q + 1, yv);
            dst.set(4 * q + 2, u);
            dst.set(4 * q + 3, 0);
            proof {
                assert((q as int) % (width as int) == px as int && (q as int) / (width as int) == py as int) by {
                    vstd::arithmetic::div_mod::lemma_fundamental_div_mod_converse(q as int, width as int, py as int, px as int);
                }
                assert forall|i: int| 0 <= i < d0.len() && ((i / 4) % (width as int) >= w as int || (i / 4) / (width as int) >= h as int) implies #[trigger] dst@[i] == before[i] by {
                    if 4 * q <= i < 4 * q + 4 {
                        assert(i / 4 == q as int);
                    }
                }
                if r < 4 {
                    assert(ky * s == ky * 2 * step && kx * s == kx * 2 * step) by (nonlinear_arith)
                        requires s == 2 * step;
                    assert(p as int == band_pos(w as nat, step as nat, r as nat, ky, kx));
                    assert(q as int == band_pos(width as nat, step as nat, r as nat, ky, kx));
                    assert(dst@ =~= pack_at(before, coef@, p as int, q as int));
                }
                assert((kx + 1) * s == kx * s + s) by (nonlinear_arith);
                kx = kx + 1;
            }
            xx += s;
        }
        proof {
            assert(kx == (w as nat) / (s as nat)) by (nonlinear_arith)
                requires xx == kx * s, xx + s > w, xx <= w, s >= 2;
            assert((ky + 1) * s == ky * s + s) by (nonlinear_arith);
            ky = ky + 1;
        }
        yy += s;
    }
    proof {
        assert(ky == (h as nat) / (s as nat)) by (nonlinear_arith)
            requires yy == ky * s, yy + s > h, yy <= h, s >= 2;
    }
}

/// The YUV coefficient bytes (U, Y, V, 0) of aligned position `p` of a
/// `w`-wide area, read from `src` with rows `width` pixels long.
pub open spec fn yuv_pixel(src: Seq<u8>, width: nat, w: nat, p: nat) -> Seq<u8> {
    let o = ((p / w) * width + p % w) * 4;
    let t = yuv_spec(src[o as int], src[o as int + 1], src[o as int + 2]);
    seq![t.0, t.1, t.2, 0u8]
}

/// The coefficients of the first `n` aligned positions.
pub open spec fn yuv_init(src: Seq<u8>, width: nat, w: nat, n: nat) -> Seq<u8>
    decreases n,
{
    if n == 0 {
        seq![]
    } else {
        yuv_init(src, width, w, (n - 1) as nat) + yuv_pixel(src, width, w, (n - 1) as nat)
    }
}

/// The bands of pass `l` copied into pixel positions: the three
/// high-frequency bands, and the low band after the last pass.
pub open spec fn pack_level(d: Seq<u8>, coef: Seq<u8>, w: nat, h: nat, width: nat, step: nat, last: bool) -> Seq<u8> {
    let nby = h / (2 * step);
    let a = pack_band(d, coef, w, width, step, 3, nby);
    let b = pack_band(a, coef, w, width, step, 2, nby);
    let c = pack_band(b, coef, w, width, step, 1, nby);
    if last { pack_band(c, coef, w, width, step, 0, nby) } else { c }
}

/// The bands of the first `l` passes copied into pixel positions.
pub open spec fn packs(d: Seq<u8>, coef: Seq<u8>, w: nat, h: nat, width: nat, level: nat, l: nat) -> Seq<u8>
    decreases l,
{
    if l == 0 {
        d
    } else {
        pack_level(packs(d, coef, w, h, width, level, (l - 1) as nat), coef, w, h, width, pass_step((l - 1) as nat), l == level)
    }
}

/// The quantized wavelet coefficients of the aligned part of a rectangle.
pub open spec fn zywrle_coefficients(src: Seq<u8>, width: nat, height: nat, level: nat) -> Seq<u8> {
    let w = aligned(width, level);
    let h = aligned(height, level);
    wavelet_spec(yuv_init(src, width, w, w * h), w, h, level, level)
}

/// The ZYWRLE transform: the pixels of `src` with the coefficients of the
/// aligned part packed into it.
pub open spec fn zywrle_spec(src: Seq<u8>, width: nat, height: nat, level: nat) -> Seq<u8> {
    packs(
        src,
        zywrle_coefficients(src, width, height, level),
        aligned(width, level),
        aligned(height, level),
        width,
        level,
        level,
    )
}

/// The ZYWRLE transform of a `width` by `height` RGBA32 rectangle at
/// `level` (1 to 3): `None` when the rectangle is narrower or lower than 2 to
/// the `level`; otherwise pixels of the same size whose aligned part holds
/// the quantized wavelet coefficients and whose right and bottom borders are
/// copied from `src`. `buf` receives the coefficients as U | Y << 8 | V << 16.
pub fn zywrle_analyze(src: &[u8], width: usize, height: usize, level: usize, buf: &mut Vec<i32>) -> (r: Option<Vec<u8>>)
    requires
        1 <= level <= 3,
        src@.len() == width * height * 4,
        width <= 0xffff,
        height <= 0xffff,
    ensures
        final(buf)@.len() == old(buf)@.len(),
        r is Some ==> forall|k: int|
            0 <= k < old(buf)@.len() ==> #[trigger] final(buf)@[k] == if k < aligned(width as nat, level as nat) * aligned(
                height as nat,
                level as nat,
            ) {
                ({
                    let c = zywrle_coefficients(src@, width as nat, height as nat, level as nat);
                    (c[4 * k] + c[4 * k + 1] * 256 + c[4 * k + 2] * 65536) as i32
                })
            } else {
                old(buf)@[k]
            },
        r matches Some(v) ==> v@ == zywrle_spec(src@, width as nat, height as nat, level as nat),
        r is None <==> aligned(width as nat, level as nat) == 0 || aligned(height as nat, level as nat) == 0,
        r matches Some(v) ==> v@.len() == width * height * 4 && forall|i: int|
            0 <= i < v@.len() && ((i / 4) % (width as int) >= aligned(width as nat, level as nat) || (i / 4) / (width as int)
                >= aligned(height as nat, level as nat)) ==> #[trigger] v@[i] == src@[i],
{
    let (w, h) = calc_aligned_size(width, height, level);
    if w == 0 || h == 0 {
        return None;
    }
    assert(width * height * 4 <= 0xffff * 0xffff * 4) by (nonlinear_arith)
        requires width <= 0xffff, height <= 0xffff;
    assert(w * h * 4 <= width * height * 4) by (nonlinear_arith)
        requires w <= width, h <= height;
    let n = src.len();
    // Every pixel starts as in `src`; the aligned part is overwritten below.
    let mut dst: Vec<u8> = Vec::new();
    let mut i: usize = 0;
    while i < n
        invariant
            width <= 0xffff,
            height <= 0xffff,
            n == src@.len(),
            n == width * height * 4,
            n == src@.len(),
            i <= n,
            dst@ == src@.subrange(0, i as int),
        decreases n - i,
    {
        dst.push(src[i]);
        i += 1;
    }
    assert(dst@ =~= src@);
    // Colour transform of the aligned part, row stride `w`.
    let mut coef: Vec<u8> = Vec::new();
    let mut yy: usize = 0;
    while yy < h
        invariant
            width <= 0xffff,
            height <= 0xffff,
            n == src@.len(),
            n == width * height * 4,
            src@.len() == width * height * 4,
            w <= width,
            h <= height,
            yy <= h,
            coef@.len() == yy * w * 4,
            coef@ == yuv_init(src@, width as nat, w as nat, (yy * w) as nat),
        decreases h - yy,
    {
        let mut xx: usize = 0;
        while xx < w
            invariant
                width <= 0xffff,
                height <= 0xffff,
                n == src@.len(),
                n == width * height * 4,
                src@.len() == width * height * 4,
                w <= width,
                h <= height,
                yy < h,
                xx <= w,
                coef@.len() == yy * w * 4 + xx * 4,
                coef@ == yuv_init(src@, width as nat, w as nat, (yy * w + xx) as nat),
            decreases w - xx,
        {
            assert((yy * width + xx) * 4 + 4 <= width * height * 4) by (nonlinear_arith)
                requires yy < h, xx < w, w <= width, h <= height;
            let o = (yy * width + xx) * 4;
            let (u, y, v) = rgb_to_yuv(src[o], src[o + 1], src[o + 2]);
            let ghost c0 = coef@;
            coef.push(u);
            coef.push(y);
            coef.push(v);
            coef.push(0);
            proof {
                let pp = (yy * w + xx) as nat;
                vstd::arithmetic::div_mod::lemma_fundamental_div_mod_converse(pp as int, w as int, yy as int, xx as int);
                assert(coef@ =~= c0 + yuv_pixel(src@, width as nat, w as nat, pp));
            }
            xx += 1;
        }
        assert(yy * w * 4 + w * 4 == (yy + 1) * w * 4) by (nonlinear_arith);
        yy += 1;
    }
    assert(h * w * 4 == w * h * 4) by (nonlinear_arith);
    // Wavelet passes.
    let ghost c_init = coef@;
    assert(c_init == yuv_init(src@, width as nat, w as nat, (w * h) as nat)) by {
        assert(h * w == w * h) by (nonlinear_arith);
    }
    let mut l: usize = 0;
    while l < level
        invariant
            width <= 0xffff,
            height <= 0xffff,
            n == src@.len(),
            n == width * height * 4,
            coef@.len() == w * h * 4,
            w <= width,
            h <= height,
            1 <= level <= 3,
            l <= level,
            coef@ == wavelet_spec(c_init, w as nat, h as nat, level as nat, l as nat),
        decreases level - l,
    {
        let step: usize = if l == 0 { 1 } else if l == 1 { 2 } else { 4 };
        wavelet_rows(&mut coef, w, h, step);
        wavelet_cols(&mut coef, w, h, step);
        filter_wavelet_square(&mut coef, w, h, level, l, step);
        l += 1;
    }
    // Coefficients into pixel positions.
    let mut l2: usize = 0;
    while l2 < level
        invariant
            width <= 0xffff,
            height <= 0xffff,
            n == src@.len(),
            n == width * height * 4,
            coef@.len() == w * h * 4,
            dst@.len() == width * height * 4,
            src@.len() == width * height * 4,
            w <= width,
            h <= height,
            w == aligned(width as nat, level as nat),
            h == aligned(height as nat, level as nat),
            1 <= level <= 3,
            l2 <= level,
            coef@ == zywrle_coefficients(src@, width as nat, height as nat, level as nat),
            dst@ == packs(src@, coef@, w as nat, h as nat, width as nat, level as nat, l2 as nat),
            forall|i: int|
                0 <= i < dst@.len() && ((i / 4) % (width as int) >= w as int || (i / 4) / (width as int) >= h as int)
                    ==> #[trigger] dst@[i] == src@[i],
        decreases level - l2,
    {
        let step: usize = if l2 == 0 { 1 } else if l2 == 1 { 2 } else { 4 };
        pack_coeff(&coef, &mut dst, 3, w, h, step, width, height);
        pack_coeff(&coef, &mut dst, 2, w, h, step, width, height);
        pack_coeff(&coef, &mut dst, 1, w, h, step, width, height);
        if l2 == level - 1 {
            pack_coeff(&coef, &mut dst, 0, w, h, step, width, height);
        }
        l2 += 1;
    }
    // The coefficients, as integers, for the caller's buffer.
    let wh = w * h;
    let cl = coef.len();
    let mut k: usize = 0;
    while k < buf.len() && k < wh
        invariant
            width <= 0xffff,
            height <= 0xffff,
            n == src@.len(),
            n == width * height * 4,
            coef@.len() == w * h * 4,
            w <= width,
            h <= height,
            wh == w * h,
            cl == coef@.len(),
            k <= wh,
            buf@.len() == old(buf)@.len(),
            coef@ == zywrle_coefficients(src@, width as nat, height as nat, level as nat),
            w == aligned(width as nat, level as nat),
            h == aligned(height as nat, level as nat),
            forall|j: int|
                0 <= j < old(buf)@.len() ==> #[trigger] buf@[j] == if j < k {
                    (coef@[4 * j] + coef@[4 * j + 1] * 256 + coef@[4 * j + 2] * 65536) as i32
                } else {
                    old(buf)@[j]
                },
        decreases wh - k,
    {
        let v: i32 = coef[4 * k] as i32 + coef[4 * k + 1] as i32 * 256 + coef[4 * k + 2] as i32 * 65536;
        buf.set(k, v);
        k += 1;
    }
    Some(dst)
}

} // verus!
