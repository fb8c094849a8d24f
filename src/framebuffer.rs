//! The shared pixel store, in the server's RGBA32 layout, and the dirty
//! regions its updates produce.
use vstd::prelude::*;

use crate::error::VncError;

verus! {

/// A rectangle of the framebuffer that a viewer has not seen yet.
#[derive(Debug, Clone, Copy, PartialEq, Eq, Structural)]
pub struct DirtyRegion {
    /// Left edge.
    pub x: u16,
    /// Top edge.
    pub y: u16,
    /// Width.
    pub width: u16,
    /// Height.
    pub height: u16,
}

impl DirtyRegion {
    /// The region holds the pixel (`px`, `py`).
    pub open spec fn has(&self, px: int, py: int) -> bool {
        self.x <= px < self.x + self.width && self.y <= py < self.y + self.height
    }

    /// Creates a region.
    pub fn new(x: u16, y: u16, width: u16, height: u16) -> (r: Self)
        ensures
            r == (DirtyRegion { x, y, width, height }),
    {
        DirtyRegion { x, y, width, height }
    }

    /// The intersection of two regions, when it is not empty.
    pub open spec fn intersect_spec(&self, other: &DirtyRegion) -> Option<DirtyRegion> {
        let x1 = if self.x > other.x { self.x } else { other.x };
        let y1 = if self.y > other.y { self.y } else { other.y };
        let a2 = self.x + self.width;
        let b2 = other.x + other.width;
        let x2 = if a2 < b2 { a2 } else { b2 };
        let c2 = self.y + self.height;
        let d2 = other.y + other.height;
        let y2 = if c2 < d2 { c2 } else { d2 };
        if x1 < x2 && y1 < y2 {
            Some(DirtyRegion { x: x1, y: y1, width: (x2 - x1) as u16, height: (y2 - y1) as u16 })
        } else {
            None
        }
    }

    /// The pixels both regions hold, when there are any.
    pub fn intersect(&self, other: &DirtyRegion) -> (r: Option<DirtyRegion>)
        ensures
            r == self.intersect_spec(other),
            r matches Some(i) ==> i.width >= 1 && i.height >= 1 && forall|px: int, py: int|
                #[trigger] i.has(px, py) <==> self.has(px, py) && other.has(px, py),
            r is None ==> forall|px: int, py: int| !(#[trigger] self.has(px, py) && other.has(px, py)),
    {
        let x1: u32 = if self.x > other.x { self.x as u32 } else { other.x as u32 };
        let y1: u32 = if self.y > other.y { self.y as u32 } else { other.y as u32 };
        let a2: u32 = self.x as u32 + self.width as u32;
        let b2: u32 = other.x as u32 + other.width as u32;
        let x2: u32 = if a2 < b2 { a2 } else { b2 };
        let c2: u32 = self.y as u32 + self.height as u32;
        let d2: u32 = other.y as u32 + other.height as u32;
        let y2: u32 = if c2 < d2 { c2 } else { d2 };
        if x1 < x2 && y1 < y2 {
            Some(DirtyRegion { x: x1 as u16, y: y1 as u16, width: (x2 - x1) as u16, height: (y2 - y1) as u16 })
        } else {
            None
        }
    }
}

/// Copies `count` bytes of `src` from `src_off` over `dst` from `dst_off`.
fn copy_bytes(dst: &mut Vec<u8>, dst_off: usize, src: &[u8], src_off: usize, count: usize)
    requires
        dst_off + count <= old(dst)@.len(),
        src_off + count <= src@.len(),
    ensures
        final(dst)@.len() == old(dst)@.len(),
        forall|i: int|
            0 <= i < old(dst)@.len() ==> #[trigger] final(dst)@[i] == if dst_off <= i < dst_off + count {
                src@[src_off + (i - dst_off)]
            } else {
                old(dst)@[i]
            },
{
    let dn = dst.len();
    let sn = src.len();
    let mut k: usize = 0;
    while k < count
        invariant
            dn == dst@.len(),
            sn == src@.len(),
            dst_off + count <= old(dst)@.len(),
            src_off + count <= src@.len(),
            dst@.len() == old(dst)@.len(),
            k <= count,
            forall|i: int|
                0 <= i < old(dst)@.len() ==> #[trigger] dst@[i] == if dst_off <= i < dst_off + k {
                    src@[src_off + (i - dst_off)]
                } else {
                    old(dst)@[i]
                },
        decreases count - k,
    {
        dst.set(dst_off + k, src[src_off + k]);
        k += 1;
    }
}

/// The pixel store: `width * height` pixels of four bytes, row by row.
pub struct Framebuffer {
    width: u16,
    height: u16,
    data: Vec<u8>,
}

impl Framebuffer {
    /// Width in pixels.
    pub closed spec fn spec_width(&self) -> u16 {
        self.width
    }

    /// Height in pixels.
    pub closed spec fn spec_height(&self) -> u16 {
        self.height
    }

    /// The pixel bytes, row by row.
    pub closed spec fn bytes(&self) -> Seq<u8> {
        self.data@
    }

    /// The store holds exactly `width * height` pixels.
    pub open spec fn wf(&self) -> bool {
        self.bytes().len() == self.spec_width() as nat * self.spec_height() as nat * 4
    }

    /// The byte `c` of the pixel (`x`, `y`).
    pub open spec fn byte_at(&self, x: int, y: int, c: int) -> u8 {
        self.bytes()[(y * self.spec_width() + x) * 4 + c]
    }

    /// The bytes of the `w` by `h` pixels at (`x`, `y`), row by row.
    pub open spec fn rect_bytes(&self, x: int, y: int, w: nat, h: nat) -> Seq<u8> {
        Seq::new(w * h * 4, |i: int| self.byte_at(x + (i / 4) % (w as int), y + (i / 4) / (w as int), i % 4))
    }

    /// Creates a framebuffer of zero bytes.
    pub fn new(width: u16, height: u16) -> (r: Self)
        requires
            width as nat * height as nat * 4 <= usize::MAX,
        ensures
            r.wf(),
            r.spec_width() == width,
            r.spec_height() == height,
            forall|i: int| 0 <= i < r.bytes().len() ==> #[trigger] r.bytes()[i] == 0,
    {
        let n: usize = width as usize * height as usize * 4;
        let data: Vec<u8> = vec![0u8; n];
        Framebuffer { width, height, data }
    }

    /// Width in pixels.
    pub fn width(&self) -> (r: u16)
        ensures
            r == self.spec_width(),
    {
        self.width
    }

    /// Height in pixels.
    pub fn height(&self) -> (r: u16)
        ensures
            r == self.spec_height(),
    {
        self.height
    }

    /// Writes the `w` by `h` RGBA32 pixels at (`x`, `y`), clipped to the
    /// framebuffer; returns the region written, when it is not empty.
    pub fn update(&mut self, pixels: &[u8], x: u16, y: u16, w: u16, h: u16) -> (r: Option<DirtyRegion>)
        requires
            old(self).wf(),
            pixels@.len() == w as nat * h as nat * 4,
        ensures
            final(self).wf(),
            final(self).spec_width() == old(self).spec_width(),
            final(self).spec_height() == old(self).spec_height(),
            r matches Some(d) ==> d.x == x && d.y == y && d.width >= 1 && d.height >= 1 && d.x + d.width
                <= old(self).spec_width() && d.y + d.height <= old(self).spec_height(),
            r is None <==> (x >= old(self).spec_width() || y >= old(self).spec_height() || w == 0 || h == 0),
            r matches Some(d) ==> (x + w <= old(self).spec_width() ==> d.width == w) && (y + h
                <= old(self).spec_height() ==> d.height == h),
            forall|px: int, py: int, c: int|
                0 <= px < old(self).spec_width() && 0 <= py < old(self).spec_height() && 0 <= c < 4
                    ==> #[trigger] final(self).byte_at(px, py, c) == if x <= px < x + w && y <= py < y + h {
                    pixels@[((py - y) * w + (px - x)) * 4 + c]
                } else {
                    old(self).byte_at(px, py, c)
                },
    {
        let fw = self.width as usize;
        let fh = self.height as usize;
        let cw: usize = if (x as usize) >= fw { 0 } else if x as usize + w as usize > fw { fw - x as usize } else { w as usize };
        let ch: usize = if (y as usize) >= fh { 0 } else if y as usize + h as usize > fh { fh - y as usize } else { h as usize };
        if cw == 0 || ch == 0 {
            proof {
                assert forall|px: int, py: int, c: int|
                    0 <= px < old(self).spec_width() && 0 <= py < old(self).spec_height() && 0 <= c < 4
                        implies #[trigger] self.byte_at(px, py, c) == if x <= px < x + w && y <= py < y + h {
                        pixels@[((py - y) * w + (px - x)) * 4 + c]
                    } else {
                        old(self).byte_at(px, py, c)
                    } by {}
            }
            return None;
        }
        let ghost orig = self.data@;
        let n = self.data.len();
        let pn = pixels.len();
        let mut dy: usize = 0;
        while dy < ch
            invariant
                cw >= 1,
                ch >= 1,
                y + ch <= fh,
                x + cw <= fw,
                pn == pixels@.len(),
                n == self.data@.len(),
                self.width == old(self).width,
                self.height == old(self).height,
                fw == self.width,
                fh == self.height,
                orig == old(self).data@,
                self.data@.len() == fw * fh * 4,
                pixels@.len() == w as nat * h as nat * 4,
                ch <= h,
                cw <= w,
                ch == 0 || y + ch <= fh,
                cw == 0 || x + cw <= fw,
                x + w > fw ==> cw == (if x >= fw { 0 } else { fw - x }),
                x + w <= fw ==> cw == w,
                y + h > fh ==> ch == (if y >= fh { 0 } else { fh - y }),
                y + h <= fh ==> ch == h,
                dy <= ch,
                forall|px: int, py: int, c: int|
                    0 <= px < fw && 0 <= py < fh && 0 <= c < 4 ==> #[trigger] self.data@[(py * fw + px) * 4 + c] == if x <= px < x + cw && y <= py < y + dy {
                        pixels@[((py - y) * w + (px - x)) * 4 + c]
                    } else {
                        orig[(py * fw + px) * 4 + c]
                    },
            decreases ch - dy,
        {
            let py = y as usize + dy;
            assert((py * fw + x as usize) * 4 + cw * 4 <= fw * fh * 4) by (nonlinear_arith)
                requires py < fh, x + cw <= fw;
            assert((dy * (w as usize)) * 4 + cw * 4 <= w as nat * h as nat * 4) by (nonlinear_arith)
                requires dy < h, cw <= w;
            let dst = (py * fw + x as usize) * 4;
            let src = (dy * w as usize) * 4;
            let ghost before = self.data@;
            copy_bytes(&mut self.data, dst, pixels, src, cw * 4);
            proof {
                assert forall|qx: int, qy: int, c: int|
                    0 <= qx < fw && 0 <= qy < fh && 0 <= c < 4 implies #[trigger] self.data@[(qy * fw + qx) * 4 + c] == if x <= qx < x + cw && y <= qy < y + dy + 1 {
                        pixels@[((qy - y) * w + (qx - x)) * 4 + c]
                    } else {
                        orig[(qy * fw + qx) * 4 + c]
                    } by {
                    let i = (qy * fw + qx) * 4 + c;
                    assert(0 <= i < fw * fh * 4) by (nonlinear_arith)
                        requires 0 <= qx < fw, 0 <= qy < fh, 0 <= c < 4, i == (qy * fw + qx) * 4 + c;
                    if qy == py && x <= qx < x + cw {
                        assert(self.data@[i] == pixels@[src + (i - dst)]);
                        assert(i - dst == (qx - x) * 4 + c);
                        assert(src + (i - dst) == ((qy - y) * w + (qx - x)) * 4 + c) by (nonlinear_arith)
                            requires src == (dy * w) * 4, qy == y + dy, i - dst == (qx - x) * 4 + c;
                    } else {
                        if qy < py {
                            assert(i < dst) by (nonlinear_arith)
                                requires qy < py, qx < fw, c < 4, dst == (py * fw + x) * 4, i == (qy * fw + qx) * 4 + c;
                        } else if qy > py {
                            assert(i >= dst + cw * 4) by (nonlinear_arith)
                                requires qy > py, 0 <= qx, 0 <= c, x + cw <= fw, dst == (py * fw + x) * 4, i == (qy * fw + qx) * 4 + c;
                        } else {
                            assert(i < dst || i >= dst + cw * 4);
                        }
                        assert(self.data@[i] == before[i]);
                        assert(before[i] == if x <= qx < x + cw && y <= qy < y + dy {
                            pixels@[((qy - y) * w + (qx - x)) * 4 + c]
                        } else {
                            orig[(qy * fw + qx) * 4 + c]
                        });
                    }
                }
            }
            dy += 1;
        }
        proof {
            assert forall|px: int, py: int, c: int|
                0 <= px < old(self).spec_width() && 0 <= py < old(self).spec_height() && 0 <= c < 4
                    implies #[trigger] self.byte_at(px, py, c) == if x <= px < x + w && y <= py < y + h {
                    pixels@[((py - y) * w + (px - x)) * 4 + c]
                } else {
                    old(self).byte_at(px, py, c)
                } by {
                assert(self.data@[(py * fw + px) * 4 + c] == if x <= px < x + cw && y <= py < y + ch {
                    pixels@[((py - y) * w + (px - x)) * 4 + c]
                } else {
                    orig[(py * fw + px) * 4 + c]
                });
            }
        }
        Some(DirtyRegion { x, y, width: cw as u16, height: ch as u16 })
    }

    /// A copy of the `w` by `h` pixels at (`x`, `y`), row by row; an error
    /// when the rectangle reaches outside the framebuffer.
    pub fn get_rect(&self, x: u16, y: u16, w: u16, h: u16) -> (r: Result<Vec<u8>, VncError>)
        requires
            self.wf(),
        ensures
            (x as nat + w as nat > self.spec_width() || y as nat + h as nat > self.spec_height()) <==> r is Err,
            r matches Ok(v) ==> v@.len() == w as nat * h as nat * 4 && forall|px: int, py: int, c: int|
                0 <= px < w && 0 <= py < h && 0 <= c < 4 ==> #[trigger] v@[(py * w + px) * 4 + c] == self.byte_at(x + px, y + py, c),
            r matches Ok(v) ==> v@ == self.rect_bytes(x as int, y as int, w as nat, h as nat),
    {
        if x as u32 + w as u32 > self.width as u32 || y as u32 + h as u32 > self.height as u32 {
            return Err(VncError::InvalidOperation(String::new()));
        }
        let fw = self.width as usize;
        let fh = self.height as usize;
        let n = self.data.len();
        let mut out: Vec<u8> = Vec::new();
        let mut dy: usize = 0;
        while dy < h as usize
            invariant
                n == self.bytes().len(),
                self.wf(),
                fw == self.spec_width(),
                fh == self.spec_height(),
                x + w <= fw,
                y + h <= fh,
                dy <= h,
                out@.len() == dy * w * 4,
                forall|px: int, py: int, c: int|
                    0 <= px < w && 0 <= py < dy && 0 <= c < 4 ==> #[trigger] out@[(py * w + px) * 4 + c] == self.byte_at(x + px, y + py, c),
            decreases h - dy,
        {
            let mut dx: usize = 0;
            while dx < w as usize
                invariant
                    n == self.bytes().len(),
                    self.wf(),
                    fw == self.spec_width(),
                    fh == self.spec_height(),
                    x + w <= fw,
                    y + h <= fh,
                    dy < h,
                    dx <= w,
                    out@.len() == dy * w * 4 + dx * 4,
                    forall|px: int, py: int, c: int|
                        0 <= px < w && 0 <= py < dy && 0 <= c < 4 ==> #[trigger] out@[(py * w + px) * 4 + c] == self.byte_at(x + px, y + py, c),
                    forall|px: int, c: int|
                        0 <= px < dx && 0 <= c < 4 ==> #[trigger] out@[(dy * w + px) * 4 + c] == self.byte_at(x + px, y + dy, c),
                decreases w - dx,
            {
                let py = y as usize + dy;
                let px = x as usize + dx;
                assert((py * fw + px) * 4 + 4 <= fw * fh * 4) by (nonlinear_arith)
                    requires py < fh, px < fw;
                let o = (py * fw + px) * 4;
                let ghost before = out@;
                out.push(self.data[o]);
                out.push(self.data[o + 1]);
                out.push(self.data[o + 2]);
                out.push(self.data[o + 3]);
                proof {
                    assert forall|qx: int, qy: int, c: int|
                        0 <= qx < w && 0 <= qy < dy && 0 <= c < 4 implies #[trigger] out@[(qy * w + qx) * 4 + c] == self.byte_at(x + qx, y + qy, c) by {
                        assert((qy * w + qx) * 4 + c < dy * w * 4) by (nonlinear_arith)
                            requires qy < dy, qx < w, c < 4, 0 <= qx, 0 <= c;
                    }
                    assert forall|qx: int, c: int|
                        0 <= qx < dx + 1 && 0 <= c < 4 implies #[trigger] out@[(dy * w + qx) * 4 + c] == self.byte_at(x + qx, y + dy, c) by {
                        if qx < dx {
                            assert((dy * w + qx) * 4 + c < dy * w * 4 + dx * 4) by (nonlinear_arith)
                                requires qx < dx, c < 4, 0 <= c;
                        }
                    }
                }
                dx += 1;
            }
            proof {
                assert forall|qx: int, qy: int, c: int|
                    0 <= qx < w && 0 <= qy < dy + 1 && 0 <= c < 4 implies #[trigger] out@[(qy * w + qx) * 4 + c] == self.byte_at(x + qx, y + qy, c) by {
                    if qy == dy {
                        assert(out@[(dy * w + qx) * 4 + c] == self.byte_at(x + qx, y + dy, c));
                    }
                }
                assert(dy * w * 4 + w * 4 == (dy + 1) * w * 4) by (nonlinear_arith);
            }
            dy += 1;
        }
        proof {
            assert forall|px: int, py: int, c: int|
                0 <= px < w && 0 <= py < h && 0 <= c < 4 implies #[trigger] out@[(py * w + px) * 4 + c] == self.byte_at(x + px, y + py, c) by {
                assert(py < dy);
            }
            assert(dy * w * 4 == w as nat * h as nat * 4) by (nonlinear_arith)
                requires dy == h;
            let rb = self.rect_bytes(x as int, y as int, w as nat, h as nat);
            assert forall|i: int| 0 <= i < out@.len() implies #[trigger] out@[i] == rb[i] by {
                let q = i / 4;
                let c = i % 4;
                let px = q % (w as int);
                let py = q / (w as int);
                assert(w > 0) by (nonlinear_arith)
                    requires 0 <= i < w as nat * h as nat * 4;
                assert(0 <= px < w && 0 <= py < h && 0 <= c < 4 && i == (py * w + px) * 4 + c) by (nonlinear_arith)
                    requires 0 <= i < w as nat * h as nat * 4, w > 0, q == i / 4, c == i % 4, px == q % (w as int), py == q / (w as int);
                assert(out@[(py * w + px) * 4 + c] == self.byte_at(x + px, y + py, c));
            }
            assert(out@ =~= rb);
        }
        Ok(out)
    }
}

} // verus!
