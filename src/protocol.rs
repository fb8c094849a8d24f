//! Wire-level vocabulary of the RFB protocol: message and encoding
//! identifiers, the pixel format block, and the big-endian framing helpers.
use vstd::prelude::*;

use crate::error::VncError;
use vstd::utf8::encode_utf8;

verus! {

/// Client to server: SetPixelFormat.
pub const CLIENT_MSG_SET_PIXEL_FORMAT: u8 = 0;

/// Client to server: SetEncodings.
pub const CLIENT_MSG_SET_ENCODINGS: u8 = 2;

/// Client to server: FramebufferUpdateRequest.
pub const CLIENT_MSG_FRAMEBUFFER_UPDATE_REQUEST: u8 = 3;

/// Client to server: KeyEvent.
pub const CLIENT_MSG_KEY_EVENT: u8 = 4;

/// Client to server: PointerEvent.
pub const CLIENT_MSG_POINTER_EVENT: u8 = 5;

/// Client to server: ClientCutText.
pub const CLIENT_MSG_CLIENT_CUT_TEXT: u8 = 6;

/// Server to client: FramebufferUpdate.
pub const SERVER_MSG_FRAMEBUFFER_UPDATE: u8 = 0;

/// Server to client: SetColourMapEntries (never sent).
pub const SERVER_MSG_SET_COLOUR_MAP_ENTRIES: u8 = 1;

/// Server to client: Bell (never sent).
pub const SERVER_MSG_BELL: u8 = 2;

/// Server to client: ServerCutText.
pub const SERVER_MSG_SERVER_CUT_TEXT: u8 = 3;

/// Raw encoding.
pub const ENCODING_RAW: i32 = 0;

/// CopyRect encoding.
pub const ENCODING_COPYRECT: i32 = 1;

/// RRE encoding.
pub const ENCODING_RRE: i32 = 2;

/// CoRRE encoding.
pub const ENCODING_CORRE: i32 = 4;

/// Hextile encoding.
pub const ENCODING_HEXTILE: i32 = 5;

/// Zlib encoding.
pub const ENCODING_ZLIB: i32 = 6;

/// Tight encoding.
pub const ENCODING_TIGHT: i32 = 7;

/// TightPng encoding.
pub const ENCODING_TIGHTPNG: i32 = -260;

/// ZlibHex encoding.
pub const ENCODING_ZLIBHEX: i32 = 8;

/// TRLE encoding (not produced).
pub const ENCODING_TRLE: i32 = 15;

/// ZRLE encoding.
pub const ENCODING_ZRLE: i32 = 16;

/// ZYWRLE encoding.
pub const ENCODING_ZYWRLE: i32 = 17;

/// H.264 encoding (not produced).
pub const ENCODING_H264: i32 = 0x4832_3634;

/// Cursor pseudo-encoding.
pub const ENCODING_CURSOR: i32 = -239;

/// DesktopSize pseudo-encoding.
pub const ENCODING_DESKTOP_SIZE: i32 = -223;

/// Quality level 0 pseudo-encoding.
pub const ENCODING_QUALITY_LEVEL_0: i32 = -32;

/// Quality level 9 pseudo-encoding.
pub const ENCODING_QUALITY_LEVEL_9: i32 = -23;

/// Compression level 0 pseudo-encoding.
pub const ENCODING_COMPRESS_LEVEL_0: i32 = -256;

/// Compression level 9 pseudo-encoding.
pub const ENCODING_COMPRESS_LEVEL_9: i32 = -247;

/// Hextile subencoding bit: the tile is sent raw.
pub const HEXTILE_RAW: u8 = 1;

/// Hextile subencoding bit: a background colour follows.
pub const HEXTILE_BACKGROUND_SPECIFIED: u8 = 2;

/// Hextile subencoding bit: a foreground colour follows.
pub const HEXTILE_FOREGROUND_SPECIFIED: u8 = 4;

/// Hextile subencoding bit: subrectangles follow.
pub const HEXTILE_ANY_SUBRECTS: u8 = 8;

/// Hextile subencoding bit: each subrectangle carries its colour.
pub const HEXTILE_SUBRECTS_COLOURED: u8 = 16;

/// Tight compression-control nibble of the PNG sub-mode.
pub const TIGHT_PNG: u8 = 0x0A;

/// Security type: invalid.
pub const SECURITY_TYPE_INVALID: u8 = 0;

/// Security type: none.
pub const SECURITY_TYPE_NONE: u8 = 1;

/// Security type: VNC challenge-response authentication.
pub const SECURITY_TYPE_VNC_AUTH: u8 = 2;

/// Security result: success.
pub const SECURITY_RESULT_OK: u32 = 0;

/// Security result: failure.
pub const SECURITY_RESULT_FAILED: u32 = 1;

// ---------------------------------------------------------------------------
// Byte-order model
// ---------------------------------------------------------------------------

/// Big-endian bytes of a 16-bit value.
pub open spec fn be16(v: u16) -> Seq<u8> {
    seq![(v / 256) as u8, (v % 256) as u8]
}

/// Big-endian bytes of a 32-bit value.
pub open spec fn be32(v: u32) -> Seq<u8> {
    seq![(v / 0x100_0000) as u8, ((v / 0x1_0000) % 256) as u8, ((v / 256) % 256) as u8, (v % 256) as u8]
}

/// Little-endian bytes of a 32-bit value.
pub open spec fn le32(v: u32) -> Seq<u8> {
    seq![(v % 256) as u8, ((v / 256) % 256) as u8, ((v / 0x1_0000) % 256) as u8, (v / 0x100_0000) as u8]
}

/// The 32-bit two's complement pattern of a signed value.
pub open spec fn i32_bits(v: i32) -> u32 {
    if v >= 0 { v as u32 } else { (v + 0x1_0000_0000) as u32 }
}

/// The value of two big-endian bytes.
pub open spec fn u16_of_be(hi: u8, lo: u8) -> u16 {
    (hi as nat * 256 + lo as nat) as u16
}

/// The value of four big-endian bytes.
pub open spec fn u32_of_be(b0: u8, b1: u8, b2: u8, b3: u8) -> u32 {
    (b0 as nat * 0x100_0000 + b1 as nat * 0x1_0000 + b2 as nat * 256 + b3 as nat) as u32
}

/// The signed value of four big-endian bytes.
pub open spec fn i32_of_be(b0: u8, b1: u8, b2: u8, b3: u8) -> i32 {
    let u = u32_of_be(b0, b1, b2, b3);
    if u < 0x8000_0000 { u as i32 } else { (u - 0x1_0000_0000) as i32 }
}

/// Appends one byte.
pub fn put_u8(buf: &mut Vec<u8>, v: u8)
    ensures
        final(buf)@ == old(buf)@.push(v),
{
    buf.push(v);
}

/// Appends a 16-bit value, big-endian.
pub fn put_u16(buf: &mut Vec<u8>, v: u16)
    ensures
        final(buf)@ == old(buf)@ + be16(v),
{
    buf.push((v / 256) as u8);
    buf.push((v % 256) as u8);
    assert(final(buf)@ =~= old(buf)@ + be16(v));
}

/// Appends a 32-bit value, big-endian.
pub fn put_u32(buf: &mut Vec<u8>, v: u32)
    ensures
        final(buf)@ == old(buf)@ + be32(v),
{
    buf.push((v / 0x100_0000) as u8);
    buf.push(((v / 0x1_0000) % 256) as u8);
    buf.push(((v / 256) % 256) as u8);
    buf.push((v % 256) as u8);
    assert(final(buf)@ =~= old(buf)@ + be32(v));
}

/// Appends a 32-bit value, little-endian.
pub fn put_u32_le(buf: &mut Vec<u8>, v: u32)
    ensures
        final(buf)@ == old(buf)@ + le32(v),
{
    buf.push((v % 256) as u8);
    buf.push(((v / 256) % 256) as u8);
    buf.push(((v / 0x1_0000) % 256) as u8);
    buf.push((v / 0x100_0000) as u8);
    assert(final(buf)@ =~= old(buf)@ + le32(v));
}

/// Appends a signed 32-bit value, big-endian two's complement.
pub fn put_i32(buf: &mut Vec<u8>, v: i32)
    ensures
        final(buf)@ == old(buf)@ + be32(i32_bits(v)),
{
    let u: u32 = if v >= 0 { v as u32 } else { (v as i64 + 0x1_0000_0000i64) as u32 };
    put_u32(buf, u);
}

/// Appends every byte of `data`.
pub fn put_slice(buf: &mut Vec<u8>, data: &[u8])
    ensures
        final(buf)@ == old(buf)@ + data@,
{
    let mut i: usize = 0;
    while i < data.len()
        invariant
            i <= data@.len(),
            buf@ == old(buf)@ + data@.subrange(0, i as int),
        decreases data@.len() - i,
    {
        buf.push(data[i]);
        i += 1;
        assert(buf@ =~= old(buf)@ + data@.subrange(0, i as int));
    }
    assert(data@.subrange(0, data@.len() as int) =~= data@);
}

// ---------------------------------------------------------------------------
// Pixel format
// ---------------------------------------------------------------------------

/// How a viewer lays out one pixel on the wire.
#[derive(Clone, Copy, Debug, PartialEq, Eq, Structural)]
pub struct PixelFormat {
    /// Number of bits per pixel.
    pub bits_per_pixel: u8,
    /// Number of useful bits in a pixel.
    pub depth: u8,
    /// Non-zero when multi-byte pixels are big-endian.
    pub big_endian_flag: u8,
    /// Non-zero for true-colour formats, zero for colour-mapped ones.
    pub true_colour_flag: u8,
    /// Largest red value.
    pub red_max: u16,
    /// Largest green value.
    pub green_max: u16,
    /// Largest blue value.
    pub blue_max: u16,
    /// Bit position of red.
    pub red_shift: u8,
    /// Bit position of green.
    pub green_shift: u8,
    /// Bit position of blue.
    pub blue_shift: u8,
}

/// Number of bits needed to write `m`.
pub open spec fn bit_width(m: nat) -> nat
    decreases m,
{
    if m == 0 { 0 } else { 1 + bit_width(m / 2) }
}

/// Number of bits needed to write `max`.
fn bits_needed(max: u16) -> (r: u8)
    ensures
        r as nat == bit_width(max as nat),
        r <= 16,
{
    proof {
        reveal_with_fuel(pow2_spec, 17);
        lemma_bit_width_bound(max as nat, 16);
    }
    let mut m: u16 = max;
    let mut n: u8 = 0;
    while m > 0
        invariant
            n as nat + bit_width(m as nat) == bit_width(max as nat),
            bit_width(max as nat) <= 16,
        decreases m,
    {
        m = m / 2;
        n = n + 1;
    }
    n
}

/// Two to the power `n`.
pub open spec fn pow2_spec(n: nat) -> nat
    decreases n,
{
    if n == 0 { 1 } else { 2 * pow2_spec((n - 1) as nat) }
}

proof fn lemma_bit_width_bound(m: nat, k: nat)
    requires
        m < pow2_spec(k),
    ensures
        bit_width(m) <= k,
    decreases k,
{
    if m > 0 && k > 0 {
        lemma_bit_width_bound(m / 2, (k - 1) as nat);
    }
}

impl PixelFormat {
    /// The fields of the canonical server format: 32 bits per pixel, depth 24,
    /// little-endian, red at bit 0, green at bit 8, blue at bit 16.
    pub open spec fn is_rgba32_spec(&self) -> bool {
        &&& self.bits_per_pixel == 32
        &&& self.depth == 24
        &&& self.big_endian_flag == 0
        &&& self.true_colour_flag == 1
        &&& self.red_max == 255
        &&& self.green_max == 255
        &&& self.blue_max == 255
        &&& self.red_shift == 0
        &&& self.green_shift == 8
        &&& self.blue_shift == 16
    }

    /// The formats the server accepts from a viewer.
    pub open spec fn valid_spec(&self) -> bool {
        &&& (self.bits_per_pixel == 8 || self.bits_per_pixel == 16 || self.bits_per_pixel == 24
            || self.bits_per_pixel == 32)
        &&& 1 <= self.depth <= 32
        &&& (self.true_colour_flag == 0 ==> self.bits_per_pixel == 8)
        &&& (self.true_colour_flag != 0 ==> {
            &&& bit_width(self.red_max as nat) + bit_width(self.green_max as nat) + bit_width(
                self.blue_max as nat,
            ) <= self.depth
            &&& self.red_shift < 32
            &&& self.green_shift < 32
            &&& self.blue_shift < 32
        })
    }

    /// The 16-byte pixel format block.
    pub open spec fn wire(&self) -> Seq<u8> {
        seq![self.bits_per_pixel, self.depth, self.big_endian_flag, self.true_colour_flag]
            + be16(self.red_max) + be16(self.green_max) + be16(self.blue_max)
            + seq![self.red_shift, self.green_shift, self.blue_shift, 0u8, 0u8, 0u8]
    }

    /// The format that 16 bytes describe.
    pub open spec fn parse_spec(b: Seq<u8>) -> PixelFormat {
        PixelFormat {
            bits_per_pixel: b[0],
            depth: b[1],
            big_endian_flag: b[2],
            true_colour_flag: b[3],
            red_max: u16_of_be(b[4], b[5]),
            green_max: u16_of_be(b[6], b[7]),
            blue_max: u16_of_be(b[8], b[9]),
            red_shift: b[10],
            green_shift: b[11],
            blue_shift: b[12],
        }
    }

    /// The canonical server format, RGBA32.
    pub open spec fn rgba32_spec() -> PixelFormat {
        PixelFormat {
            bits_per_pixel: 32,
            depth: 24,
            big_endian_flag: 0,
            true_colour_flag: 1,
            red_max: 255,
            green_max: 255,
            blue_max: 255,
            red_shift: 0,
            green_shift: 8,
            blue_shift: 16,
        }
    }

    /// Creates the canonical 32-bit RGBA format.
    pub fn rgba32() -> (r: Self)
        ensures
            r == Self::rgba32_spec(),
            r.is_rgba32_spec(),
    {
        PixelFormat {
            bits_per_pixel: 32,
            depth: 24,
            big_endian_flag: 0,
            true_colour_flag: 1,
            red_max: 255,
            green_max: 255,
            blue_max: 255,
            red_shift: 0,
            green_shift: 8,
            blue_shift: 16,
        }
    }

    /// Whether this format is the canonical RGBA32 layout.
    pub fn is_compatible_with_rgba32(&self) -> (r: bool)
        ensures
            r == self.is_rgba32_spec(),
    {
        self.bits_per_pixel == 32 && self.depth == 24 && self.big_endian_flag == 0
            && self.true_colour_flag == 1 && self.red_max == 255 && self.green_max == 255
            && self.blue_max == 255 && self.red_shift == 0 && self.green_shift == 8
            && self.blue_shift == 16
    }

    /// Whether the server accepts this format from a viewer.
    pub fn is_valid(&self) -> (r: bool)
        ensures
            r == self.valid_spec(),
    {
        if self.bits_per_pixel != 8 && self.bits_per_pixel != 16 && self.bits_per_pixel != 24
            && self.bits_per_pixel != 32 {
            return false;
        }
        if self.depth == 0 || self.depth > 32 {
            return false;
        }
        if self.true_colour_flag == 0 && self.bits_per_pixel != 8 {
            return false;
        }
        if self.true_colour_flag != 0 {
            let red_bits = bits_needed(self.red_max);
            let green_bits = bits_needed(self.green_max);
            let blue_bits = bits_needed(self.blue_max);
            if red_bits as u16 + green_bits as u16 + blue_bits as u16 > self.depth as u16 {
                return false;
            }
            if self.red_shift >= 32 || self.green_shift >= 32 || self.blue_shift >= 32 {
                return false;
            }
        }
        true
    }

    /// Creates the 16-bit RGB565 format.
    pub fn rgb565() -> (r: Self)
        ensures
            r.bits_per_pixel == 16 && r.depth == 16 && r.big_endian_flag == 0
                && r.true_colour_flag == 1,
            r.red_max == 31 && r.green_max == 63 && r.blue_max == 31,
            r.red_shift == 11 && r.green_shift == 5 && r.blue_shift == 0,
    {
        PixelFormat {
            bits_per_pixel: 16,
            depth: 16,
            big_endian_flag: 0,
            true_colour_flag: 1,
            red_max: 31,
            green_max: 63,
            blue_max: 31,
            red_shift: 11,
            green_shift: 5,
            blue_shift: 0,
        }
    }

    /// Creates the 16-bit RGB555 format.
    pub fn rgb555() -> (r: Self)
        ensures
            r.bits_per_pixel == 16 && r.depth == 15 && r.big_endian_flag == 0
                && r.true_colour_flag == 1,
            r.red_max == 31 && r.green_max == 31 && r.blue_max == 31,
            r.red_shift == 10 && r.green_shift == 5 && r.blue_shift == 0,
    {
        PixelFormat {
            bits_per_pixel: 16,
            depth: 15,
            big_endian_flag: 0,
            true_colour_flag: 1,
            red_max: 31,
            green_max: 31,
            blue_max: 31,
            red_shift: 10,
            green_shift: 5,
            blue_shift: 0,
        }
    }

    /// Creates the 8-bit BGR233 format.
    pub fn bgr233() -> (r: Self)
        ensures
            r.bits_per_pixel == 8 && r.depth == 8 && r.big_endian_flag == 0
                && r.true_colour_flag == 1,
            r.red_max == 7 && r.green_max == 7 && r.blue_max == 3,
            r.red_shift == 0 && r.green_shift == 3 && r.blue_shift == 6,
    {
        PixelFormat {
            bits_per_pixel: 8,
            depth: 8,
            big_endian_flag: 0,
            true_colour_flag: 1,
            red_max: 7,
            green_max: 7,
            blue_max: 3,
            red_shift: 0,
            green_shift: 3,
            blue_shift: 6,
        }
    }

    /// Appends the 16-byte pixel format block.
    pub fn write_to(&self, buf: &mut Vec<u8>)
        ensures
            final(buf)@ == old(buf)@ + self.wire(),
    {
        put_u8(buf, self.bits_per_pixel);
        put_u8(buf, self.depth);
        put_u8(buf, self.big_endian_flag);
        put_u8(buf, self.true_colour_flag);
        put_u16(buf, self.red_max);
        put_u16(buf, self.green_max);
        put_u16(buf, self.blue_max);
        put_u8(buf, self.red_shift);
        put_u8(buf, self.green_shift);
        put_u8(buf, self.blue_shift);
        put_u8(buf, 0);
        put_u8(buf, 0);
        put_u8(buf, 0);
        assert(final(buf)@ =~= old(buf)@ + self.wire());
    }

    /// Reads a pixel format block from the first 16 bytes of `buf`.
    pub fn from_bytes(buf: &[u8]) -> (r: Result<Self, VncError>)
        ensures
            buf@.len() < 16 <==> r is Err,
            r matches Ok(pf) ==> pf == Self::parse_spec(buf@),
    {
        if buf.len() < 16 {
            return Err(VncError::Protocol(String::new()));
        }
        Ok(
            PixelFormat {
                bits_per_pixel: buf[0],
                depth: buf[1],
                big_endian_flag: buf[2],
                true_colour_flag: buf[3],
                red_max: buf[4] as u16 * 256 + buf[5] as u16,
                green_max: buf[6] as u16 * 256 + buf[7] as u16,
                blue_max: buf[8] as u16 * 256 + buf[9] as u16,
                red_shift: buf[10],
                green_shift: buf[11],
                blue_shift: buf[12],
            },
        )
    }
}

/// Reading back a written pixel format block gives the same format.
pub proof fn lemma_pixel_format_round_trip(pf: PixelFormat)
    ensures
        PixelFormat::parse_spec(pf.wire()) == pf,
{
    let w = pf.wire();
    assert(w[4] == (pf.red_max / 256) as u8 && w[5] == (pf.red_max % 256) as u8);
    assert(w[6] == (pf.green_max / 256) as u8 && w[7] == (pf.green_max % 256) as u8);
    assert(w[8] == (pf.blue_max / 256) as u8 && w[9] == (pf.blue_max % 256) as u8);
    assert(w[10] == pf.red_shift && w[11] == pf.green_shift && w[12] == pf.blue_shift);
}

/// The ServerInit message.
#[derive(Clone, Debug)]
pub struct ServerInit {
    /// Framebuffer width in pixels.
    pub framebuffer_width: u16,
    /// Framebuffer height in pixels.
    pub framebuffer_height: u16,
    /// The server's pixel format.
    pub pixel_format: PixelFormat,
    /// The desktop name.
    pub name: String,
}

impl ServerInit {
    /// The bytes of this message.
    pub open spec fn wire(&self) -> Seq<u8> {
        be16(self.framebuffer_width) + be16(self.framebuffer_height) + self.pixel_format.wire()
            + be32(encode_utf8(self.name@).len() as u32) + encode_utf8(self.name@)
    }

    /// Appends the message: width, height, pixel format, name length, name.
    pub fn write_to(&self, buf: &mut Vec<u8>)
        requires
            encode_utf8(self.name@).len() <= u32::MAX,
        ensures
            final(buf)@ == old(buf)@ + self.wire(),
    {
        put_u16(buf, self.framebuffer_width);
        put_u16(buf, self.framebuffer_height);
        self.pixel_format.write_to(buf);
        let name_bytes = self.name.as_str().as_bytes();
        put_u32(buf, name_bytes.len() as u32);
        put_slice(buf, name_bytes);
        assert(final(buf)@ =~= old(buf)@ + self.wire());
    }
}

/// A message from the viewer.
#[derive(Debug, Clone)]
pub enum ClientMessage {
    /// The viewer asks for pixels in this format.
    SetPixelFormat(PixelFormat),
    /// The viewer lists the encodings it supports, most preferred first.
    SetEncodings(Vec<i32>),
    /// The viewer asks for an update of a region.
    FramebufferUpdateRequest {
        /// Only changes since the last update are wanted.
        incremental: bool,
        /// Left edge.
        x: u16,
        /// Top edge.
        y: u16,
        /// Width.
        width: u16,
        /// Height.
        height: u16,
    },
    /// A key was pressed or released.
    KeyEvent {
        /// Pressed when true.
        down: bool,
        /// The X11 keysym.
        key: u32,
    },
    /// The pointer moved or a button changed.
    PointerEvent {
        /// Pressed buttons.
        button_mask: u8,
        /// Pointer x.
        x: u16,
        /// Pointer y.
        y: u16,
    },
    /// Clipboard text from the viewer.
    ClientCutText(String),
}

/// A rectangle header of a FramebufferUpdate.
#[derive(Debug, Clone, Copy, PartialEq, Eq, Structural)]
pub struct Rectangle {
    /// Left edge.
    pub x: u16,
    /// Top edge.
    pub y: u16,
    /// Width.
    pub width: u16,
    /// Height.
    pub height: u16,
    /// Encoding of the body that follows.
    pub encoding: i32,
}

impl Rectangle {
    /// The 12 header bytes.
    pub open spec fn header(&self) -> Seq<u8> {
        be16(self.x) + be16(self.y) + be16(self.width) + be16(self.height) + be32(
            i32_bits(self.encoding),
        )
    }

    /// Appends the header: x, y, width, height (u16) and encoding (i32), big-endian.
    pub fn write_header(&self, buf: &mut Vec<u8>)
        ensures
            final(buf)@ == old(buf)@ + self.header(),
    {
        put_u16(buf, self.x);
        put_u16(buf, self.y);
        put_u16(buf, self.width);
        put_u16(buf, self.height);
        put_i32(buf, self.encoding);
        assert(final(buf)@ =~= old(buf)@ + self.header());
    }
}

} // verus!
