//! The per-connection protocol engine, as decisions on plain values: the
//! handshake steps, VNC authentication, reading client messages, the state
//! they change, the deferral of updates, and the FramebufferUpdate built from
//! the dirty regions.
use vstd::prelude::*;

use vstd::utf8::{encode_utf8, valid_utf8};

use crate::deflate::{is_framed, new_stream};
use crate::encoding::common::rgb24_pixels;
use crate::encoding::hextile::{hex_wire, hextile_ok, HexTile};
use crate::encoding::tight::{normalized_level, piece_rects, pieces_ok, tiles_rect, whole_rect, Rect};
use crate::encoding::tightpng::tightpng_body;
use crate::encoding::hextile::HextileEncoding;
use crate::encoding::raw::{raw_pixels, raw_spec};
use crate::encoding::tight::encode_tight_rects;
use crate::encoding::tightpng::encode_tightpng_png;
use crate::encoding::zlibhex::encode_zlibhex_persistent;
use crate::encoding::zrle::encode_zrle_persistent;
use crate::encoding::zywrle::zywrle_analyze;
use crate::encoding::Encoding;
use crate::error::VncError;
use crate::framebuffer::{DirtyRegion, Framebuffer};
use crate::protocol::{
    be16, be32, i32_of_be, put_slice, put_u16, put_u32, put_u8, u16_of_be, u32_of_be,
    ClientMessage, PixelFormat, Rectangle, ServerInit, CLIENT_MSG_CLIENT_CUT_TEXT, CLIENT_MSG_FRAMEBUFFER_UPDATE_REQUEST,
    CLIENT_MSG_KEY_EVENT, CLIENT_MSG_POINTER_EVENT, CLIENT_MSG_SET_ENCODINGS, CLIENT_MSG_SET_PIXEL_FORMAT,
    ENCODING_COMPRESS_LEVEL_0, ENCODING_COMPRESS_LEVEL_9, ENCODING_COPYRECT, ENCODING_HEXTILE, ENCODING_QUALITY_LEVEL_0,
    ENCODING_QUALITY_LEVEL_9, ENCODING_RAW, ENCODING_TIGHT, ENCODING_TIGHTPNG, ENCODING_ZLIB, ENCODING_ZLIBHEX,
    ENCODING_ZRLE, ENCODING_ZYWRLE, SECURITY_RESULT_FAILED, SECURITY_RESULT_OK, SECURITY_TYPE_NONE,
    SECURITY_TYPE_VNC_AUTH, SERVER_MSG_FRAMEBUFFER_UPDATE, SERVER_MSG_SERVER_CUT_TEXT,
};
use crate::translate::{shifts_fit, translate_pixels, translate_spec};

verus! {

/// Largest clipboard text a viewer may send, in bytes.
pub const MAX_CUT_TEXT: usize = 10 * 1024 * 1024;

/// Most rectangles taken from the queues for one update.
pub const MAX_RECTS_PER_UPDATE: usize = 50;

/// How long dirty regions are collected before an update, in nanoseconds.
pub const DEFER_UPDATE_NANOS: u64 = 5_000_000;

/// Shortest time between two updates, in nanoseconds.
pub const MIN_UPDATE_INTERVAL_NANOS: u64 = 33_000_000;

/// What a viewer did, for the host application.
#[derive(Debug, Clone)]
pub enum ClientEvent {
    /// A key was pressed or released.
    KeyPress {
        /// Pressed when true.
        down: bool,
        /// The X11 keysym.
        key: u32,
    },
    /// The pointer moved or a button changed.
    PointerMove {
        /// Pointer x.
        x: u16,
        /// Pointer y.
        y: u16,
        /// Pressed buttons.
        button_mask: u8,
    },
    /// Clipboard text arrived.
    CutText {
        /// The text.
        text: String,
    },
    /// The viewer is gone.
    Disconnected,
}

// ---------------------------------------------------------------------------
// Handshake
// ---------------------------------------------------------------------------

/// The security types the server offers: one type, VNC authentication when a
/// password is set, none otherwise.
pub fn security_offer(has_password: bool) -> (r: Vec<u8>)
    ensures
        r@ == seq![1u8, if has_password { SECURITY_TYPE_VNC_AUTH } else { SECURITY_TYPE_NONE }],
{
    let mut v: Vec<u8> = Vec::new();
    v.push(1);
    v.push(if has_password { SECURITY_TYPE_VNC_AUTH } else { SECURITY_TYPE_NONE });
    assert(v@ =~= seq![1u8, if has_password { SECURITY_TYPE_VNC_AUTH } else { SECURITY_TYPE_NONE }]);
    v
}

/// What follows the viewer's choice of security type.
#[derive(Debug, Clone, Copy, PartialEq, Eq, Structural)]
pub enum SecurityStep {
    /// No authentication: send result 0 and go on.
    Accept,
    /// VNC authentication: send a challenge.
    Challenge,
    /// Send result 1 and close.
    Reject,
}

/// The step after the viewer chose security type `chosen`: type None passes
/// only without a password, VNC authentication only with one.
pub fn security_step(has_password: bool, chosen: u8) -> (r: SecurityStep)
    ensures
        r == SecurityStep::Accept <==> (chosen == SECURITY_TYPE_NONE && !has_password),
        r == SecurityStep::Challenge <==> (chosen == SECURITY_TYPE_VNC_AUTH && has_password),
        r == SecurityStep::Reject <==> !((chosen == SECURITY_TYPE_NONE && !has_password) || (chosen
            == SECURITY_TYPE_VNC_AUTH && has_password)),
{
    if chosen == SECURITY_TYPE_NONE && !has_password {
        SecurityStep::Accept
    } else if chosen == SECURITY_TYPE_VNC_AUTH && has_password {
        SecurityStep::Challenge
    } else {
        SecurityStep::Reject
    }
}

/// The SecurityResult message: 0 on success, 1 on failure.
pub fn security_result(ok: bool) -> (r: Vec<u8>)
    ensures
        r@ == be32(if ok { SECURITY_RESULT_OK } else { SECURITY_RESULT_FAILED }),
{
    let mut v: Vec<u8> = Vec::new();
    put_u32(&mut v, if ok { SECURITY_RESULT_OK } else { SECURITY_RESULT_FAILED });
    v
}

/// The ServerInit message for a framebuffer of `width` by `height` in the
/// server's RGBA32 format.
pub fn server_init_message(width: u16, height: u16, name: String) -> (r: Vec<u8>)
    requires
        encode_utf8(name@).len() <= u32::MAX,
    ensures
        r@ == (ServerInit { framebuffer_width: width, framebuffer_height: height, pixel_format: PixelFormat::rgba32_spec(), name }).wire(),
{
    let init = ServerInit { framebuffer_width: width, framebuffer_height: height, pixel_format: PixelFormat::rgba32(), name };
    let mut v: Vec<u8> = Vec::new();
    init.write_to(&mut v);
    assert(v@ =~= init.wire());
    v
}

// ---------------------------------------------------------------------------
// VNC authentication
// ---------------------------------------------------------------------------

/// The DES encryption of an 8-byte block under an 8-byte key.
pub uninterp spec fn des_encrypt_of(key: Seq<u8>, block: Seq<u8>) -> Seq<u8>;

/// Relies on des::Des (0.8) through cipher's KeyInit::new and
/// BlockEncrypt::encrypt_block: the DES encryption of one block, which
/// depends on the key and the block alone.
#[verifier::external_body]
fn des_encrypt_block(key: [u8; 8], block: [u8; 8]) -> (r: [u8; 8])
    ensures
        r@ == des_encrypt_of(key@, block@),
{
    let cipher = <des::Des as des::cipher::KeyInit>::new(&key.into());
    let mut b = des::cipher::generic_array::GenericArray::from(block);
    des::cipher::BlockEncrypt::encrypt_block(&cipher, &mut b);
    b.into()
}

/// The bits of `v` read from the low end, `n` of them, appended to `acc`.
pub open spec fn reversed_bits(v: nat, n: nat, acc: nat) -> nat
    decreases n,
{
    if n == 0 {
        acc
    } else {
        reversed_bits(v / 2, (n - 1) as nat, acc * 2 + v % 2)
    }
}

/// A byte with its bit order reversed.
pub open spec fn rev8(b: u8) -> u8 {
    reversed_bits(b as nat, 8, 0) as u8
}

/// Reverses the bit order of a byte.
pub fn reverse_bits(b: u8) -> (r: u8)
    ensures
        r == rev8(b),
{
    let mut v: u32 = b as u32;
    let mut acc: u32 = 0;
    let mut i: u32 = 0;
    while i < 8
        invariant
            i <= 8,
            v <= 255,
            acc < pow2_u32(i),
            reversed_bits(v as nat, (8 - i) as nat, acc as nat) == reversed_bits(b as nat, 8, 0),
        decreases 8 - i,
    {
        acc = acc * 2 + v % 2;
        v = v / 2;
        i += 1;
    }
    acc as u8
}

/// Two to the power `i` for small `i`.
pub open spec fn pow2_u32(i: u32) -> nat {
    if i == 0 { 1 } else if i == 1 { 2 } else if i == 2 { 4 } else if i == 3 { 8 } else if i == 4 { 16 } else if i == 5 { 32 } else if i == 6 { 64 } else if i == 7 { 128 } else { 256 }
}

/// The DES key of a password: its first 8 bytes, zero-padded, each with its
/// bit order reversed.
pub open spec fn vnc_key_spec(password: Seq<u8>) -> Seq<u8> {
    Seq::new(8, |i: int| rev8(if i < password.len() { password[i] } else { 0u8 }))
}

/// The DES key of a password.
pub fn vnc_auth_key(password: &[u8]) -> (r: [u8; 8])
    ensures
        r@ == vnc_key_spec(password@),
{
    let mut key: [u8; 8] = [0u8; 8];
    let mut i: usize = 0;
    while i < 8
        invariant
            i <= 8,
            key@.len() == 8,
            forall|j: int| 0 <= j < i ==> #[trigger] key@[j] == vnc_key_spec(password@)[j],
        decreases 8 - i,
    {
        let b = if i < password.len() { password[i] } else { 0 };
        key.set(i, reverse_bits(b));
        i += 1;
    }
    assert(key@ =~= vnc_key_spec(password@));
    key
}

/// The response expected to a 16-byte challenge: its two halves encrypted
/// with DES under the password's key.
pub open spec fn vnc_response_spec(password: Seq<u8>, challenge: Seq<u8>) -> Seq<u8> {
    let k = vnc_key_spec(password);
    des_encrypt_of(k, challenge.subrange(0, 8)) + des_encrypt_of(k, challenge.subrange(8, 16))
}

/// The response expected to a challenge.
pub fn vnc_auth_response(password: &[u8], challenge: &[u8; 16]) -> (r: Vec<u8>)
    ensures
        r@ == vnc_response_spec(password@, challenge@),
{
    let key = vnc_auth_key(password);
    let mut first: [u8; 8] = [0u8; 8];
    let mut second: [u8; 8] = [0u8; 8];
    let mut i: usize = 0;
    while i < 8
        invariant
            i <= 8,
            first@.len() == 8,
            second@.len() == 8,
            forall|j: int| 0 <= j < i ==> #[trigger] first@[j] == challenge@[j],
            forall|j: int| 0 <= j < i ==> #[trigger] second@[j] == challenge@[j + 8],
        decreases 8 - i,
    {
        first.set(i, challenge[i]);
        second.set(i, challenge[i + 8]);
        i += 1;
    }
    assert(first@ =~= challenge@.subrange(0, 8));
    assert(second@ =~= challenge@.subrange(8, 16));
    let a = des_encrypt_block(key, first);
    let b = des_encrypt_block(key, second);
    let mut out: Vec<u8> = Vec::new();
    put_slice(&mut out, a.as_slice());
    put_slice(&mut out, b.as_slice());
    out
}

/// Whether the viewer's response to the challenge is the one the password
/// gives.
pub fn verify_auth_response(password: &[u8], challenge: &[u8; 16], response: &[u8]) -> (r: bool)
    ensures
        r == (response@ == vnc_response_spec(password@, challenge@)),
{
    let expected = vnc_auth_response(password, challenge);
    if expected.len() != response.len() {
        return false;
    }
    let mut i: usize = 0;
    while i < expected.len()
        invariant
            expected@ == vnc_response_spec(password@, challenge@),
            expected@.len() == response@.len(),
            i <= expected@.len(),
            forall|j: int| 0 <= j < i ==> expected@[j] == response@[j],
        decreases expected@.len() - i,
    {
        if expected[i] != response[i] {
            proof {
                if response@ == expected@ {
                    assert(response@[i as int] == expected@[i as int]);
                }
            }
            return false;
        }
        i += 1;
    }
    assert(expected@ =~= response@);
    true
}

// ---------------------------------------------------------------------------
// Client messages
// ---------------------------------------------------------------------------

/// What the bytes at the start of the input buffer hold.
#[derive(Debug)]
pub enum ParseOutcome {
    /// Not a whole message yet.
    Incomplete,
    /// A message and the number of bytes it took.
    Parsed(ClientMessage, usize),
    /// A message that carries nothing to act on (clipboard text that is not
    /// UTF-8), and the number of bytes it took.
    Ignored(usize),
    /// A message that ends the connection.
    Fatal(VncError),
}

/// Relies on String::from_utf8: a string exactly when the bytes are UTF-8,
/// and then the string whose UTF-8 bytes they are.
#[verifier::external_body]
fn utf8_string(bytes: Vec<u8>) -> (r: Option<String>)
    ensures
        r matches Some(s) ==> encode_utf8(s@) == bytes@,
        r is Some <==> valid_utf8(bytes@),
{
    String::from_utf8(bytes).ok()
}

/// The length a ClientCutText message announces.
pub open spec fn cut_len(b: Seq<u8>) -> nat {
    u32_of_be(b[4], b[5], b[6], b[7]) as nat
}

/// Bytes the message starting `b` takes, when its type is known and enough
/// of it is there to tell.
pub open spec fn message_len(b: Seq<u8>) -> nat {
    let t = b[0];
    if t == CLIENT_MSG_SET_PIXEL_FORMAT {
        20
    } else if t == CLIENT_MSG_SET_ENCODINGS {
        if b.len() < 4 { 4 } else { 4 + 4 * (u16_of_be(b[2], b[3]) as nat) }
    } else if t == CLIENT_MSG_FRAMEBUFFER_UPDATE_REQUEST {
        10
    } else if t == CLIENT_MSG_KEY_EVENT {
        8
    } else if t == CLIENT_MSG_POINTER_EVENT {
        6
    } else {
        if b.len() < 8 { 8 } else { 8 + cut_len(b) }
    }
}

/// The message type is one the server reads.
pub open spec fn known_type(t: u8) -> bool {
    t == CLIENT_MSG_SET_PIXEL_FORMAT || t == CLIENT_MSG_SET_ENCODINGS || t == CLIENT_MSG_FRAMEBUFFER_UPDATE_REQUEST
        || t == CLIENT_MSG_KEY_EVENT || t == CLIENT_MSG_POINTER_EVENT || t == CLIENT_MSG_CLIENT_CUT_TEXT
}

/// What a message read from `b` holds.
pub open spec fn message_matches(m: ClientMessage, b: Seq<u8>) -> bool {
    match m {
        ClientMessage::SetPixelFormat(pf) => b[0] == CLIENT_MSG_SET_PIXEL_FORMAT && pf == PixelFormat::parse_spec(b.subrange(4, 20)),
        ClientMessage::SetEncodings(v) => b[0] == CLIENT_MSG_SET_ENCODINGS && v@ == Seq::new(
            u16_of_be(b[2], b[3]) as nat,
            |k: int| i32_of_be(b[4 + 4 * k], b[5 + 4 * k], b[6 + 4 * k], b[7 + 4 * k]),
        ),
        ClientMessage::FramebufferUpdateRequest { incremental, x, y, width, height } => b[0]
            == CLIENT_MSG_FRAMEBUFFER_UPDATE_REQUEST && incremental == (b[1] != 0) && x == u16_of_be(b[2], b[3]) && y
            == u16_of_be(b[4], b[5]) && width == u16_of_be(b[6], b[7]) && height == u16_of_be(b[8], b[9]),
        ClientMessage::KeyEvent { down, key } => b[0] == CLIENT_MSG_KEY_EVENT && down == (b[1] != 0) && key == u32_of_be(
            b[4],
            b[5],
            b[6],
            b[7],
        ),
        ClientMessage::PointerEvent { button_mask, x, y } => b[0] == CLIENT_MSG_POINTER_EVENT && button_mask == b[1] && x
            == u16_of_be(b[2], b[3]) && y == u16_of_be(b[4], b[5]),
        ClientMessage::ClientCutText(s) => b[0] == CLIENT_MSG_CLIENT_CUT_TEXT && encode_utf8(s@) == b.subrange(
            8,
            8 + cut_len(b) as int,
        ),
    }
}

fn be_u16_at(b: &[u8], o: usize) -> (r: u16)
    requires
        o + 2 <= b@.len(),
    ensures
        r == u16_of_be(b@[o as int], b@[o + 1]),
{
    b[o] as u16 * 256 + b[o + 1] as u16
}

fn be_u32_at(b: &[u8], o: usize) -> (r: u32)
    requires
        o + 4 <= b@.len(),
    ensures
        r == u32_of_be(b@[o as int], b@[o + 1], b@[o + 2], b@[o + 3]),
{
    b[o] as u32 * 0x100_0000 + b[o + 1] as u32 * 0x1_0000 + b[o + 2] as u32 * 256 + b[o + 3] as u32
}

fn be_i32_at(b: &[u8], o: usize) -> (r: i32)
    requires
        o + 4 <= b@.len(),
    ensures
        r == i32_of_be(b@[o as int], b@[o + 1], b@[o + 2], b@[o + 3]),
{
    let u = be_u32_at(b, o);
    if u < 0x8000_0000 {
        u as i32
    } else {
        (u as i64 - 0x1_0000_0000i64) as i32
    }
}

/// Reads the message at the start of `buf`. An unknown type, and clipboard
/// text longer than 10 MiB (told as soon as the length is there), end the
/// connection; a message not whole yet leaves the bytes for later.
pub fn parse_client_message(buf: &[u8]) -> (r: ParseOutcome)
    ensures
        buf@.len() == 0 ==> r is Incomplete,
        buf@.len() > 0 && !known_type(buf@[0]) ==> r is Fatal,
        buf@.len() >= 8 && buf@[0] == CLIENT_MSG_CLIENT_CUT_TEXT && cut_len(buf@) > MAX_CUT_TEXT ==> r is Fatal,
        r is Fatal ==> buf@.len() > 0 && (!known_type(buf@[0]) || (buf@.len() >= 8 && buf@[0] == CLIENT_MSG_CLIENT_CUT_TEXT
            && cut_len(buf@) > MAX_CUT_TEXT)),
        buf@.len() > 0 && known_type(buf@[0]) && !(buf@.len() >= 8 && buf@[0] == CLIENT_MSG_CLIENT_CUT_TEXT && cut_len(buf@)
            > MAX_CUT_TEXT) ==> (r is Incomplete <==> buf@.len() < message_len(buf@)),
        r matches ParseOutcome::Parsed(m, n) ==> n == message_len(buf@) && n <= buf@.len() && message_matches(m, buf@),
        r matches ParseOutcome::Ignored(n) ==> n == message_len(buf@) && n <= buf@.len() && buf@[0] == CLIENT_MSG_CLIENT_CUT_TEXT
            && !valid_utf8(buf@.subrange(8, n as int)),
{
    if buf.len() == 0 {
        return ParseOutcome::Incomplete;
    }
    let t = buf[0];
    if t == CLIENT_MSG_SET_PIXEL_FORMAT {
        if buf.len() < 20 {
            return ParseOutcome::Incomplete;
        }
        let pf = match PixelFormat::from_bytes(crate::translate::slice_range(buf, 4, 20)) {
            Ok(pf) => pf,
            Err(e) => {
                return ParseOutcome::Fatal(e);
            },
        };
        ParseOutcome::Parsed(ClientMessage::SetPixelFormat(pf), 20)
    } else if t == CLIENT_MSG_SET_ENCODINGS {
        if buf.len() < 4 {
            return ParseOutcome::Incomplete;
        }
        let count = be_u16_at(buf, 2) as usize;
        if buf.len() < 4 + 4 * count {
            return ParseOutcome::Incomplete;
        }
        let mut list: Vec<i32> = Vec::new();
        let mut k: usize = 0;
        while k < count
            invariant
                4 + 4 * count <= buf@.len(),
                count == u16_of_be(buf@[2], buf@[3]),
                k <= count,
                list@ == Seq::new(k as nat, |j: int| i32_of_be(buf@[4 + 4 * j], buf@[5 + 4 * j], buf@[6 + 4 * j], buf@[7 + 4 * j])),
            decreases count - k,
        {
            list.push(be_i32_at(buf, 4 + 4 * k));
            k += 1;
            assert(list@ =~= Seq::new(k as nat, |j: int| i32_of_be(buf@[4 + 4 * j], buf@[5 + 4 * j], buf@[6 + 4 * j], buf@[7 + 4 * j])));
        }
        ParseOutcome::Parsed(ClientMessage::SetEncodings(list), 4 + 4 * count)
    } else if t == CLIENT_MSG_FRAMEBUFFER_UPDATE_REQUEST {
        if buf.len() < 10 {
            return ParseOutcome::Incomplete;
        }
        ParseOutcome::Parsed(
            ClientMessage::FramebufferUpdateRequest {
                incremental: buf[1] != 0,
                x: be_u16_at(buf, 2),
                y: be_u16_at(buf, 4),
                width: be_u16_at(buf, 6),
                height: be_u16_at(buf, 8),
            },
            10,
        )
    } else if t == CLIENT_MSG_KEY_EVENT {
        if buf.len() < 8 {
            return ParseOutcome::Incomplete;
        }
        ParseOutcome::Parsed(ClientMessage::KeyEvent { down: buf[1] != 0, key: be_u32_at(buf, 4) }, 8)
    } else if t == CLIENT_MSG_POINTER_EVENT {
        if buf.len() < 6 {
            return ParseOutcome::Incomplete;
        }
        ParseOutcome::Parsed(ClientMessage::PointerEvent { button_mask: buf[1], x: be_u16_at(buf, 2), y: be_u16_at(buf, 4) }, 6)
    } else if t == CLIENT_MSG_CLIENT_CUT_TEXT {
        if buf.len() < 8 {
            return ParseOutcome::Incomplete;
        }
        let length = be_u32_at(buf, 4) as usize;
        if length > MAX_CUT_TEXT {
            return ParseOutcome::Fatal(VncError::Protocol(String::new()));
        }
        if buf.len() < 8 + length {
            return ParseOutcome::Incomplete;
        }
        let mut bytes: Vec<u8> = Vec::new();
        put_slice(&mut bytes, crate::translate::slice_range(buf, 8, 8 + length));
        match utf8_string(bytes) {
            Some(s) => ParseOutcome::Parsed(ClientMessage::ClientCutText(s), 8 + length),
            None => ParseOutcome::Ignored(8 + length),
        }
    } else {
        ParseOutcome::Fatal(VncError::Protocol(String::new()))
    }
}

// ---------------------------------------------------------------------------
// Connection state
// ---------------------------------------------------------------------------

/// The JPEG quality of each quality level, 0 to 9.
pub open spec fn jpeg_quality_of(level: int) -> u8 {
    if level == 0 {
        15
    } else if level == 1 {
        29
    } else if level == 2 {
        41
    } else if level == 3 {
        42
    } else if level == 4 {
        62
    } else if level == 5 {
        77
    } else if level == 6 {
        79
    } else if level == 7 {
        86
    } else if level == 8 {
        92
    } else {
        100
    }
}

fn jpeg_quality_for(level: i32) -> (r: u8)
    requires
        0 <= level <= 9,
    ensures
        r == jpeg_quality_of(level as int),
{
    if level == 0 {
        15
    } else if level == 1 {
        29
    } else if level == 2 {
        41
    } else if level == 3 {
        42
    } else if level == 4 {
        62
    } else if level == 5 {
        77
    } else if level == 6 {
        79
    } else if level == 7 {
        86
    } else if level == 8 {
        92
    } else {
        100
    }
}

/// The JPEG quality after the viewer's encoding list: the last quality
/// pseudo-encoding in it decides, else it stays `q`.
pub open spec fn quality_after(list: Seq<i32>, q: u8) -> u8
    decreases list.len(),
{
    if list.len() == 0 {
        q
    } else {
        let e = list.last();
        if ENCODING_QUALITY_LEVEL_0 <= e <= ENCODING_QUALITY_LEVEL_9 {
            jpeg_quality_of(e - ENCODING_QUALITY_LEVEL_0)
        } else {
            quality_after(list.drop_last(), q)
        }
    }
}

/// The compression level after the viewer's encoding list: the last
/// compression pseudo-encoding in it decides, else it stays `c`.
pub open spec fn compression_after(list: Seq<i32>, c: u8) -> u8
    decreases list.len(),
{
    if list.len() == 0 {
        c
    } else {
        let e = list.last();
        if ENCODING_COMPRESS_LEVEL_0 <= e <= ENCODING_COMPRESS_LEVEL_9 {
            (e - ENCODING_COMPRESS_LEVEL_0) as u8
        } else {
            compression_after(list.drop_last(), c)
        }
    }
}

proof fn lemma_compression_after_bound(list: Seq<i32>, c: u8)
    requires
        c <= 9,
    ensures
        compression_after(list, c) <= 9,
    decreases list.len(),
{
    if list.len() > 0 {
        lemma_compression_after_bound(list.drop_last(), c);
    }
}

/// The state of one connection.
pub struct ClientState {
    /// What the viewer expects on the wire.
    pub pixel_format: PixelFormat,
    /// The viewer's encodings, most preferred first.
    pub encodings: Vec<i32>,
    /// JPEG quality, from the quality pseudo-encodings.
    pub jpeg_quality: u8,
    /// Compression level 0 to 9, from the compression pseudo-encodings.
    pub compression_level: u8,
    /// Updates are sent as regions get dirty.
    pub continuous_updates: bool,
    /// Regions changed since the viewer saw them.
    pub modified_regions: Vec<DirtyRegion>,
    /// The region the viewer asked about last.
    pub requested_region: Option<DirtyRegion>,
    /// Destinations of pending copies.
    pub copy_region: Vec<DirtyRegion>,
    /// The offset from each copy destination to its source.
    pub copy_offset: Option<(i16, i16)>,
    /// When the current batch began (nanoseconds), 0 when none is waiting.
    pub start_deferring_nanos: u64,
    /// When the last update went out (nanoseconds).
    pub last_update_sent_nanos: u64,
    /// The Zlib stream, made on first use.
    pub zlib_stream: Option<flate2::Compress>,
    /// The ZlibHex stream, made on first use.
    pub zlibhex_stream: Option<flate2::Compress>,
    /// The ZRLE and ZYWRLE stream, made on first use.
    pub zrle_stream: Option<flate2::Compress>,
}

impl ClientState {
    /// The state holds together: the format can be produced, the compression
    /// level is 0 to 9, and pending copies have an offset.
    pub open spec fn wf(&self) -> bool {
        &&& shifts_fit(self.pixel_format)
        &&& self.compression_level <= 9
        &&& (self.copy_region@.len() > 0 ==> self.copy_offset is Some)
    }

    /// A fresh connection: RGBA32, Raw only, quality 80, compression 6,
    /// nothing dirty or requested.
    pub fn new() -> (r: Self)
        ensures
            r.wf(),
            r.pixel_format == PixelFormat::rgba32_spec(),
            r.encodings@ == seq![ENCODING_RAW],
            r.jpeg_quality == 80,
            r.compression_level == 6,
            !r.continuous_updates,
            r.modified_regions@.len() == 0,
            r.requested_region is None,
            r.copy_region@.len() == 0,
            r.copy_offset is None,
            r.start_deferring_nanos == 0,
            r.last_update_sent_nanos == 0,
    {
        let mut encodings: Vec<i32> = Vec::new();
        encodings.push(ENCODING_RAW);
        assert(encodings@ =~= seq![ENCODING_RAW]);
        ClientState {
            pixel_format: PixelFormat::rgba32(),
            encodings,
            jpeg_quality: 80,
            compression_level: 6,
            continuous_updates: false,
            modified_regions: Vec::new(),
            requested_region: None,
            copy_region: Vec::new(),
            copy_offset: None,
            start_deferring_nanos: 0,
            last_update_sent_nanos: 0,
            zlib_stream: None,
            zlibhex_stream: None,
            zrle_stream: None,
        }
    }

    /// Records a region the framebuffer changed.
    pub fn push_modified(&mut self, region: DirtyRegion)
        requires
            old(self).wf(),
        ensures
            final(self).wf(),
            final(self).modified_regions@ == old(self).modified_regions@.push(region),
            final(self).copy_region@ == old(self).copy_region@,
            final(self).copy_offset == old(self).copy_offset,
    {
        self.modified_regions.push(region);
    }

    /// Schedules a copy to `region` from `region` moved by (`dx`, `dy`). A
    /// pending copy with another offset is sent as modified instead.
    pub fn schedule_copy_region(&mut self, region: DirtyRegion, dx: i16, dy: i16)
        requires
            old(self).wf(),
        ensures
            final(self).wf(),
            final(self).copy_offset == Some((dx, dy)),
            (old(self).copy_offset matches Some(o) && o != (dx, dy)) ==> final(self).modified_regions@
                == old(self).modified_regions@ + old(self).copy_region@ && final(self).copy_region@ == seq![region],
            !(old(self).copy_offset matches Some(o) && o != (dx, dy)) ==> final(self).modified_regions@
                == old(self).modified_regions@ && final(self).copy_region@ == old(self).copy_region@.push(region),
    {
        let differs = match self.copy_offset {
            Some(o) => o.0 != dx || o.1 != dy,
            None => false,
        };
        if differs {
            let mut moved: Vec<DirtyRegion> = Vec::new();
            std::mem::swap(&mut moved, &mut self.copy_region);
            self.modified_regions.append(&mut moved);
        }
        self.copy_region.push(region);
        self.copy_offset = Some((dx, dy));
        proof {
            if differs {
                assert(self.copy_region@ =~= seq![region]);
            }
        }
    }

    /// Applies one message from the viewer at time `now`. An invalid pixel
    /// format ends the connection; input messages come back as events.
    pub fn handle_message(&mut self, msg: ClientMessage, now: u64) -> (r: Result<Option<ClientEvent>, VncError>)
        requires
            old(self).wf(),
        ensures
            final(self).wf(),
            r is Err ==> *final(self) == *old(self),
            msg matches ClientMessage::SetPixelFormat(pf) ==> ((r is Err <==> !(pf.valid_spec() && shifts_fit(pf)))
                && (r is Ok ==> final(self).pixel_format == pf && r == Ok::<Option<ClientEvent>, VncError>(None))),
            msg matches ClientMessage::SetEncodings(list) ==> r == Ok::<Option<ClientEvent>, VncError>(None)
                && final(self).encodings@ == list@ && final(self).jpeg_quality == quality_after(list@, old(self).jpeg_quality)
                && final(self).compression_level == compression_after(list@, old(self).compression_level),
            msg matches ClientMessage::FramebufferUpdateRequest { incremental, x, y, width, height } ==> {
                let req = DirtyRegion { x, y, width, height };
                &&& r == Ok::<Option<ClientEvent>, VncError>(None)
                &&& final(self).requested_region == Some(req)
                &&& final(self).continuous_updates
                &&& !incremental ==> final(self).modified_regions@ == seq![req]
                &&& incremental ==> final(self).modified_regions@ == old(self).modified_regions@
                &&& final(self).start_deferring_nanos == if old(self).start_deferring_nanos == 0
                    && final(self).modified_regions@.len() > 0 { now } else { old(self).start_deferring_nanos }
            },
            msg matches ClientMessage::KeyEvent { down, key } ==> r matches Ok(Some(ClientEvent::KeyPress { down: d, key: k }))
                && d == down && k == key,
            msg matches ClientMessage::PointerEvent { button_mask, x, y } ==> r matches Ok(
                Some(ClientEvent::PointerMove { x: px, y: py, button_mask: b }),
            ) && px == x && py == y && b == button_mask,
            msg matches ClientMessage::ClientCutText(s) ==> r matches Ok(Some(ClientEvent::CutText { text })) && text@ == s@,
    {
        match msg {
            ClientMessage::SetPixelFormat(pf) => {
                if !pf.is_valid() || pf.red_shift >= 32 || pf.green_shift >= 32 || pf.blue_shift >= 32 {
                    return Err(VncError::InvalidPixelFormat);
                }
                self.pixel_format = pf;
                Ok(None)
            },
            ClientMessage::SetEncodings(list) => {
                let mut q = self.jpeg_quality;
                let mut c = self.compression_level;
                let mut k: usize = 0;
                while k < list.len()
                    invariant
                        k <= list@.len(),
                        old(self).compression_level <= 9,
                        c <= 9,
                        q == quality_after(list@.subrange(0, k as int), old(self).jpeg_quality),
                        c == compression_after(list@.subrange(0, k as int), old(self).compression_level),
                    decreases list@.len() - k,
                {
                    let e = list[k];
                    assert(list@.subrange(0, k + 1).drop_last() =~= list@.subrange(0, k as int));
                    if ENCODING_QUALITY_LEVEL_0 <= e && e <= ENCODING_QUALITY_LEVEL_9 {
                        q = jpeg_quality_for(e - ENCODING_QUALITY_LEVEL_0);
                    }
                    if ENCODING_COMPRESS_LEVEL_0 <= e && e <= ENCODING_COMPRESS_LEVEL_9 {
                        c = (e - ENCODING_COMPRESS_LEVEL_0) as u8;
                    }
                    k += 1;
                }
                assert(list@.subrange(0, list@.len() as int) =~= list@);
                self.jpeg_quality = q;
                self.compression_level = c;
                self.encodings = list;
                Ok(None)
            },
            ClientMessage::FramebufferUpdateRequest { incremental, x, y, width, height } => {
                let req = DirtyRegion { x, y, width, height };
                self.requested_region = Some(req);
                self.continuous_updates = true;
                if !incremental {
                    self.modified_regions.clear();
                    self.modified_regions.push(req);
                    assert(self.modified_regions@ =~= seq![req]);
                }
                if self.modified_regions.len() > 0 && self.start_deferring_nanos == 0 {
                    self.start_deferring_nanos = now;
                }
                Ok(None)
            },
            ClientMessage::KeyEvent { down, key } => Ok(Some(ClientEvent::KeyPress { down, key })),
            ClientMessage::PointerEvent { button_mask, x, y } => Ok(Some(ClientEvent::PointerMove { x, y, button_mask })),
            ClientMessage::ClientCutText(text) => Ok(Some(ClientEvent::CutText { text })),
        }
    }

    /// The periodic check at time `now`: with updates on and regions dirty,
    /// starts the deferral if none runs, and says whether an update is due (5
    /// ms of deferral and 33 ms since the last update).
    pub fn tick(&mut self, now: u64) -> (r: bool)
        requires
            old(self).wf(),
        ensures
            final(self).wf(),
            final(self).modified_regions@ == old(self).modified_regions@,
            final(self).copy_region@ == old(self).copy_region@,
            r <==> (old(self).continuous_updates && old(self).modified_regions@.len() > 0 && old(self).start_deferring_nanos
                != 0 && now >= old(self).start_deferring_nanos + DEFER_UPDATE_NANOS && now >= old(self).last_update_sent_nanos
                + MIN_UPDATE_INTERVAL_NANOS),
            final(self).start_deferring_nanos == if old(self).continuous_updates && old(self).modified_regions@.len() > 0
                && old(self).start_deferring_nanos == 0 { now } else { old(self).start_deferring_nanos },
    {
        if !self.continuous_updates || self.modified_regions.len() == 0 {
            return false;
        }
        if self.start_deferring_nanos == 0 {
            self.start_deferring_nanos = now;
            return false;
        }
        now as u128 >= self.start_deferring_nanos as u128 + DEFER_UPDATE_NANOS as u128 && now as u128
            >= self.last_update_sent_nanos as u128 + MIN_UPDATE_INTERVAL_NANOS as u128
    }

    /// Records that an update went out at `now`: the deferral ends.
    pub fn finish_update(&mut self, now: u64)
        requires
            old(self).wf(),
        ensures
            final(self).wf(),
            final(self).start_deferring_nanos == 0,
            final(self).last_update_sent_nanos == now,
            final(self).modified_regions@ == old(self).modified_regions@,
    {
        self.start_deferring_nanos = 0;
        self.last_update_sent_nanos = now;
    }
}


// ---------------------------------------------------------------------------
// Updates
// ---------------------------------------------------------------------------

/// Taking from a queue in order, at most `cap` regions: each region is taken
/// clipped to the request when it meets it (whole when there is no request),
/// and kept when it does not or the cap is reached. The taken and the kept.
pub open spec fn drain_spec(q: Seq<DirtyRegion>, req: Option<DirtyRegion>, cap: nat) -> (Seq<DirtyRegion>, Seq<DirtyRegion>)
    decreases q.len(),
{
    if q.len() == 0 {
        (seq![], seq![])
    } else {
        let prev = drain_spec(q.drop_last(), req, cap);
        let r = q.last();
        if prev.0.len() >= cap {
            (prev.0, prev.1.push(r))
        } else {
            match req {
                None => (prev.0.push(r), prev.1),
                Some(rq) => match r.intersect_spec(&rq) {
                    Some(i) => (prev.0.push(i), prev.1),
                    None => (prev.0, prev.1.push(r)),
                },
            }
        }
    }
}

proof fn lemma_drain_cap(q: Seq<DirtyRegion>, req: Option<DirtyRegion>, cap: nat)
    ensures
        drain_spec(q, req, cap).0.len() <= cap,
        drain_spec(q, req, cap).0.len() <= q.len(),
    decreases q.len(),
{
    if q.len() > 0 {
        lemma_drain_cap(q.drop_last(), req, cap);
    }
}

/// Takes regions from `q` as `drain_spec` says.
fn drain_regions(q: &mut Vec<DirtyRegion>, req: Option<DirtyRegion>, cap: usize) -> (taken: Vec<DirtyRegion>)
    ensures
        (taken@, final(q)@) == drain_spec(old(q)@, req, cap as nat),
{
    let mut src: Vec<DirtyRegion> = Vec::new();
    std::mem::swap(&mut src, q);
    let mut taken: Vec<DirtyRegion> = Vec::new();
    let mut i: usize = 0;
    while i < src.len()
        invariant
            src@ == old(q)@,
            i <= src@.len(),
            (taken@, q@) == drain_spec(src@.subrange(0, i as int), req, cap as nat),
        decreases src@.len() - i,
    {
        let r = src[i];
        assert(src@.subrange(0, i + 1).drop_last() =~= src@.subrange(0, i as int));
        if taken.len() >= cap {
            q.push(r);
        } else {
            match req {
                None => {
                    taken.push(r);
                },
                Some(rq) => match r.intersect(&rq) {
                    Some(c) => {
                        taken.push(c);
                    },
                    None => {
                        q.push(r);
                    },
                },
            }
        }
        i += 1;
    }
    assert(src@.subrange(0, src@.len() as int) =~= src@);
    taken
}

/// The regions one update sends.
pub struct UpdatePlan {
    /// Copy destinations, clipped to the request.
    pub copies: Vec<DirtyRegion>,
    /// The offset from each copy destination to its source.
    pub offset: Option<(i16, i16)>,
    /// Modified regions, clipped to the request.
    pub modified: Vec<DirtyRegion>,
}

impl ClientState {
    /// Takes what the next update sends: first the pending copies, then the
    /// modified regions, at most 50 in all, each clipped to the requested
    /// region; what does not meet the request stays queued.
    pub fn take_update(&mut self) -> (plan: UpdatePlan)
        requires
            old(self).wf(),
        ensures
            final(self).wf(),
            (plan.copies@, final(self).copy_region@) == drain_spec(old(self).copy_region@, old(self).requested_region, MAX_RECTS_PER_UPDATE as nat),
            (plan.modified@, final(self).modified_regions@) == drain_spec(
                old(self).modified_regions@,
                old(self).requested_region,
                (MAX_RECTS_PER_UPDATE - plan.copies@.len()) as nat,
            ),
            plan.copies@.len() + plan.modified@.len() <= MAX_RECTS_PER_UPDATE,
            plan.offset == old(self).copy_offset,
            plan.copies@.len() > 0 ==> plan.offset is Some,
            final(self).copy_offset == if final(self).copy_region@.len() == 0 { None } else { old(self).copy_offset },
            final(self).pixel_format == old(self).pixel_format,
            final(self).encodings@ == old(self).encodings@,
            final(self).compression_level == old(self).compression_level,
            final(self).jpeg_quality == old(self).jpeg_quality,
    {
        let req = self.requested_region;
        let offset = self.copy_offset;
        let copies = drain_regions(&mut self.copy_region, req, MAX_RECTS_PER_UPDATE);
        proof {
            lemma_drain_cap(old(self).copy_region@, req, MAX_RECTS_PER_UPDATE as nat);
        }
        if self.copy_region.len() == 0 {
            self.copy_offset = None;
        }
        let modified = drain_regions(&mut self.modified_regions, req, MAX_RECTS_PER_UPDATE - copies.len());
        proof {
            lemma_drain_cap(old(self).modified_regions@, req, (MAX_RECTS_PER_UPDATE - copies@.len()) as nat);
            if copies@.len() > 0 {
                assert(old(self).copy_region@.len() > 0);
            }
        }
        UpdatePlan { copies, offset, modified }
    }
}

/// The encoding an update uses: the first of Tight, TightPng, ZRLE, ZYWRLE,
/// ZlibHex, Zlib and Hextile that the viewer lists, else Raw.
pub open spec fn preferred_encoding(list: Seq<i32>) -> i32 {
    if list.contains(ENCODING_TIGHT) {
        ENCODING_TIGHT
    } else if list.contains(ENCODING_TIGHTPNG) {
        ENCODING_TIGHTPNG
    } else if list.contains(ENCODING_ZRLE) {
        ENCODING_ZRLE
    } else if list.contains(ENCODING_ZYWRLE) {
        ENCODING_ZYWRLE
    } else if list.contains(ENCODING_ZLIBHEX) {
        ENCODING_ZLIBHEX
    } else if list.contains(ENCODING_ZLIB) {
        ENCODING_ZLIB
    } else if list.contains(ENCODING_HEXTILE) {
        ENCODING_HEXTILE
    } else {
        ENCODING_RAW
    }
}

/// The ZYWRLE level of a JPEG quality: 3 below 42, 2 below 79, else 1.
pub open spec fn zywrle_level_of(quality: u8) -> u8 {
    if quality < 42 {
        3
    } else if quality < 79 {
        2
    } else {
        1
    }
}

fn contains_i32(v: &[i32], e: i32) -> (r: bool)
    ensures
        r == v@.contains(e),
{
    let mut i: usize = 0;
    while i < v.len()
        invariant
            i <= v@.len(),
            forall|j: int| 0 <= j < i ==> v@[j] != e,
        decreases v@.len() - i,
    {
        if v[i] == e {
            assert(v@[i as int] == e);
            return true;
        }
        i += 1;
    }
    false
}

/// Picks the encoding for an update from the viewer's list, with the ZYWRLE
/// level that the JPEG quality gives.
pub fn choose_encoding(encodings: &[i32], jpeg_quality: u8) -> (r: (i32, u8))
    ensures
        r.0 == preferred_encoding(encodings@),
        r.1 == zywrle_level_of(jpeg_quality),
{
    let level: u8 = if jpeg_quality < 42 { 3 } else if jpeg_quality < 79 { 2 } else { 1 };
    let e = if contains_i32(encodings, ENCODING_TIGHT) {
        ENCODING_TIGHT
    } else if contains_i32(encodings, ENCODING_TIGHTPNG) {
        ENCODING_TIGHTPNG
    } else if contains_i32(encodings, ENCODING_ZRLE) {
        ENCODING_ZRLE
    } else if contains_i32(encodings, ENCODING_ZYWRLE) {
        ENCODING_ZYWRLE
    } else if contains_i32(encodings, ENCODING_ZLIBHEX) {
        ENCODING_ZLIBHEX
    } else if contains_i32(encodings, ENCODING_ZLIB) {
        ENCODING_ZLIB
    } else if contains_i32(encodings, ENCODING_HEXTILE) {
        ENCODING_HEXTILE
    } else {
        ENCODING_RAW
    };
    (e, level)
}

/// The 16 bytes of a CopyRect rectangle: its header and the source position,
/// the destination moved by the offset.
pub open spec fn copy_rect_wire(r: DirtyRegion, dx: i16, dy: i16) -> Seq<u8> {
    (Rectangle { x: r.x, y: r.y, width: r.width, height: r.height, encoding: ENCODING_COPYRECT }).header() + be16(
        (r.x + dx) as u16,
    ) + be16((r.y + dy) as u16)
}

/// The CopyRect rectangles of a list of destinations.
pub open spec fn copy_rects_wire(rs: Seq<DirtyRegion>, dx: i16, dy: i16) -> Seq<u8>
    decreases rs.len(),
{
    if rs.len() == 0 {
        seq![]
    } else {
        copy_rects_wire(rs.drop_last(), dx, dy) + copy_rect_wire(rs.last(), dx, dy)
    }
}

/// A rectangle sent with its encoding and body.
pub struct EncodedRect {
    /// The rectangle header.
    pub rect: Rectangle,
    /// The bytes after the header.
    pub body: Vec<u8>,
}

/// The header of a rectangle covering `region` in encoding `e`.
pub open spec fn region_header(region: DirtyRegion, e: i32) -> Rectangle {
    Rectangle { x: region.x, y: region.y, width: region.width, height: region.height, encoding: e }
}

/// The region lies inside the framebuffer.
pub open spec fn region_inside(fb: Framebuffer, region: DirtyRegion) -> bool {
    region.x + region.width <= fb.spec_width() && region.y + region.height <= fb.spec_height()
}

/// The region's pixels in the viewer's format `pf`: RGBA32 with the padding
/// byte zeroed, or translated.
pub open spec fn region_base(pf: PixelFormat, fb: Framebuffer, region: DirtyRegion) -> Seq<u8> {
    let rb = fb.rect_bytes(region.x as int, region.y as int, region.width as nat, region.height as nat);
    if pf.is_rgba32_spec() {
        raw_spec(rb)
    } else {
        translate_spec(rb, PixelFormat::rgba32_spec(), pf)
    }
}

/// `out` is what a region is sent as in `encoding`: nothing outside the
/// framebuffer; for Tight, one rectangle per piece, each with the piece's
/// body; for TightPng and Hextile, one rectangle with that encoding's body;
/// for Zlib, ZlibHex, ZRLE and ZYWRLE, one rectangle with a length-framed
/// stream, or Raw when the stream fails; otherwise, and for viewers whose
/// format is not RGBA32 (but for Zlib), one Raw rectangle.
pub open spec fn region_out_ok(
    pf: PixelFormat,
    quality: u8,
    compression: u8,
    fb: Framebuffer,
    region: DirtyRegion,
    encoding: i32,
    out: Seq<EncodedRect>,
) -> bool {
    let base = region_base(pf, fb, region);
    let w = region.width;
    let h = region.height;
    let raw_one = out.len() == 1 && out[0].rect == region_header(region, ENCODING_RAW) && out[0].body@ == base;
    let framed_one = out.len() == 1 && out[0].rect == region_header(region, encoding) && is_framed(out[0].body@);
    if !region_inside(fb, region) {
        out.len() == 0
    } else if encoding == ENCODING_ZLIB {
        framed_one || raw_one
    } else if encoding == ENCODING_RAW || !pf.is_rgba32_spec() {
        raw_one
    } else if encoding == ENCODING_TIGHT {
        exists|ps: Seq<(Rect, Vec<u8>)>|
            {
                &&& tiles_rect(piece_rects(ps), whole_rect(w, h))
                &&& pieces_ok(ps, rgb24_pixels(base), w as nat, h as nat, quality, normalized_level(compression, quality))
                &&& out.len() == ps.len()
                &&& forall|k: int|
                    0 <= k < ps.len() ==> (#[trigger] out[k]).rect == (Rectangle {
                        x: (region.x + ps[k].0.x) as u16,
                        y: (region.y + ps[k].0.y) as u16,
                        width: ps[k].0.w,
                        height: ps[k].0.h,
                        encoding: ENCODING_TIGHT,
                    }) && out[k].body@ == ps[k].1@
            }
    } else if encoding == ENCODING_TIGHTPNG {
        &&& out.len() == 1
        &&& out[0].rect == region_header(region, ENCODING_TIGHTPNG)
        &&& (out[0].body@ == tightpng_body(base, w, h, compression) || out[0].body@ == seq![0u8] + raw_spec(base))
        &&& (w > 0 && h > 0 ==> out[0].body@ == tightpng_body(base, w, h, compression))
    } else if encoding == ENCODING_HEXTILE {
        &&& out.len() == 1
        &&& out[0].rect == region_header(region, ENCODING_HEXTILE)
        &&& exists|ts: Seq<HexTile>| hextile_ok(ts, rgb24_pixels(base), w as nat, h as nat) && out[0].body@ == #[trigger] hex_wire(ts)
    } else if encoding == ENCODING_ZLIBHEX || encoding == ENCODING_ZRLE || encoding == ENCODING_ZYWRLE {
        framed_one || raw_one
    } else {
        raw_one
    }
}

impl ClientState {
    /// Encodes one modified region of the framebuffer. Nothing when the
    /// region reaches outside the framebuffer; otherwise the pixels in the
    /// viewer's format, in `encoding` when that can be produced (Raw and Zlib
    /// for any format, the others for RGBA32 viewers), else Raw; Tight may
    /// cut the region into several rectangles.
    pub fn encode_region(&mut self, fb: &Framebuffer, region: DirtyRegion, encoding: i32, zywrle_level: u8) -> (out: Vec<EncodedRect>)
        requires
            old(self).wf(),
            fb.wf(),
            1 <= zywrle_level <= 3,
        ensures
            final(self).wf(),
            final(self).pixel_format == old(self).pixel_format,
            final(self).modified_regions@ == old(self).modified_regions@,
            final(self).copy_region@ == old(self).copy_region@,
            final(self).copy_offset == old(self).copy_offset,
            final(self).encodings@ == old(self).encodings@,
            final(self).compression_level == old(self).compression_level,
            final(self).jpeg_quality == old(self).jpeg_quality,
            (region.x + region.width > fb.spec_width() || region.y + region.height > fb.spec_height()) ==> out@.len() == 0,
            !(region.x + region.width > fb.spec_width() || region.y + region.height > fb.spec_height()) && region.width >= 1
                && region.height >= 1 ==> out@.len() >= 1,
            encoding != ENCODING_TIGHT ==> out@.len() <= 1,
            forall|k: int| 0 <= k < out@.len() ==> {
                let rc = #[trigger] out@[k].rect;
                encoding != ENCODING_TIGHT ==> rc.x == region.x && rc.y == region.y && rc.width == region.width && rc.height
                    == region.height
            },
            region_out_ok(
                old(self).pixel_format,
                old(self).jpeg_quality,
                old(self).compression_level,
                *fb,
                region,
                encoding,
                out@,
            ),
            encoding == ENCODING_RAW && out@.len() >= 1 ==> out@.len() == 1 && out@[0].rect.encoding == ENCODING_RAW
                && out@[0].body@ == (if old(self).pixel_format.is_rgba32_spec() {
                raw_spec(fb.rect_bytes(region.x as int, region.y as int, region.width as nat, region.height as nat))
            } else {
                translate_spec(
                    fb.rect_bytes(region.x as int, region.y as int, region.width as nat, region.height as nat),
                    PixelFormat::rgba32_spec(),
                    old(self).pixel_format,
                )
            }),
    {
        let pixel_data = match fb.get_rect(region.x, region.y, region.width, region.height) {
            Ok(d) => d,
            Err(_) => {
                return Vec::new();
            },
        };
        let w = region.width;
        let h = region.height;
        let compatible = self.pixel_format.is_compatible_with_rgba32();
        let server_format = PixelFormat::rgba32();
        assert(pixel_data@.len() % 4 == 0) by (nonlinear_arith)
            requires pixel_data@.len() == w as nat * h as nat * 4;
        let base = if compatible {
            raw_pixels(pixel_data.as_slice())
        } else {
            translate_pixels(pixel_data.as_slice(), &server_format, &self.pixel_format)
        };
        proof {
            if compatible {
                assert(base@.len() == w as nat * h as nat * 4) by (nonlinear_arith)
                    requires base@.len() == pixel_data@.len() / 4 * 4, pixel_data@.len() == w as nat * h as nat * 4;
            }
        }
        assert(base@ == region_base(self.pixel_format, *fb, region));
        assert(region_inside(*fb, region));
        let mut out: Vec<EncodedRect> = Vec::new();
        let raw_rect = Rectangle { x: region.x, y: region.y, width: w, height: h, encoding: ENCODING_RAW };
        if encoding == ENCODING_ZLIB {
            if self.zlib_stream.is_none() {
                self.zlib_stream = Some(new_stream(self.compression_level as u32));
            }
            let done = match &mut self.zlib_stream {
                Some(stream) => crate::encoding::zlib::encode_zlib_persistent(base.as_slice(), stream),
                None => Err(VncError::Encoding(String::new())),
            };
            match done {
                Ok(v) => out.push(EncodedRect { rect: Rectangle { x: region.x, y: region.y, width: w, height: h, encoding: ENCODING_ZLIB }, body: v }),
                Err(_) => out.push(EncodedRect { rect: raw_rect, body: base }),
            }
            return out;
        }
        if !compatible || encoding == ENCODING_RAW {
            out.push(EncodedRect { rect: raw_rect, body: base });
            return out;
        }
        if encoding == ENCODING_TIGHT {
            let pieces = encode_tight_rects(base.as_slice(), w, h, self.jpeg_quality, self.compression_level);
            let mut k: usize = 0;
            while k < pieces.len()
                invariant
                    k <= pieces@.len(),
                    out@.len() == k,
                    forall|j: int|
                        0 <= j < k ==> (#[trigger] out@[j]).rect == (Rectangle {
                            x: (region.x + pieces@[j].0.x) as u16,
                            y: (region.y + pieces@[j].0.y) as u16,
                            width: pieces@[j].0.w,
                            height: pieces@[j].0.h,
                            encoding: ENCODING_TIGHT,
                        }) && out@[j].body@ == pieces@[j].1@,
                decreases pieces@.len() - k,
            {
                let pr = pieces[k].0;
                let px = region.x as u32 + pr.x as u32;
                let py = region.y as u32 + pr.y as u32;
                let mut body: Vec<u8> = Vec::new();
                put_slice(&mut body, pieces[k].1.as_slice());
                out.push(EncodedRect { rect: Rectangle { x: px as u16, y: py as u16, width: pr.w, height: pr.h, encoding: ENCODING_TIGHT }, body });
                k += 1;
            }
            proof {
                if w >= 1 && h >= 1 {
                    let wr = whole_rect(w, h);
                    assert(crate::encoding::tight::rect_has(wr, 0, 0));
                    let kk = choose|kk: int| 0 <= kk < piece_rects(pieces@).len() && #[trigger] crate::encoding::tight::rect_has(piece_rects(pieces@)[kk], 0, 0);
                    assert(pieces@.len() >= 1);
                }
            }
            return out;
        }
        if encoding == ENCODING_TIGHTPNG {
            let body = encode_tightpng_png(base.as_slice(), w, h, self.compression_level);
            out.push(EncodedRect { rect: Rectangle { x: region.x, y: region.y, width: w, height: h, encoding: ENCODING_TIGHTPNG }, body });
            return out;
        }
        if encoding == ENCODING_HEXTILE {
            let enc = HextileEncoding;
            let body = enc.encode(base.as_slice(), w, h, self.jpeg_quality, self.compression_level);
            out.push(EncodedRect { rect: Rectangle { x: region.x, y: region.y, width: w, height: h, encoding: ENCODING_HEXTILE }, body });
            return out;
        }
        if encoding == ENCODING_ZLIBHEX {
            if self.zlibhex_stream.is_none() {
                self.zlibhex_stream = Some(new_stream(self.compression_level as u32));
            }
            let done = match &mut self.zlibhex_stream {
                Some(stream) => encode_zlibhex_persistent(base.as_slice(), w, h, stream),
                None => Err(VncError::Encoding(String::new())),
            };
            match done {
                Ok(v) => out.push(EncodedRect { rect: Rectangle { x: region.x, y: region.y, width: w, height: h, encoding: ENCODING_ZLIBHEX }, body: v }),
                Err(_) => out.push(EncodedRect { rect: raw_rect, body: base }),
            }
            return out;
        }
        if encoding == ENCODING_ZRLE || encoding == ENCODING_ZYWRLE {
            let source = if encoding == ENCODING_ZYWRLE {
                let mut coeff: Vec<i32> = Vec::new();
                match zywrle_analyze(pixel_data.as_slice(), w as usize, h as usize, zywrle_level as usize, &mut coeff) {
                    Some(t) => Some(raw_pixels(t.as_slice())),
                    None => None,
                }
            } else {
                Some(base.clone())
            };
            match source {
                Some(src) => {
                    proof {
                        assert(src@.len() == w as nat * h as nat * 4) by (nonlinear_arith)
                            requires src@.len() == w as nat * h as nat * 4 || src@.len() == (w as nat * h as nat * 4) / 4 * 4;
                    }
                    if self.zrle_stream.is_none() {
                        self.zrle_stream = Some(new_stream(self.compression_level as u32));
                    }
                    let pf = self.pixel_format;
                    let done = match &mut self.zrle_stream {
                        Some(stream) => encode_zrle_persistent(src.as_slice(), w, h, &pf, stream),
                        None => Err(VncError::Encoding(String::new())),
                    };
                    match done {
                        Ok(v) => out.push(EncodedRect { rect: Rectangle { x: region.x, y: region.y, width: w, height: h, encoding }, body: v }),
                        Err(_) => out.push(EncodedRect { rect: raw_rect, body: base }),
                    }
                },
                None => {
                    out.push(EncodedRect { rect: raw_rect, body: base });
                },
            }
            return out;
        }
        out.push(EncodedRect { rect: raw_rect, body: base });
        out
    }
}

/// The bytes of encoded rectangles, each header followed by its body.
pub open spec fn encoded_rects_wire(rs: Seq<EncodedRect>) -> Seq<u8>
    decreases rs.len(),
{
    if rs.len() == 0 {
        seq![]
    } else {
        encoded_rects_wire(rs.drop_last()) + rs.last().rect.header() + rs.last().body@
    }
}

/// The rectangles of the first `n` groups that an update keeps, counting
/// from `start` rectangles: a group is kept whole when the count stays
/// within 65535, else left out. The rectangles and the count.
pub open spec fn keep_groups(groups: Seq<Seq<EncodedRect>>, start: nat, n: nat) -> (Seq<EncodedRect>, nat)
    decreases n,
{
    if n == 0 || n > groups.len() {
        (seq![], start)
    } else {
        let prev = keep_groups(groups, start, (n - 1) as nat);
        let g = groups[n - 1];
        if prev.1 + g.len() <= 0xffff {
            (prev.0 + g, prev.1 + g.len())
        } else {
            prev
        }
    }
}

proof fn lemma_keep_groups_push(groups: Seq<Seq<EncodedRect>>, g: Seq<EncodedRect>, start: nat, n: nat)
    requires
        n <= groups.len(),
    ensures
        keep_groups(groups.push(g), start, n) == keep_groups(groups, start, n),
    decreases n,
{
    if n > 0 {
        lemma_keep_groups_push(groups, g, start, (n - 1) as nat);
        assert(groups.push(g)[n - 1] == groups[n - 1]);
    }
}

impl ClientState {
    /// Builds the FramebufferUpdate message of a plan: the message type, a
    /// padding byte and the rectangle count, then every copy rectangle, then
    /// the rectangles of the modified regions. Regions outside the
    /// framebuffer are left out, and so is a region whose rectangles would
    /// take the count past 65535. `None` when nothing is sent.
    pub fn build_update(&mut self, fb: &Framebuffer, plan: &UpdatePlan) -> (r: Option<Vec<u8>>)
        requires
            old(self).wf(),
            fb.wf(),
            plan.copies@.len() + plan.modified@.len() <= MAX_RECTS_PER_UPDATE,
            plan.copies@.len() > 0 ==> plan.offset is Some,
        ensures
            final(self).wf(),
            final(self).modified_regions@ == old(self).modified_regions@,
            final(self).copy_region@ == old(self).copy_region@,
            final(self).copy_offset == old(self).copy_offset,
            plan.copies@.len() == 0 && plan.modified@.len() == 0 <==> r is None,
            r matches Some(v) ==> exists|groups: Seq<Seq<EncodedRect>>| {
                let encoding = preferred_encoding(old(self).encodings@);
                let kept = #[trigger] keep_groups(groups, plan.copies@.len(), groups.len());
                let (dx, dy) = if plan.copies@.len() > 0 { plan.offset.unwrap() } else { (0i16, 0i16) };
                &&& groups.len() == plan.modified@.len()
                &&& forall|k: int|
                    0 <= k < groups.len() ==> region_out_ok(
                        old(self).pixel_format,
                        old(self).jpeg_quality,
                        old(self).compression_level,
                        *fb,
                        plan.modified@[k],
                        encoding,
                        #[trigger] groups[k],
                    )
                &&& kept.1 <= 0xffff
                &&& v@ == seq![SERVER_MSG_FRAMEBUFFER_UPDATE, 0u8] + be16(kept.1 as u16) + copy_rects_wire(plan.copies@, dx, dy)
                    + encoded_rects_wire(kept.0)
            },
    {
        if plan.copies.len() == 0 && plan.modified.len() == 0 {
            return None;
        }
        let (encoding, zywrle_level) = choose_encoding(self.encodings.as_slice(), self.jpeg_quality);
        let (dx, dy): (i16, i16) = match plan.offset {
            Some(o) => if plan.copies.len() > 0 { o } else { (0, 0) },
            None => (0, 0),
        };
        let mut copies_bytes: Vec<u8> = Vec::new();
        let mut k: usize = 0;
        while k < plan.copies.len()
            invariant
                k <= plan.copies@.len(),
                copies_bytes@ == copy_rects_wire(plan.copies@.subrange(0, k as int), dx, dy),
            decreases plan.copies@.len() - k,
        {
            let region = plan.copies[k];
            let ghost b0 = copies_bytes@;
            let rect = Rectangle { x: region.x, y: region.y, width: region.width, height: region.height, encoding: ENCODING_COPYRECT };
            rect.write_header(&mut copies_bytes);
            put_u16(&mut copies_bytes, (region.x as i32 + dx as i32) as u16);
            put_u16(&mut copies_bytes, (region.y as i32 + dy as i32) as u16);
            proof {
                assert(plan.copies@.subrange(0, k + 1).drop_last() =~= plan.copies@.subrange(0, k as int));
                assert(copies_bytes@ =~= b0 + copy_rect_wire(region, dx, dy));
            }
            k += 1;
        }
        assert(plan.copies@.subrange(0, plan.copies@.len() as int) =~= plan.copies@);
        let mut rects_bytes: Vec<u8> = Vec::new();
        let ghost mut rects: Seq<EncodedRect> = seq![];
        let ghost mut groups: Seq<Seq<EncodedRect>> = seq![];
        let mut count: usize = plan.copies.len();
        let mut m: usize = 0;
        while m < plan.modified.len()
            invariant
                encoding == preferred_encoding(old(self).encodings@),
                self.pixel_format == old(self).pixel_format,
                self.encodings@ == old(self).encodings@,
                self.jpeg_quality == old(self).jpeg_quality,
                self.compression_level == old(self).compression_level,
                groups.len() == m,
                forall|k: int|
                    0 <= k < m ==> region_out_ok(
                        old(self).pixel_format,
                        old(self).jpeg_quality,
                        old(self).compression_level,
                        *fb,
                        plan.modified@[k],
                        encoding,
                        #[trigger] groups[k],
                    ),
                keep_groups(groups, plan.copies@.len(), m as nat) == (rects, count as nat),
                self.wf(),
                fb.wf(),
                1 <= zywrle_level <= 3,
                m <= plan.modified@.len(),
                count == plan.copies@.len() + rects.len(),
                count <= 0xffff,
                rects_bytes@ == encoded_rects_wire(rects),
                self.modified_regions@ == old(self).modified_regions@,
                self.copy_region@ == old(self).copy_region@,
                self.copy_offset == old(self).copy_offset,
            decreases plan.modified@.len() - m,
        {
            let out = self.encode_region(fb, plan.modified[m], encoding, zywrle_level);
            let ghost rects0 = rects;
            let ghost c0 = count as nat;
            proof {
                let g2 = groups.push(out@);
                assert(g2.drop_last() =~= groups);
                assert forall|n: nat| n <= m implies #[trigger] keep_groups(g2, plan.copies@.len(), n) == keep_groups(groups, plan.copies@.len(), n) by {
                    lemma_keep_groups_push(groups, out@, plan.copies@.len(), n);
                }
            }
            if out.len() <= 0xffff - count {
                let mut n: usize = 0;
                while n < out.len()
                    invariant
                        n <= out@.len(),
                        rects == rects0 + out@.subrange(0, n as int),
                        count == keep_groups(groups, plan.copies@.len(), m as nat).1 + n,
                        count == plan.copies@.len() + rects.len(),
                        count + (out@.len() - n) <= 0xffff,
                        rects_bytes@ == encoded_rects_wire(rects),
                    decreases out@.len() - n,
                {
                    let ghost before = rects_bytes@;
                    out[n].rect.write_header(&mut rects_bytes);
                    put_slice(&mut rects_bytes, out[n].body.as_slice());
                    proof {
                        let rs2 = rects.push(out@[n as int]);
                        assert(rs2.drop_last() =~= rects);
                        assert(rects_bytes@ =~= encoded_rects_wire(rs2));
                        assert(rs2 =~= rects0 + out@.subrange(0, n + 1));
                        rects = rs2;
                    }
                    count += 1;
                    n += 1;
                }
                proof {
                    assert(rects =~= rects0 + out@.subrange(0, out@.len() as int));
                    assert(out@.subrange(0, out@.len() as int) =~= out@);
                }
            }
            proof {
                let g2 = groups.push(out@);
                assert(g2[m as int] == out@);
                assert(keep_groups(g2, plan.copies@.len(), m as nat) == (rects0, c0));
                assert(keep_groups(g2, plan.copies@.len(), (m + 1) as nat) == (rects, count as nat));
                groups = g2;
            }
            m += 1;
        }
        let mut msg: Vec<u8> = Vec::new();
        put_u8(&mut msg, SERVER_MSG_FRAMEBUFFER_UPDATE);
        put_u8(&mut msg, 0);
        put_u16(&mut msg, count as u16);
        put_slice(&mut msg, copies_bytes.as_slice());
        put_slice(&mut msg, rects_bytes.as_slice());
        proof {
            assert(msg@ =~= seq![SERVER_MSG_FRAMEBUFFER_UPDATE, 0u8] + be16(count as u16) + copy_rects_wire(plan.copies@, dx, dy)
                + encoded_rects_wire(rects));
        }
        Some(msg)
    }
}

/// The ServerCutText message: type, three padding bytes, the length and the
/// text.
pub fn cut_text_message(text: &str) -> (r: Vec<u8>)
    requires
        encode_utf8(text@).len() <= u32::MAX,
    ensures
        r@ == seq![SERVER_MSG_SERVER_CUT_TEXT, 0u8, 0u8, 0u8] + be32(encode_utf8(text@).len() as u32) + encode_utf8(text@),
{
    let bytes = text.as_bytes();
    let mut msg: Vec<u8> = Vec::new();
    put_u8(&mut msg, SERVER_MSG_SERVER_CUT_TEXT);
    put_u8(&mut msg, 0);
    put_u8(&mut msg, 0);
    put_u8(&mut msg, 0);
    put_u32(&mut msg, bytes.len() as u32);
    put_slice(&mut msg, bytes);
    assert(msg@ =~= seq![SERVER_MSG_SERVER_CUT_TEXT, 0u8, 0u8, 0u8] + be32(encode_utf8(text@).len() as u32) + encode_utf8(text@));
    msg
}

} // verus!
