use rustvncserver::encoding::common::{
    analyze_tile_colors, build_palette, check_solid_color, find_subrects, get_background_color,
    rgba_to_rgb24_pixels, translate_pixel_to_client_format,
};
use rustvncserver::encoding::corre::CorRreEncoding;
use rustvncserver::encoding::hextile::HextileEncoding;
use rustvncserver::encoding::raw::RawEncoding;
use rustvncserver::encoding::rre::RreEncoding;
use rustvncserver::encoding::tight::{encode_tight_rects, write_compact_length, TightEncoding};
use rustvncserver::encoding::tightpng::TightPngEncoding;
use rustvncserver::encoding::zlib::encode_zlib_persistent;
use rustvncserver::encoding::zrle::{encode_zrle_persistent, encode_zrle_tiles};
use rustvncserver::encoding::zywrle::{calc_aligned_size, harr, zywrle_analyze};
use rustvncserver::encoding::{get_encoder, EncoderKind, Encoding};
use rustvncserver::protocol::PixelFormat;

/// A test image: RGBA32 with a few colours in blocks, so that every encoder
/// has runs, subrectangles and palettes to work with.
fn image(w: usize, h: usize, colors: u32) -> Vec<u8> {
    let mut v = Vec::with_capacity(w * h * 4);
    for y in 0..h {
        for x in 0..w {
            let k = ((x / 3) * 7 + (y / 2) * 13 + (x * y) % 5) as u32 % colors;
            v.push((k * 37 % 256) as u8);
            v.push((k * 91 % 256) as u8);
            v.push((k * 53 % 256) as u8);
            v.push(0xAB);
        }
    }
    v
}

fn colors_of(data: &[u8]) -> Vec<u32> {
    data.chunks(4).map(|c| c[0] as u32 | (c[1] as u32) << 8 | (c[2] as u32) << 16).collect()
}

fn le32(b: &[u8]) -> u32 {
    u32::from_le_bytes([b[0], b[1], b[2], b[3]])
}

fn decode_rre(body: &[u8], w: usize, h: usize, wide: bool) -> Vec<u32> {
    let n = u32::from_be_bytes([body[0], body[1], body[2], body[3]]) as usize;
    let bg = le32(&body[4..8]);
    let mut out = vec![bg; w * h];
    let step = if wide { 12 } else { 8 };
    assert_eq!(body.len(), 8 + step * n);
    for k in 0..n {
        let o = 8 + step * k;
        let c = le32(&body[o..o + 4]);
        let (x, y, sw, sh) = if wide {
            let g = |i: usize| u16::from_be_bytes([body[o + 4 + 2 * i], body[o + 5 + 2 * i]]) as usize;
            (g(0), g(1), g(2), g(3))
        } else {
            (body[o + 4] as usize, body[o + 5] as usize, body[o + 6] as usize, body[o + 7] as usize)
        };
        for yy in y..y + sh {
            for xx in x..x + sw {
                out[yy * w + xx] = c;
            }
        }
    }
    out
}

fn decode_hextile(body: &[u8], w: usize, h: usize) -> Vec<u32> {
    let mut out = vec![0u32; w * h];
    let mut p = 0;
    let mut bg = 0u32;
    let mut fg = 0u32;
    for ty in (0..h).step_by(16) {
        for tx in (0..w).step_by(16) {
            let tw = (w - tx).min(16);
            let th = (h - ty).min(16);
            let mask = body[p];
            p += 1;
            if mask & 1 != 0 {
                for yy in 0..th {
                    for xx in 0..tw {
                        out[(ty + yy) * w + tx + xx] = le32(&body[p..p + 4]);
                        p += 4;
                    }
                }
                continue;
            }
            if mask & 2 != 0 {
                bg = le32(&body[p..p + 4]);
                p += 4;
            }
            if mask & 4 != 0 {
                fg = le32(&body[p..p + 4]);
                p += 4;
            }
            for yy in 0..th {
                for xx in 0..tw {
                    out[(ty + yy) * w + tx + xx] = bg;
                }
            }
            if mask & 8 != 0 {
                let n = body[p] as usize;
                p += 1;
                for _ in 0..n {
                    let c = if mask & 16 != 0 {
                        let c = le32(&body[p..p + 4]);
                        p += 4;
                        c
                    } else {
                        fg
                    };
                    let (sx, sy) = ((body[p] >> 4) as usize, (body[p] & 15) as usize);
                    let (sw, sh) = ((body[p + 1] >> 4) as usize + 1, (body[p + 1] & 15) as usize + 1);
                    p += 2;
                    for yy in sy..sy + sh {
                        for xx in sx..sx + sw {
                            out[(ty + yy) * w + tx + xx] = c;
                        }
                    }
                }
            }
        }
    }
    assert_eq!(p, body.len());
    out
}

fn run_length(body: &[u8], p: &mut usize) -> usize {
    let mut n = 1;
    loop {
        let b = body[*p];
        *p += 1;
        n += b as usize;
        if b != 255 {
            return n;
        }
    }
}

fn cpixel(body: &[u8], p: &mut usize) -> u32 {
    let c = body[*p] as u32 | (body[*p + 1] as u32) << 8 | (body[*p + 2] as u32) << 16;
    *p += 3;
    c
}

fn decode_zrle_tiles(body: &[u8], w: usize, h: usize) -> Vec<u32> {
    let mut out = vec![0u32; w * h];
    let mut p = 0;
    for ty in (0..h).step_by(64) {
        for tx in (0..w).step_by(64) {
            let tw = (w - tx).min(64);
            let th = (h - ty).min(64);
            let mut tile = Vec::with_capacity(tw * th);
            let sub = body[p];
            p += 1;
            if sub == 0 {
                for _ in 0..tw * th {
                    tile.push(cpixel(body, &mut p));
                }
            } else if sub == 1 {
                let c = cpixel(body, &mut p);
                tile = vec![c; tw * th];
            } else if sub <= 16 {
                let n = sub as usize;
                let pal: Vec<u32> = (0..n).map(|_| cpixel(body, &mut p)).collect();
                let bits = if n == 2 { 1 } else if n <= 4 { 2 } else { 4 };
                for _ in 0..th {
                    let mut nbits = 0;
                    let mut byte = 0u8;
                    for _ in 0..tw {
                        if nbits == 0 {
                            byte = body[p];
                            p += 1;
                            nbits = 8;
                        }
                        nbits -= bits;
                        tile.push(pal[((byte >> nbits) & ((1 << bits) - 1)) as usize]);
                    }
                }
            } else if sub == 128 {
                while tile.len() < tw * th {
                    let c = cpixel(body, &mut p);
                    let n = run_length(body, &mut p);
                    tile.extend(std::iter::repeat(c).take(n));
                }
            } else {
                let n = (sub - 128) as usize;
                let pal: Vec<u32> = (0..n).map(|_| cpixel(body, &mut p)).collect();
                while tile.len() < tw * th {
                    let b = body[p];
                    p += 1;
                    if b & 128 != 0 {
                        let k = run_length(body, &mut p);
                        tile.extend(std::iter::repeat(pal[(b & 127) as usize]).take(k));
                    } else {
                        tile.push(pal[b as usize]);
                    }
                }
            }
            assert_eq!(tile.len(), tw * th);
            for yy in 0..th {
                for xx in 0..tw {
                    out[(ty + yy) * w + tx + xx] = tile[yy * tw + xx];
                }
            }
        }
    }
    assert_eq!(p, body.len());
    out
}

const SIZES: [(usize, usize); 9] = [(1, 1), (16, 16), (17, 15), (64, 64), (65, 3), (40, 1), (1, 40), (100, 70), (31, 33)];

#[test]
fn raw_writes_padding_zero() {
    let data = vec![0xFF, 0x00, 0x00, 0xFF, 0x00, 0xFF, 0x00, 0xFF];
    let out = RawEncoding.encode(&data, 2, 1, 0, 0);
    assert_eq!(out, vec![0xFF, 0x00, 0x00, 0x00, 0x00, 0xFF, 0x00, 0x00]);
}

#[test]
fn rre_round_trips() {
    for &(w, h) in SIZES.iter() {
        for colors in [1u32, 2, 5, 40] {
            let data = image(w, h, colors);
            let body = RreEncoding.encode(&data, w as u16, h as u16, 0, 0);
            assert_eq!(decode_rre(&body, w, h, true), colors_of(&data), "{}x{} {}", w, h, colors);
        }
    }
}

#[test]
fn corre_round_trips_up_to_255() {
    for &(w, h) in SIZES.iter().chain([(255usize, 255usize)].iter()) {
        let data = image(w, h, 6);
        let body = CorRreEncoding.encode(&data, w as u16, h as u16, 0, 0);
        assert_eq!(decode_rre(&body, w, h, false), colors_of(&data), "{}x{}", w, h);
    }
}

#[test]
fn corre_larger_than_255_sends_background_only() {
    let data = image(256, 2, 6);
    let body = CorRreEncoding.encode(&data, 256, 2, 0, 0);
    assert_eq!(body.len(), 8);
    assert_eq!(&body[0..4], &[0, 0, 0, 0]);
}

#[test]
fn hextile_round_trips() {
    for &(w, h) in SIZES.iter() {
        for colors in [1u32, 2, 3, 9, 200] {
            let data = image(w, h, colors);
            let body = HextileEncoding.encode(&data, w as u16, h as u16, 0, 0);
            assert_eq!(decode_hextile(&body, w, h), colors_of(&data), "{}x{} {}", w, h, colors);
        }
    }
}

#[test]
fn zrle_tiles_round_trip() {
    for &(w, h) in SIZES.iter() {
        for colors in [1u32, 2, 3, 5, 17, 130, 250] {
            let data = image(w, h, colors);
            let tiles = encode_zrle_tiles(&data, w as u16, h as u16);
            assert_eq!(decode_zrle_tiles(&tiles, w, h), colors_of(&data), "{}x{} {}", w, h, colors);
        }
    }
}

#[test]
fn zrle_solid_tile() {
    let mut data = Vec::new();
    for _ in 0..64 * 64 {
        data.extend_from_slice(&[200, 100, 50, 255]);
    }
    let tiles = encode_zrle_tiles(&data, 64, 64);
    assert_eq!(tiles, vec![0x01, 0xC8, 0x64, 0x32]);
    let mut stream = flate2::Compress::new(flate2::Compression::new(6), true);
    let framed = encode_zrle_persistent(&data, 64, 64, &PixelFormat::rgba32(), &mut stream).unwrap();
    let len = u32::from_be_bytes([framed[0], framed[1], framed[2], framed[3]]) as usize;
    assert_eq!(len, framed.len() - 4);
    let mut d = flate2::Decompress::new(true);
    let mut plain = Vec::with_capacity(64);
    d.decompress_vec(&framed[4..], &mut plain, flate2::FlushDecompress::Sync).unwrap();
    assert_eq!(plain, vec![0x01, 0xC8, 0x64, 0x32]);
}

#[test]
fn zlib_frames_compressed_pixels() {
    let data = image(10, 10, 4);
    let mut stream = flate2::Compress::new(flate2::Compression::new(6), true);
    let framed = encode_zlib_persistent(&data, &mut stream).unwrap();
    let len = u32::from_be_bytes([framed[0], framed[1], framed[2], framed[3]]) as usize;
    assert_eq!(len, framed.len() - 4);
    let mut d = flate2::Decompress::new(true);
    let mut plain = Vec::with_capacity(1000);
    d.decompress_vec(&framed[4..], &mut plain, flate2::FlushDecompress::Sync).unwrap();
    assert_eq!(plain, data);
}

#[test]
fn tight_solid_rectangle() {
    let mut data = Vec::new();
    for _ in 0..16 * 16 {
        data.extend_from_slice(&[128, 64, 32, 255]);
    }
    let body = TightEncoding.encode(&data, 16, 16, 80, 6);
    assert_eq!(body, vec![0x80, 0x80, 0x40, 0x20]);
}

#[test]
fn tight_pieces_cover_the_rectangle() {
    let (w, h) = (300usize, 260usize);
    let mut data = image(w, h, 50);
    for y in 40..200 {
        for x in 50..250 {
            let o = (y * w + x) * 4;
            data[o..o + 4].copy_from_slice(&[9, 8, 7, 0]);
        }
    }
    let pieces = encode_tight_rects(&data, w as u16, h as u16, 80, 6);
    let mut covered = vec![0u8; w * h];
    for (r, body) in pieces.iter() {
        assert!(!body.is_empty());
        for y in r.y as usize..(r.y + r.h) as usize {
            for x in r.x as usize..(r.x + r.w) as usize {
                covered[y * w + x] += 1;
            }
        }
    }
    assert!(covered.iter().all(|&c| c == 1));
    assert!(pieces.iter().any(|(r, b)| r.w >= 100 && b[..] == [0x80, 9, 8, 7]));
}

#[test]
fn tight_two_colours_is_mono() {
    let mut data = Vec::new();
    for i in 0..64 {
        if i % 3 == 0 {
            data.extend_from_slice(&[1, 2, 3, 0]);
        } else {
            data.extend_from_slice(&[4, 5, 6, 0]);
        }
    }
    let body = TightEncoding.encode(&data, 8, 8, 80, 1);
    assert_eq!(&body[..3], &[0x50, 0x01, 0x01]);
    assert_eq!(&body[3..9], &[4, 5, 6, 1, 2, 3]);
}

#[test]
fn compact_lengths() {
    let cases: [(usize, Vec<u8>); 5] = [
        (0, vec![0]),
        (127, vec![127]),
        (128, vec![0x80, 0x01]),
        (16383, vec![0xFF, 0x7F]),
        (16384, vec![0x80, 0x80, 0x01]),
    ];
    for (len, expected) in cases.iter() {
        let mut buf = Vec::new();
        write_compact_length(&mut buf, *len);
        assert_eq!(&buf, expected);
    }
}

#[test]
fn tightpng_body_is_a_png() {
    let data = image(20, 10, 30);
    let body = TightPngEncoding.encode(&data, 20, 10, 0, 5);
    assert_eq!(body[0], 0xA0);
    let (len, skip) = if body[1] & 0x80 == 0 {
        (body[1] as usize, 2)
    } else if body[2] & 0x80 == 0 {
        ((body[1] & 0x7F) as usize | (body[2] as usize) << 7, 3)
    } else {
        ((body[1] & 0x7F) as usize | ((body[2] & 0x7F) as usize) << 7 | (body[3] as usize) << 14, 4)
    };
    assert_eq!(len, body.len() - skip);
    let decoder = png::Decoder::new(&body[skip..]);
    let mut reader = decoder.read_info().unwrap();
    let mut buf = vec![0; reader.output_buffer_size()];
    let info = reader.next_frame(&mut buf).unwrap();
    assert_eq!((info.width, info.height), (20, 10));
    let rgb: Vec<u8> = data.chunks(4).flat_map(|c| [c[0], c[1], c[2]]).collect();
    assert_eq!(&buf[..info.buffer_size()], &rgb[..]);
}

#[test]
fn encoder_lookup() {
    assert_eq!(get_encoder(0), Some(EncoderKind::Raw));
    assert_eq!(get_encoder(2), Some(EncoderKind::Rre));
    assert_eq!(get_encoder(4), Some(EncoderKind::CoRre));
    assert_eq!(get_encoder(5), Some(EncoderKind::Hextile));
    assert_eq!(get_encoder(7), Some(EncoderKind::Tight));
    assert_eq!(get_encoder(-260), Some(EncoderKind::TightPng));
    assert_eq!(get_encoder(16), None);
    assert_eq!(get_encoder(6), None);
}

#[test]
fn colour_statistics() {
    let px = vec![5u32, 7, 7, 9, 7, 5];
    assert_eq!(get_background_color(&px), 7);
    assert_eq!(get_background_color(&[]), 0);
    assert_eq!(build_palette(&px), vec![7, 5, 9]);
    assert_eq!(check_solid_color(&[3, 3, 3]), Some(3));
    assert_eq!(check_solid_color(&[3, 4]), None);
    assert_eq!(check_solid_color(&[]), None);
    assert_eq!(analyze_tile_colors(&[]), (true, true, 0, 0));
    assert_eq!(analyze_tile_colors(&[4, 4]), (true, true, 4, 0));
    assert_eq!(analyze_tile_colors(&[4, 6, 6]), (false, true, 6, 4));
    assert_eq!(analyze_tile_colors(&[4, 6, 6, 8]), (false, false, 6, 0));
    assert_eq!(rgba_to_rgb24_pixels(&[1, 2, 3, 4, 5, 6, 7, 8]), vec![0x030201, 0x070605]);
}

#[test]
fn subrects_carve_non_background() {
    let px = vec![0u32, 1, 1, 0, 1, 1, 2, 2, 0];
    let rs = find_subrects(&px, 3, 3, 0);
    let mut painted = vec![0u32; 9];
    for r in rs.iter() {
        for y in r.y..r.y + r.h {
            for x in r.x..r.x + r.w {
                assert_eq!(painted[(y * 3 + x) as usize], 0);
                painted[(y * 3 + x) as usize] = r.color;
            }
        }
    }
    assert_eq!(painted, px);
}

#[test]
fn client_pixel_in_depth_24_is_three_bytes() {
    assert_eq!(translate_pixel_to_client_format(0x203040, &PixelFormat::rgba32()), vec![0x40, 0x30, 0x20]);
    let out = translate_pixel_to_client_format(0x0000FF, &PixelFormat::rgb565());
    assert_eq!(out, vec![0x00, 0xF8]);
}

#[test]
fn zywrle_pieces() {
    assert_eq!(calc_aligned_size(13, 9, 2), (12, 8));
    assert_eq!(calc_aligned_size(7, 7, 3), (0, 0));
    let mut buf = vec![0i32; 1];
    assert!(zywrle_analyze(&[1, 2, 3, 4], 1, 1, 1, &mut buf).is_none());
    let data = image(5, 3, 7);
    let mut buf = vec![0i32; 8];
    let out = zywrle_analyze(&data, 5, 3, 1, &mut buf).unwrap();
    assert_eq!(out.len(), data.len());
    // The right column and the bottom row lie outside the aligned 4 by 2 part.
    for y in 0..3 {
        for x in 0..5 {
            if x >= 4 || y >= 2 {
                let o = (y * 5 + x) * 4;
                assert_eq!(&out[o..o + 4], &data[o..o + 4]);
            }
        }
    }
    assert_eq!(harr(10, 4), (10, 6));
}

#[test]
fn tight_wide_rectangle_is_cut_into_sendable_pieces() {
    let (w, h) = (2100usize, 40usize);
    let data = image(w, h, 90);
    let pieces = encode_tight_rects(&data, w as u16, h as u16, 80, 6);
    let mut covered = vec![0u8; w * h];
    for (r, body) in pieces.iter() {
        assert!(!body.is_empty());
        if body[0] != 0x80 {
            assert!(r.w <= 2048);
            assert!(r.w as usize * r.h as usize <= 65536);
        }
        for y in r.y as usize..(r.y + r.h) as usize {
            for x in r.x as usize..(r.x + r.w) as usize {
                covered[y * w + x] += 1;
            }
        }
    }
    assert!(covered.iter().all(|&c| c == 1));
    assert!(pieces.len() >= 2);
}

#[test]
fn hextile_single_pixel_is_background_only() {
    let body = HextileEncoding.encode(&[9, 8, 7, 255], 1, 1, 0, 0);
    assert_eq!(body, vec![0x02, 9, 8, 7, 0]);
}

#[test]
fn tight_small_two_colour_rectangle_is_mono() {
    let mut data = Vec::new();
    for i in 0..4 {
        if i == 0 {
            data.extend_from_slice(&[1, 2, 3, 0]);
        } else {
            data.extend_from_slice(&[4, 5, 6, 0]);
        }
    }
    let body = TightEncoding.encode(&data, 2, 2, 80, 6);
    assert_eq!(&body[..3], &[0x50, 0x01, 0x01]);
    assert_eq!(&body[3..9], &[4, 5, 6, 1, 2, 3]);
}
