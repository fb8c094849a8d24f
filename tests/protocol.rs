use rustvncserver::protocol::{PixelFormat, Rectangle, ServerInit};

#[test]
fn pixel_format_block_round_trips() {
    let pf = PixelFormat::rgb565();
    let mut buf = Vec::new();
    pf.write_to(&mut buf);
    assert_eq!(buf, vec![16, 16, 0, 1, 0, 31, 0, 63, 0, 31, 11, 5, 0, 0, 0, 0]);
    let back = PixelFormat::from_bytes(&buf).unwrap();
    assert_eq!(back, pf);
    assert!(PixelFormat::from_bytes(&buf[..15]).is_err());
}

#[test]
fn rgba32_block_matches_server_init_format() {
    let mut buf = Vec::new();
    PixelFormat::rgba32().write_to(&mut buf);
    assert_eq!(buf, vec![32, 24, 0, 1, 0, 255, 0, 255, 0, 255, 0, 8, 16, 0, 0, 0]);
}

#[test]
fn validity_of_pixel_formats() {
    assert!(PixelFormat::rgba32().is_valid());
    assert!(PixelFormat::rgb565().is_valid());
    assert!(PixelFormat::rgb555().is_valid());
    assert!(PixelFormat::bgr233().is_valid());
    for bpp in [10u8, 17, 0, 7, 33, 64] {
        let mut pf = PixelFormat::rgba32();
        pf.bits_per_pixel = bpp;
        assert!(!pf.is_valid(), "bpp {}", bpp);
    }
    let mut deep = PixelFormat::rgba32();
    deep.depth = 33;
    assert!(!deep.is_valid());
    let mut wide = PixelFormat::rgb565();
    wide.red_max = 255;
    assert!(!wide.is_valid());
    let mut shifted = PixelFormat::rgba32();
    shifted.blue_shift = 32;
    assert!(!shifted.is_valid());
    let mut mapped = PixelFormat::rgba32();
    mapped.true_colour_flag = 0;
    assert!(!mapped.is_valid());
    mapped.bits_per_pixel = 8;
    mapped.depth = 8;
    assert!(mapped.is_valid());
    assert!(PixelFormat::rgba32().is_compatible_with_rgba32());
    assert!(!PixelFormat::rgb565().is_compatible_with_rgba32());
}

#[test]
fn rectangle_header_is_big_endian() {
    let r = Rectangle { x: 1, y: 0x0203, width: 2, height: 1, encoding: -260 };
    let mut buf = Vec::new();
    r.write_header(&mut buf);
    assert_eq!(buf, vec![0, 1, 2, 3, 0, 2, 0, 1, 0xFF, 0xFF, 0xFE, 0xFC]);
}

#[test]
fn server_init_bytes() {
    let init = ServerInit {
        framebuffer_width: 4,
        framebuffer_height: 4,
        pixel_format: PixelFormat::rgba32(),
        name: "Rust VNC Server".to_string(),
    };
    let mut buf = Vec::new();
    init.write_to(&mut buf);
    let mut expected = vec![0, 4, 0, 4, 32, 24, 0, 1, 0, 255, 0, 255, 0, 255, 0, 8, 16, 0, 0, 0, 0, 0, 0, 15];
    expected.extend_from_slice(b"Rust VNC Server");
    assert_eq!(buf, expected);
}
