use rustvncserver::protocol::PixelFormat;
use rustvncserver::translate::{downscale_component, extract_rgb, scale_component, translate_pixels};

#[test]
fn test_no_translation() {
    let server_format = PixelFormat::rgba32();
    let client_format = PixelFormat::rgba32();

    let src = vec![255u8, 0, 0, 0, 0, 255, 0, 0];
    let dst = translate_pixels(&src, &server_format, &client_format);

    assert_eq!(&src[..], &dst[..]);
}

#[test]
fn test_rgba32_to_rgb565() {
    let server_format = PixelFormat::rgba32();
    let client_format = PixelFormat {
        bits_per_pixel: 16,
        depth: 16,
        big_endian_flag: 0,
        true_colour_flag: 1,
        red_max: 31,
        green_max: 63,
        blue_max: 31,
        red_shift: 11,
        green_shift: 5,
        blue_shift: 0,
    };

    let src = vec![255u8, 0, 0, 0];
    let dst = translate_pixels(&src, &server_format, &client_format);

    assert_eq!(dst.len(), 2);
    let value = u16::from_le_bytes([dst[0], dst[1]]);
    assert_eq!(value, 0xF800);
}

#[test]
fn test_extract_rgb_rgba32() {
    let format = PixelFormat::rgba32();
    let pixel = [128u8, 64, 32, 0];

    let (r, g, b) = extract_rgb(&pixel, &format);
    assert_eq!(r, 128);
    assert_eq!(g, 64);
    assert_eq!(b, 32);
}

#[test]
fn test_scale_component() {
    assert_eq!(scale_component(0, 31), 0);
    assert_eq!(scale_component(31, 31), 255);
    assert_eq!(scale_component(15, 31), 123);
    assert_eq!(scale_component(128, 255), 128);
}

#[test]
fn test_downscale_component() {
    assert_eq!(downscale_component(0, 31), 0);
    assert_eq!(downscale_component(255, 31), 31);
    assert_eq!(downscale_component(128, 31), 15);
    assert_eq!(downscale_component(128, 255), 128);
}

#[test]
fn rgb565_round_trip_stays_within_one_step() {
    let server = PixelFormat::rgba32();
    let client = PixelFormat::rgb565();
    let src = vec![200u8, 100, 50, 0];
    let there = translate_pixels(&src, &server, &client);
    let (r, g, b) = extract_rgb(&there, &client);
    assert!((r as i32 - 200).abs() <= 9);
    assert!((g as i32 - 100).abs() <= 5);
    assert!((b as i32 - 50).abs() <= 9);
}

#[test]
fn rgb888_big_endian_round_trip_is_exact() {
    let server = PixelFormat::rgba32();
    let mut client = PixelFormat::rgba32();
    client.big_endian_flag = 1;
    client.red_shift = 16;
    client.blue_shift = 0;
    let src = vec![1u8, 2, 3, 77];
    let there = translate_pixels(&src, &server, &client);
    assert_eq!(there, vec![0, 1, 2, 3]);
    assert_eq!(extract_rgb(&there, &client), (1, 2, 3));
}

#[test]
fn equal_formats_zero_the_padding_byte() {
    let f = PixelFormat::rgba32();
    let src = vec![1u8, 2, 3, 200, 4, 5, 6, 7];
    assert_eq!(translate_pixels(&src, &f, &f), vec![1, 2, 3, 0, 4, 5, 6, 0]);
}

#[test]
fn rgb565_translates_back_to_rgba32() {
    let server = PixelFormat::rgba32();
    let client = PixelFormat::rgb565();
    let src = vec![255u8, 0, 0, 9, 0, 0, 255, 9];
    let there = translate_pixels(&src, &server, &client);
    assert_eq!(there, vec![0x00, 0xF8, 0x1F, 0x00]);
    let back = translate_pixels(&there, &client, &server);
    assert_eq!(back, vec![255, 0, 0, 0, 0, 0, 255, 0]);
}
