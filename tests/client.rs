use rustvncserver::client::{
    choose_encoding, cut_text_message, parse_client_message, security_offer, security_result,
    security_step, server_init_message, verify_auth_response, vnc_auth_key, vnc_auth_response,
    ClientEvent, ClientState, ParseOutcome, SecurityStep, MAX_CUT_TEXT,
};
use des::cipher::{BlockEncrypt, KeyInit};
use rustvncserver::framebuffer::{DirtyRegion, Framebuffer};
use rustvncserver::protocol::ClientMessage;

fn set_encodings(list: &[i32]) -> Vec<u8> {
    let mut m = vec![2u8, 0];
    m.extend_from_slice(&(list.len() as u16).to_be_bytes());
    for e in list {
        m.extend_from_slice(&e.to_be_bytes());
    }
    m
}

fn update_request(incremental: bool, x: u16, y: u16, w: u16, h: u16) -> Vec<u8> {
    let mut m = vec![3u8, incremental as u8];
    for v in [x, y, w, h] {
        m.extend_from_slice(&v.to_be_bytes());
    }
    m
}

fn parsed(bytes: &[u8]) -> ClientMessage {
    match parse_client_message(bytes) {
        ParseOutcome::Parsed(m, n) => {
            assert_eq!(n, bytes.len());
            m
        }
        other => panic!("not parsed: {:?}", other),
    }
}

fn apply(state: &mut ClientState, bytes: &[u8], now: u64) {
    let m = parsed(bytes);
    state.handle_message(m, now).unwrap();
}

fn solid(w: usize, h: usize, rgb: [u8; 3]) -> Vec<u8> {
    let mut v = Vec::new();
    for _ in 0..w * h {
        v.extend_from_slice(&[rgb[0], rgb[1], rgb[2], 255]);
    }
    v
}

#[test]
fn handshake_without_password() {
    assert_eq!(security_offer(false), vec![1, 1]);
    assert_eq!(security_step(false, 1), SecurityStep::Accept);
    assert_eq!(security_result(true), vec![0, 0, 0, 0]);
    let init = server_init_message(4, 4, "Rust VNC Server".to_string());
    assert_eq!(&init[0..4], &[0, 4, 0, 4]);
    assert_eq!(&init[4..20], &[32, 24, 0, 1, 0, 255, 0, 255, 0, 255, 0, 8, 16, 0, 0, 0]);
    assert_eq!(&init[20..24], &[0, 0, 0, 15]);
    assert_eq!(&init[24..], b"Rust VNC Server");
}

#[test]
fn security_none_fails_with_password() {
    assert_eq!(security_offer(true), vec![1, 2]);
    assert_eq!(security_step(true, 1), SecurityStep::Reject);
    assert_eq!(security_step(false, 2), SecurityStep::Reject);
    assert_eq!(security_step(true, 2), SecurityStep::Challenge);
    assert_eq!(security_step(false, 0), SecurityStep::Reject);
    assert_eq!(security_result(false), vec![0, 0, 0, 1]);
}

#[test]
fn vnc_auth_uses_bit_reversed_key() {
    let password = b"secret";
    let key = vnc_auth_key(password);
    assert_eq!(key[0], b's'.reverse_bits());
    assert_eq!(key[5], b't'.reverse_bits());
    assert_eq!(&key[6..], &[0, 0]);
    let long = vnc_auth_key(b"0123456789");
    assert_eq!(long[7], b'7'.reverse_bits());
    let challenge: [u8; 16] = [1, 2, 3, 4, 5, 6, 7, 8, 9, 10, 11, 12, 13, 14, 15, 16];
    let cipher = des::Des::new(&key.into());
    let mut a = des::cipher::generic_array::GenericArray::clone_from_slice(&challenge[..8]);
    let mut b = des::cipher::generic_array::GenericArray::clone_from_slice(&challenge[8..]);
    cipher.encrypt_block(&mut a);
    cipher.encrypt_block(&mut b);
    let mut expected = a.to_vec();
    expected.extend_from_slice(&b);
    let response = vnc_auth_response(password, &challenge);
    assert_eq!(response.len(), 16);
    assert_eq!(response, expected);
    assert!(verify_auth_response(password, &challenge, &expected));
    assert!(!verify_auth_response(b"wrong", &challenge, &expected));
    assert!(!verify_auth_response(password, &challenge, &expected[..15]));
}

#[test]
fn raw_rectangle_update() {
    let mut fb = Framebuffer::new(4, 4);
    fb.update(&[0xFF, 0x00, 0x00, 0xFF, 0x00, 0xFF, 0x00, 0xFF], 0, 0, 2, 1);
    let mut state = ClientState::new();
    apply(&mut state, &set_encodings(&[0]), 1);
    apply(&mut state, &update_request(false, 0, 0, 2, 1), 1);
    let plan = state.take_update();
    let msg = state.build_update(&fb, &plan).unwrap();
    let mut expected = vec![0x00, 0x00, 0x00, 0x01];
    expected.extend_from_slice(&[0, 0, 0, 0, 0, 2, 0, 1, 0, 0, 0, 0]);
    expected.extend_from_slice(&[0xFF, 0x00, 0x00, 0x00, 0x00, 0xFF, 0x00, 0x00]);
    assert_eq!(msg, expected);
}

#[test]
fn solid_tight_update() {
    let mut fb = Framebuffer::new(32, 32);
    fb.update(&solid(16, 16, [128, 64, 32]), 0, 0, 16, 16);
    let mut state = ClientState::new();
    apply(&mut state, &set_encodings(&[7]), 1);
    apply(&mut state, &update_request(false, 0, 0, 16, 16), 1);
    let plan = state.take_update();
    let msg = state.build_update(&fb, &plan).unwrap();
    assert_eq!(&msg[0..4], &[0, 0, 0, 1]);
    assert_eq!(&msg[4..16], &[0, 0, 0, 0, 0, 16, 0, 16, 0, 0, 0, 7]);
    assert_eq!(&msg[16..], &[0x80, 0x80, 0x40, 0x20]);
}

#[test]
fn copy_rectangles_come_first() {
    let mut fb = Framebuffer::new(200, 200);
    let mut state = ClientState::new();
    apply(&mut state, &update_request(true, 0, 0, 200, 200), 1);
    let first = fb.update(&solid(10, 10, [1, 2, 3]), 0, 0, 10, 10).unwrap();
    state.push_modified(first);
    state.schedule_copy_region(DirtyRegion::new(100, 100, 10, 10), -100, -100);
    let second = fb.update(&solid(10, 10, [4, 5, 6]), 0, 0, 10, 10).unwrap();
    state.push_modified(second);
    let plan = state.take_update();
    assert_eq!(plan.copies.len(), 1);
    let msg = state.build_update(&fb, &plan).unwrap();
    assert_eq!(&msg[0..4], &[0, 0, 0, 3]);
    assert_eq!(&msg[4..16], &[0, 100, 0, 100, 0, 10, 0, 10, 0, 0, 0, 1]);
    assert_eq!(&msg[16..20], &[0, 0, 0, 0]);
    assert_eq!(&msg[20..32], &[0, 0, 0, 0, 0, 10, 0, 10, 0, 0, 0, 0]);
}

#[test]
fn copy_with_other_offset_becomes_modified() {
    let mut state = ClientState::new();
    state.schedule_copy_region(DirtyRegion::new(0, 0, 5, 5), 1, 1);
    state.schedule_copy_region(DirtyRegion::new(10, 10, 5, 5), 1, 1);
    assert_eq!(state.copy_region.len(), 2);
    state.schedule_copy_region(DirtyRegion::new(20, 20, 5, 5), 2, 2);
    assert_eq!(state.copy_region, vec![DirtyRegion::new(20, 20, 5, 5)]);
    assert_eq!(state.modified_regions.len(), 2);
    assert_eq!(state.copy_offset, Some((2, 2)));
}

#[test]
fn invalid_pixel_format_disconnects() {
    for bpp in [10u8, 17] {
        let mut msg = vec![0u8, 0, 0, 0, bpp, 24, 0, 1, 0, 255, 0, 255, 0, 255, 0, 8, 16, 0, 0, 0];
        msg[4] = bpp;
        let mut state = ClientState::new();
        let m = parsed(&msg);
        assert!(state.handle_message(m, 1).is_err());
    }
    let ok = vec![0u8, 0, 0, 0, 16, 16, 0, 1, 0, 31, 0, 63, 0, 31, 11, 5, 0, 0, 0, 0];
    let mut state = ClientState::new();
    let m = parsed(&ok);
    assert!(state.handle_message(m, 1).is_ok());
    assert_eq!(state.pixel_format.bits_per_pixel, 16);
}

#[test]
fn unknown_pseudo_encodings_are_ignored() {
    let mut state = ClientState::new();
    let msg = set_encodings(&[-999, 5, -23, -250, 123456]);
    let m = parsed(&msg);
    assert!(state.handle_message(m, 1).unwrap().is_none());
    assert_eq!(state.encodings, vec![-999, 5, -23, -250, 123456]);
    assert_eq!(state.jpeg_quality, 100);
    assert_eq!(state.compression_level, 6);
    assert_eq!(choose_encoding(&state.encodings, state.jpeg_quality), (5, 1));
}

#[test]
fn encoding_priority() {
    assert_eq!(choose_encoding(&[0, 5, 16, 7], 80).0, 7);
    assert_eq!(choose_encoding(&[0, 6, 8], 80).0, 8);
    assert_eq!(choose_encoding(&[17], 15), (17, 3));
    assert_eq!(choose_encoding(&[17], 62), (17, 2));
    assert_eq!(choose_encoding(&[2, 4], 62).0, 0);
}

#[test]
fn cut_text_limit() {
    let mut head = vec![6u8, 0, 0, 0];
    head.extend_from_slice(&(MAX_CUT_TEXT as u32).to_be_bytes());
    assert!(matches!(parse_client_message(&head), ParseOutcome::Incomplete));
    let mut full = head.clone();
    full.extend(std::iter::repeat(b'a').take(MAX_CUT_TEXT));
    match parse_client_message(&full) {
        ParseOutcome::Parsed(ClientMessage::ClientCutText(t), n) => {
            assert_eq!(n, 8 + MAX_CUT_TEXT);
            assert_eq!(t.len(), MAX_CUT_TEXT);
        }
        other => panic!("{:?}", other),
    }
    let mut over = vec![6u8, 0, 0, 0];
    over.extend_from_slice(&(MAX_CUT_TEXT as u32 + 1).to_be_bytes());
    assert!(matches!(parse_client_message(&over), ParseOutcome::Fatal(_)));
}

#[test]
fn messages_parse_and_become_events() {
    assert!(matches!(parse_client_message(&[]), ParseOutcome::Incomplete));
    assert!(matches!(parse_client_message(&[9]), ParseOutcome::Fatal(_)));
    assert!(matches!(parse_client_message(&[4, 1, 0]), ParseOutcome::Incomplete));
    let mut state = ClientState::new();
    let key = parsed(&[4, 1, 0, 0, 0, 0, 0xFF, 0x0D]);
    match state.handle_message(key, 1).unwrap() {
        Some(ClientEvent::KeyPress { down, key }) => {
            assert!(down);
            assert_eq!(key, 0xFF0D);
        }
        other => panic!("{:?}", other),
    }
    let ptr = parsed(&[5, 3, 0, 10, 0, 20]);
    match state.handle_message(ptr, 1).unwrap() {
        Some(ClientEvent::PointerMove { x, y, button_mask }) => assert_eq!((x, y, button_mask), (10, 20, 3)),
        other => panic!("{:?}", other),
    }
    let text = parsed(&[6, 0, 0, 0, 0, 0, 0, 2, b'h', b'i']);
    match state.handle_message(text, 1).unwrap() {
        Some(ClientEvent::CutText { text }) => assert_eq!(text, "hi"),
        other => panic!("{:?}", other),
    }
    assert!(matches!(parse_client_message(&[6, 0, 0, 0, 0, 0, 0, 1, 0xFF]), ParseOutcome::Ignored(9)));
    let two = [set_encodings(&[0, 1]), vec![5, 0, 0, 1, 0, 2]].concat();
    match parse_client_message(&two) {
        ParseOutcome::Parsed(ClientMessage::SetEncodings(v), n) => {
            assert_eq!(v, vec![0, 1]);
            assert_eq!(n, 12);
        }
        other => panic!("{:?}", other),
    }
}

#[test]
fn deferral_and_rate_limit() {
    let mut state = ClientState::new();
    assert!(!state.tick(1_000));
    apply(&mut state, &update_request(false, 0, 0, 4, 4), 100_000_000);
    assert_eq!(state.start_deferring_nanos, 100_000_000);
    assert!(!state.tick(101_000_000));
    assert!(state.tick(105_000_000));
    state.finish_update(105_000_000);
    assert_eq!(state.start_deferring_nanos, 0);
    state.push_modified(DirtyRegion::new(0, 0, 1, 1));
    assert!(!state.tick(110_000_000));
    assert!(!state.tick(120_000_000));
    assert!(state.tick(138_000_000));
}

#[test]
fn at_most_fifty_rectangles_per_update() {
    let fb = Framebuffer::new(100, 100);
    let mut state = ClientState::new();
    apply(&mut state, &update_request(true, 0, 0, 100, 100), 1);
    for i in 0..60u16 {
        state.push_modified(DirtyRegion::new(i, 0, 1, 1));
    }
    let plan = state.take_update();
    assert_eq!(plan.modified.len(), 50);
    assert_eq!(state.modified_regions.len(), 10);
    let msg = state.build_update(&fb, &plan).unwrap();
    assert_eq!(&msg[0..4], &[0, 0, 0, 50]);
}

#[test]
fn regions_at_the_edge_are_sent_and_outside_skipped() {
    let fb = Framebuffer::new(8, 8);
    let mut state = ClientState::new();
    apply(&mut state, &update_request(true, 0, 0, 8, 8), 1);
    state.push_modified(DirtyRegion::new(6, 7, 2, 1));
    let plan = state.take_update();
    let msg = state.build_update(&fb, &plan).unwrap();
    assert_eq!(&msg[0..4], &[0, 0, 0, 1]);
    assert_eq!(msg.len(), 4 + 12 + 8);
    let region = DirtyRegion::new(7, 7, 2, 1);
    let mut state2 = ClientState::new();
    let plan2 = rustvncserver::client::UpdatePlan { copies: Vec::new(), offset: None, modified: vec![region] };
    let msg2 = state2.build_update(&fb, &plan2).unwrap();
    assert_eq!(msg2, vec![0, 0, 0, 0]);
    assert!(fb.get_rect(7, 7, 2, 1).is_err());
    assert_eq!(fb.get_rect(6, 7, 2, 1).unwrap().len(), 8);
}

#[test]
fn requests_clip_regions() {
    let a = DirtyRegion::new(0, 0, 10, 10);
    assert_eq!(a.intersect(&DirtyRegion::new(5, 5, 10, 10)), Some(DirtyRegion::new(5, 5, 5, 5)));
    assert_eq!(a.intersect(&DirtyRegion::new(10, 0, 5, 5)), None);
}

#[test]
fn server_cut_text_bytes() {
    assert_eq!(cut_text_message("ab"), vec![3, 0, 0, 0, 0, 0, 0, 2, b'a', b'b']);
}

#[test]
fn translated_raw_for_rgb565_viewer() {
    let mut fb = Framebuffer::new(2, 1);
    fb.update(&[255, 0, 0, 0, 0, 0, 255, 0], 0, 0, 2, 1);
    let mut state = ClientState::new();
    apply(&mut state, &[0u8, 0, 0, 0, 16, 16, 0, 1, 0, 31, 0, 63, 0, 31, 11, 5, 0, 0, 0, 0], 1);
    apply(&mut state, &update_request(false, 0, 0, 2, 1), 1);
    let plan = state.take_update();
    let msg = state.build_update(&fb, &plan).unwrap();
    assert_eq!(&msg[16..], &[0x00, 0xF8, 0x1F, 0x00]);
}
