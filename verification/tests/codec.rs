use stegohide::channels::{add_alpha, separate};
use stegohide::codec::{decode_pixels, encode_pixels};
use stegohide::frame::{
    build_frame, build_frame_bytes, check_magic_bytes, encode_message, get_length, inject_message,
    parse_frame, DecodeOutcome, EncodeError,
};
use stegohide::symbols::{extract_bytes, inject_symbols, split_bytes};

#[test]
fn split_bytes_spreads_each_byte() {
    assert_eq!(split_bytes(&[0x42]), vec![1, 0, 0, 2]);
    assert_eq!(split_bytes(&[0xff, 0x00]), vec![3, 3, 3, 3, 0, 0, 0, 0]);
    assert_eq!(split_bytes(&[]), Vec::<u8>::new());
}

#[test]
fn extract_bytes_reads_groups_of_four() {
    assert_eq!(extract_bytes(&[1, 0, 0, 2]), vec![0x42]);
    // Only the low two bits of each carrier byte count.
    assert_eq!(extract_bytes(&[0xfd, 0xfc, 0xfc, 0xfe]), vec![0x42]);
    // A trailing incomplete group is discarded.
    assert_eq!(extract_bytes(&[1, 0, 0, 2, 9, 9]), vec![0x42]);
    assert_eq!(extract_bytes(&[7, 7]), Vec::<u8>::new());
}

#[test]
fn symbols_roundtrip_over_all_byte_values() {
    let bytes: Vec<u8> = (0u16..256).map(|v| v as u8).collect();
    assert_eq!(extract_bytes(&split_bytes(&bytes)), bytes);
}

#[test]
fn separate_splits_color_and_alpha() {
    let pixels = [10, 20, 30, 200, 40, 50, 60, 201];
    let (color, alpha) = separate(&pixels, true);
    assert_eq!(color, vec![10, 20, 30, 40, 50, 60]);
    assert_eq!(alpha, Some(vec![200, 201]));
}

#[test]
fn separate_without_alpha_is_identity() {
    let pixels = [10, 20, 30, 40, 50];
    let (color, alpha) = separate(&pixels, false);
    assert_eq!(color, pixels.to_vec());
    assert!(alpha.is_none());
}

#[test]
fn add_alpha_interleaves_groups_of_three_and_one() {
    let recombined = add_alpha(vec![10, 20, 30, 40, 50, 60], Some(vec![200, 201]));
    assert_eq!(recombined, vec![10, 20, 30, 200, 40, 50, 60, 201]);
    assert_eq!(add_alpha(vec![1, 2, 3], None), vec![1, 2, 3]);
}

#[test]
fn separate_combine_roundtrip() {
    let pixels: Vec<u8> = (0u16..64).map(|v| (v * 3) as u8).collect();
    let (color, alpha) = separate(&pixels, true);
    assert_eq!(add_alpha(color, alpha), pixels);
    let (color, alpha) = separate(&pixels, false);
    assert_eq!(add_alpha(color, alpha), pixels);
}

#[test]
fn frame_has_magic_length_and_payload() {
    let frame = build_frame_bytes(b"hi");
    assert_eq!(
        frame,
        vec![0x42, 0x48, 0x54, 0x4d, 0x00, 0x00, 0x00, 0x02, b'h', b'i']
    );
}

#[test]
fn frame_symbols_open_with_the_magic_marker() {
    let symbols = build_frame(b"hi");
    // The 2-bit decompositions of B, H, T, M.
    assert_eq!(
        &symbols[..16],
        &[1, 0, 0, 2, 1, 0, 2, 0, 1, 1, 1, 0, 1, 0, 3, 1]
    );
    assert_eq!(symbols.len(), 4 * (8 + 2));
}

#[test]
fn check_magic_bytes_matches_only_the_marker() {
    assert!(check_magic_bytes(&[0x42, 0x48, 0x54, 0x4d, 0xaa]));
    assert!(!check_magic_bytes(&[0x42, 0x48, 0x54, 0x4e]));
    assert!(!check_magic_bytes(&[0x42, 0x48, 0x54]));
    assert!(!check_magic_bytes(&[]));
}

#[test]
fn get_length_reads_big_endian() {
    assert_eq!(get_length(&[0, 0, 0, 0, 0x00, 0x00, 0x01, 0x02]), 258);
    assert_eq!(get_length(&[9, 9, 9, 9, 0x01, 0x00, 0x00, 0x00]), 0x0100_0000);
}

#[test]
fn inject_symbols_keeps_high_bits_and_tail() {
    let carrier = [0xff, 0xff, 0xff, 0xff, 0xff];
    let out = inject_symbols(&carrier, &[0, 1, 2, 3]);
    assert_eq!(out, vec![0xfc, 0xfd, 0xfe, 0xff, 0xff]);
}

#[test]
fn inject_message_writes_frame_and_passes_tail_through() {
    let carrier = vec![0xffu8; 40];
    let out = inject_message(&carrier, "");
    // The empty message still carries the 8-byte header in 32 symbols.
    assert_eq!(out.len(), 40);
    assert_eq!(&out[32..], &[0xff; 8]);
    assert_eq!(out[0], 0xfc | 1);
    assert_eq!(extract_bytes(&out)[..4], [0x42, 0x48, 0x54, 0x4d]);
}

#[test]
fn inject_message_stops_at_capacity() {
    // Too short for the whole frame: the symbols that fit are written, the
    // rest are dropped, and nothing fails.
    let carrier = vec![0xffu8; 10];
    let out = inject_message(&carrier, "hi");
    assert_eq!(out.len(), 10);
    assert_eq!(&out[..4], &[0xfd, 0xfc, 0xfc, 0xfe]);
}

#[test]
fn encode_decode_rgb_roundtrip() {
    // A 100-by-1 RGB image: 300 color bytes.
    let pixels: Vec<u8> = (0u16..300).map(|v| v as u8).collect();
    let encoded = encode_pixels(&pixels, false, b"hi").unwrap();
    assert_eq!(encoded.len(), 300);
    match decode_pixels(&encoded, false) {
        DecodeOutcome::Found(message) => assert_eq!(message, b"hi".to_vec()),
        _ => panic!("message not recovered"),
    }
}

#[test]
fn encode_rgba_preserves_alpha() {
    let pixels: Vec<u8> = (0u16..400).map(|v| (v * 7) as u8).collect();
    let encoded = encode_pixels(&pixels, true, b"secret").unwrap();
    assert_eq!(encoded.len(), 400);
    for i in 0..100 {
        assert_eq!(encoded[4 * i + 3], pixels[4 * i + 3]);
    }
    match decode_pixels(&encoded, true) {
        DecodeOutcome::Found(message) => assert_eq!(message, b"secret".to_vec()),
        _ => panic!("message not recovered"),
    }
}

#[test]
fn capacity_boundary_is_exact() {
    // A frame for two message bytes needs exactly 40 carrier bytes.
    let carrier = vec![0u8; 40];
    let exact = encode_message(&carrier, b"hi").unwrap();
    match parse_frame(&exact) {
        DecodeOutcome::Found(message) => assert_eq!(message, b"hi".to_vec()),
        _ => panic!("message not recovered"),
    }
    assert_eq!(
        encode_message(&carrier, b"hi!"),
        Err(EncodeError::CapacityExceeded)
    );
}

#[test]
fn empty_message_fits_a_header_only_stream() {
    let carrier = vec![0u8; 32];
    let encoded = encode_message(&carrier, b"").unwrap();
    match parse_frame(&encoded) {
        DecodeOutcome::Found(message) => assert!(message.is_empty()),
        _ => panic!("message not recovered"),
    }
    assert_eq!(
        encode_message(&vec![0u8; 31], b""),
        Err(EncodeError::CapacityExceeded)
    );
}

#[test]
fn magic_mismatch_yields_not_present() {
    let silent = vec![0u8; 48];
    assert!(matches!(parse_frame(&silent), DecodeOutcome::NotPresent));
    assert!(matches!(
        decode_pixels(&silent, true),
        DecodeOutcome::NotPresent
    ));
    // Even one wrong marker byte hides nothing.
    let mut bytes = build_frame_bytes(b"hi");
    bytes[3] = b'N';
    let stream = inject_symbols(&vec![0u8; 40], &split_bytes(&bytes));
    assert!(matches!(parse_frame(&stream), DecodeOutcome::NotPresent));
}

#[test]
fn overlong_claim_is_truncated() {
    // A header that claims 16 message bytes, injected into a stream that can
    // only ever hold four more extracted bytes.
    let header = [0x42, 0x48, 0x54, 0x4d, 0x00, 0x00, 0x00, 0x10];
    let stream = inject_symbols(&vec![0u8; 48], &split_bytes(&header));
    assert!(matches!(parse_frame(&stream), DecodeOutcome::Truncated));
}

#[test]
fn short_stream_with_magic_is_truncated() {
    // Only the four magic bytes fit: no room for a length field.
    let magic = [0x42, 0x48, 0x54, 0x4d];
    let stream = inject_symbols(&vec![0u8; 16], &split_bytes(&magic));
    assert!(matches!(parse_frame(&stream), DecodeOutcome::Truncated));
}
