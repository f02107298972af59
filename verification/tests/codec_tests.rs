use rust_messaging::codec::encode_frame;
use rust_messaging::codec::decode_frame;
use rust_messaging::codec::EncodeError;
use rust_messaging::codec::DecodeError;
use rust_messaging::DATA_FRAME_LEN;
use rust_messaging::TOKEN_FRAME_LEN;

#[test]
fn frame_round_trip_plain() {
    let frame = encode_frame("hello", DATA_FRAME_LEN).unwrap();
    assert_eq!(frame.len(), DATA_FRAME_LEN);
    assert_eq!(&frame[..5], b"hello");
    assert!(frame[5..].iter().all(|&b| b == 0));
    let text = decode_frame(&frame).unwrap();
    assert_eq!(text, "hello");
}

#[test]
fn frame_round_trip_unicode() {
    let frame = encode_frame("héllo ✓", DATA_FRAME_LEN).unwrap();
    let text = decode_frame(&frame).unwrap();
    assert_eq!(text, "héllo ✓");
}

#[test]
fn frame_exact_capacity_round_trips() {
    let text: String = "x".repeat(DATA_FRAME_LEN);
    let frame = encode_frame(&text, DATA_FRAME_LEN).unwrap();
    assert_eq!(frame.len(), DATA_FRAME_LEN);
    assert_eq!(decode_frame(&frame).unwrap(), text);
}

#[test]
fn frame_one_byte_over_is_rejected() {
    let text: String = "x".repeat(DATA_FRAME_LEN + 1);
    assert_eq!(encode_frame(&text, DATA_FRAME_LEN), Err(EncodeError::Oversize));
}

#[test]
fn all_zero_frame_decodes_empty() {
    let frame = vec![0u8; TOKEN_FRAME_LEN];
    assert_eq!(decode_frame(&frame).unwrap(), "");
}

#[test]
fn invalid_utf8_is_rejected() {
    let mut frame = vec![0u8; TOKEN_FRAME_LEN];
    frame[0] = 0xff;
    frame[1] = 0xfe;
    assert_eq!(decode_frame(&frame), Err(DecodeError::InvalidUtf8));
}

#[test]
fn interior_zero_bytes_survive_decoding() {
    let frame = encode_frame("a\u{0}b", DATA_FRAME_LEN).unwrap();
    assert_eq!(decode_frame(&frame).unwrap(), "a\u{0}b");
}
