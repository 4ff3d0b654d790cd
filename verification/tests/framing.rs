use telepath::framing::{
    cobs_decode, cobs_encode, max_rzcobs_encoding_length, rzcobs_decode, rzcobs_encode,
    FrameAccumulator, MAX_FRAME_SIZE,
};
use telepath::wire::{WireError, MAX_PAYLOAD_SIZE};

#[test]
fn cobs_encode_decode_roundtrip() {
    let data = b"hello telepath";
    let mut encoded = [0u8; 64];
    let n = cobs_encode(data, &mut encoded).unwrap();
    assert_eq!(encoded[n - 1], 0x00);
    for &b in &encoded[..n - 1] {
        assert_ne!(b, 0x00);
    }
    let mut decoded = [0u8; 64];
    let m = cobs_decode(&encoded[..n - 1], &mut decoded).unwrap();
    assert_eq!(&decoded[..m], data);
}

#[test]
fn cobs_with_embedded_zeros() {
    let data = [0x00u8, 0x42, 0x00, 0xFF, 0x00];
    let mut encoded = [0u8; 32];
    let n = cobs_encode(&data, &mut encoded).unwrap();
    assert_eq!(encoded[n - 1], 0x00);
    let mut decoded = [0u8; 32];
    let m = cobs_decode(&encoded[..n - 1], &mut decoded).unwrap();
    assert_eq!(&decoded[..m], &data);
}

#[test]
fn cobs_long_run_no_zeros() {
    let data = [0x42u8; 300];
    let mut encoded = [0u8; 512];
    let n = cobs_encode(&data, &mut encoded).unwrap();
    assert_eq!(encoded[n - 1], 0x00);
    let mut decoded = [0u8; 512];
    let m = cobs_decode(&encoded[..n - 1], &mut decoded).unwrap();
    assert_eq!(&decoded[..m], &data[..]);
}

#[test]
fn cobs_max_payload_boundary() {
    let data = [0xABu8; MAX_PAYLOAD_SIZE];
    let mut encoded = [0u8; MAX_FRAME_SIZE];
    let n = cobs_encode(&data, &mut encoded).unwrap();
    assert!(n <= MAX_FRAME_SIZE);
    let mut decoded = [0u8; MAX_FRAME_SIZE];
    let m = cobs_decode(&encoded[..n - 1], &mut decoded).unwrap();
    assert_eq!(&decoded[..m], &data[..]);
}

#[test]
fn cobs_encode_overflow_returns_error() {
    let data = b"hello";
    let mut tiny = [0u8; 1];
    assert!(matches!(cobs_encode(data, &mut tiny), Err(WireError::PayloadTooLarge)));
}

#[test]
fn cobs_decode_malformed_returns_error() {
    let bad = [0x00u8];
    let mut dst = [0u8; 16];
    assert!(matches!(cobs_decode(&bad, &mut dst), Err(WireError::FramingError)));
}

#[test]
fn cobs_decode_into_too_small_buffer_fails() {
    let data = b"hello";
    let mut encoded = [0u8; 16];
    let n = cobs_encode(data, &mut encoded).unwrap();
    let mut small = [0u8; 3];
    assert!(matches!(cobs_decode(&encoded[..n - 1], &mut small), Err(WireError::FramingError)));
}

#[test]
fn accumulator_basic() {
    let mut acc: FrameAccumulator<64> = FrameAccumulator::new();
    let data = b"ping";
    let mut encoded = [0u8; 16];
    let n = cobs_encode(data, &mut encoded).unwrap();
    let mut complete = false;
    for &b in &encoded[..n] {
        complete = acc.feed(b);
    }
    assert!(complete);
    let frame = acc.frame().unwrap();
    let mut decoded = [0u8; 16];
    let m = cobs_decode(frame, &mut decoded).unwrap();
    assert_eq!(&decoded[..m], data);
}

#[test]
fn accumulator_reset_allows_second_frame() {
    let mut acc: FrameAccumulator<64> = FrameAccumulator::new();
    let data1 = b"first";
    let data2 = b"second";
    let mut enc = [0u8; 32];
    let n = cobs_encode(data1, &mut enc).unwrap();
    for &b in &enc[..n] {
        acc.feed(b);
    }
    acc.reset();
    let n = cobs_encode(data2, &mut enc).unwrap();
    let mut complete = false;
    for &b in &enc[..n] {
        complete = acc.feed(b);
    }
    assert!(complete);
    let frame = acc.frame().unwrap();
    let mut decoded = [0u8; 32];
    let m = cobs_decode(frame, &mut decoded).unwrap();
    assert_eq!(&decoded[..m], data2);
}

#[test]
fn accumulator_overflow_returns_none() {
    let mut acc: FrameAccumulator<4> = FrameAccumulator::new();
    for _ in 0..5 {
        acc.feed(0x42);
    }
    acc.feed(0x00);
    assert!(acc.frame().is_none());
}

#[test]
fn accumulator_empty_frame_is_none_and_default_is_empty() {
    let mut acc: FrameAccumulator<8> = FrameAccumulator::default();
    assert!(acc.frame().is_none());
    assert!(acc.feed(0x00));
    assert!(acc.frame().is_none());
    assert!(!acc.feed(0x11));
    assert_eq!(acc.frame(), Some(&[0x11u8][..]));
}

#[test]
fn max_frame_size_covers_max_payload() {
    assert!(MAX_FRAME_SIZE >= MAX_PAYLOAD_SIZE + 4);
}

#[test]
fn rzcobs_encode_decode_roundtrip() {
    let data = b"hello telepath";
    let mut encoded = [0u8; 64];
    let n = rzcobs_encode(data, &mut encoded).unwrap();
    assert_eq!(encoded[n - 1], 0x00);
    let mut decoded = [0u8; 64];
    let m = rzcobs_decode(&encoded[..n - 1], &mut decoded).unwrap();
    assert_eq!(&decoded[..data.len()], data.as_slice());
    assert!(decoded[data.len()..m].iter().all(|&b| b == 0x00));
}

#[test]
fn rzcobs_with_embedded_zeros() {
    let data = [0x00u8, 0x42, 0x00, 0xFF, 0x00];
    let mut encoded = [0u8; 32];
    let n = rzcobs_encode(&data, &mut encoded).unwrap();
    assert_eq!(encoded[n - 1], 0x00);
    let mut decoded = [0u8; 32];
    let m = rzcobs_decode(&encoded[..n - 1], &mut decoded).unwrap();
    assert_eq!(&decoded[..data.len()], &data);
    assert!(decoded[data.len()..m].iter().all(|&b| b == 0x00));
}

#[test]
fn rzcobs_long_run_no_zeros() {
    let data = [0x42u8; 200];
    let mut encoded = [0u8; 512];
    let n = rzcobs_encode(&data, &mut encoded).unwrap();
    assert_eq!(encoded[n - 1], 0x00);
    let mut decoded = [0u8; 512];
    let m = rzcobs_decode(&encoded[..n - 1], &mut decoded).unwrap();
    assert_eq!(&decoded[..data.len()], &data[..]);
    assert!(decoded[data.len()..m].iter().all(|&b| b == 0x00));
}

#[test]
fn rzcobs_max_payload_boundary() {
    let data = [0xABu8; MAX_PAYLOAD_SIZE];
    let mut encoded = [0u8; MAX_FRAME_SIZE];
    let n = rzcobs_encode(&data, &mut encoded).unwrap();
    assert!(n <= MAX_FRAME_SIZE);
    let mut decoded = [0u8; MAX_FRAME_SIZE];
    let m = rzcobs_decode(&encoded[..n - 1], &mut decoded).unwrap();
    assert_eq!(&decoded[..data.len()], &data[..]);
    assert!(decoded[data.len()..m].iter().all(|&b| b == 0x00));
}

#[test]
fn rzcobs_encode_overflow_returns_error() {
    let data = b"hello";
    let mut tiny = [0u8; 1];
    assert!(matches!(rzcobs_encode(data, &mut tiny), Err(WireError::PayloadTooLarge)));
}

#[test]
fn rzcobs_decode_malformed_returns_error() {
    let bad = [0x01u8];
    let mut dst = [0u8; 16];
    assert!(matches!(rzcobs_decode(&bad, &mut dst), Err(WireError::FramingError)));
}

#[test]
fn rzcobs_max_frame_size_covers_max_payload() {
    assert!(MAX_FRAME_SIZE >= max_rzcobs_encoding_length(MAX_PAYLOAD_SIZE) + 1);
}

#[test]
fn rzcobs_max_encoding_length_values() {
    assert_eq!(max_rzcobs_encoding_length(0), 1);
    assert_eq!(max_rzcobs_encoding_length(7), 9);
    assert_eq!(max_rzcobs_encoding_length(8), 11);
    assert_eq!(max_rzcobs_encoding_length(256), 294);
}

#[test]
fn rzcobs_decode_known_vectors() {
    // Encoded forms from the rzCOBS reference vectors.
    let cases: [(&[u8], &[u8]); 5] = [
        (&[0x7f], &[0, 0, 0, 0, 0, 0, 0]),
        (&[0x01, 0x7e], &[0x01, 0, 0, 0, 0, 0, 0]),
        (&[0x01, 0x7d], &[0, 0x01, 0, 0, 0, 0, 0]),
        (
            &[0x11, 0x22, 0x33, 0x44, 0x55, 0x66, 0x77, 0x80],
            &[0x11, 0x22, 0x33, 0x44, 0x55, 0x66, 0x77, 0x00],
        ),
        (&[0x7f, 0xff, 0x3f], &[0, 0, 0, 0, 0, 0, 0, 0, 0, 0, 0, 0, 0, 0xff]),
    ];
    for (enc, dec) in cases {
        let mut out = [0u8; 32];
        let m = rzcobs_decode(enc, &mut out).unwrap();
        assert_eq!(&out[..m], dec);
    }
}

#[test]
fn rzcobs_decode_zero_byte_and_short_buffer_fail() {
    let mut out = [0u8; 32];
    assert!(matches!(rzcobs_decode(&[0x00], &mut out), Err(WireError::FramingError)));
    let mut short = [0u8; 6];
    assert!(matches!(rzcobs_decode(&[0x7f], &mut short), Err(WireError::FramingError)));
    let mut empty = [0u8; 0];
    assert_eq!(rzcobs_decode(&[], &mut empty), Ok(0));
}
