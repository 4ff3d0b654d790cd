use telepath::cmd_id::CMD_ID_DISCOVERY;
use telepath::wire::{
    decode_app_error, encode_app_error, AppErrorPayload, PacketType, ResponseStatus, WireError,
    CMD_ID_METRICS, MAX_PAYLOAD_SIZE,
};

#[test]
fn lib_packet_type_discriminants() {
    assert_eq!(PacketType::Request.to_u8(), 0x01);
    assert_eq!(PacketType::Response.to_u8(), 0x02);
}

#[test]
fn lib_response_status_discriminants() {
    assert_eq!(ResponseStatus::Success.to_u8(), 0x00);
    assert_eq!(ResponseStatus::AppError.to_u8(), 0x01);
    assert_eq!(ResponseStatus::SystemError.to_u8(), 0x02);
}

#[test]
fn lib_cmd_id_discovery_is_zero() {
    assert_eq!(CMD_ID_DISCOVERY, 0x0000);
}

#[test]
fn lib_max_payload_size() {
    assert_eq!(MAX_PAYLOAD_SIZE, 256);
}

#[test]
fn metrics_id_is_reserved_and_nonzero() {
    assert_eq!(CMD_ID_METRICS, 0xFFFE);
}

#[test]
fn packet_type_codes_roundtrip() {
    for b in 0u8..=255 {
        match PacketType::from_u8(b) {
            Some(p) => assert_eq!(p.to_u8(), b),
            None => assert!(b != 0x01 && b != 0x02),
        }
    }
    for b in 0u8..=255 {
        match ResponseStatus::from_u8(b) {
            Some(s) => assert_eq!(s.to_u8(), b),
            None => assert!(b > 0x02),
        }
    }
}

#[test]
fn wire_error_from_postcard_error() {
    let pe = postcard::from_bytes::<u32>(&[]).unwrap_err();
    let we: WireError = pe.clone().into();
    assert_eq!(we, WireError::SerdeError(pe));
}

#[test]
fn app_error_payload_roundtrip() {
    let original = AppErrorPayload { code: 42, message: "sensor not ready" };
    let mut buf = [0u8; 64];
    let n = encode_app_error(&original, &mut buf).expect("encode failed");
    let decoded = decode_app_error(&buf[..n]).expect("decode failed");
    assert_eq!(decoded.code, original.code);
    assert_eq!(decoded.message, original.message);
}

#[test]
fn app_error_payload_wire_layout() {
    let payload = AppErrorPayload { code: 42, message: "hi" };
    let mut buf = [0u8; 16];
    let n = encode_app_error(&payload, &mut buf).expect("encode failed");
    assert_eq!(&buf[..n], &[0x2A, 0x02, b'h', b'i']);
}

#[test]
fn app_error_payload_buffer_too_small() {
    let payload = AppErrorPayload { code: 42, message: "hi" };
    let mut buf = [0u8; 2];
    let err = encode_app_error(&payload, &mut buf).unwrap_err();
    assert!(matches!(err, WireError::SerdeError(_)));
}

#[test]
fn app_error_decode_rejects_truncated_message() {
    assert!(matches!(
        decode_app_error(&[0x2A, 0x05, b'h']),
        Err(WireError::SerdeError(_))
    ));
}

#[test]
fn packet_type_discriminants() {
    assert_eq!(PacketType::Request.to_u8(), 0x01);
    assert_eq!(PacketType::Response.to_u8(), 0x02);
}

#[test]
fn response_status_discriminants() {
    assert_eq!(ResponseStatus::Success.to_u8(), 0x00);
    assert_eq!(ResponseStatus::AppError.to_u8(), 0x01);
    assert_eq!(ResponseStatus::SystemError.to_u8(), 0x02);
}

#[test]
fn cmd_id_discovery_is_zero() {
    assert_eq!(CMD_ID_DISCOVERY, 0x0000);
}

#[test]
fn max_payload_size() {
    assert_eq!(MAX_PAYLOAD_SIZE, 256);
}

#[test]
fn app_error_layout_and_small_buffer() {
    let p = AppErrorPayload { code: 42, message: "hi" };
    let mut out = [0u8; 16];
    assert_eq!(encode_app_error(&p, &mut out), Ok(4));
    assert_eq!(&out[..4], &[0x2A, 0x02, b'h', b'i']);
    let mut small = [0u8; 2];
    assert!(matches!(encode_app_error(&p, &mut small), Err(WireError::SerdeError(_))));
}

#[test]
fn app_error_decode_reads_varint_code_and_ignores_trailing_bytes() {
    // 300 = 0xAC 0x02 as a varint; the byte after the message is not read.
    let p = decode_app_error(&[0xAC, 0x02, 0x02, b'o', b'k', 0xFF]).expect("decode failed");
    assert_eq!(p.code, 300);
    assert_eq!(p.message, "ok");
}

#[test]
fn app_error_decode_refuses_bad_utf8_and_overlong_code() {
    assert!(matches!(
        decode_app_error(&[0x01, 0x01, 0xFF]),
        Err(WireError::SerdeError(_))
    ));
    // A u16 varint is at most three bytes and its third byte at most 3.
    assert!(matches!(
        decode_app_error(&[0xFF, 0xFF, 0x04, 0x00]),
        Err(WireError::SerdeError(_))
    ));
}

#[test]
fn app_error_roundtrip_with_multibyte_code_and_text() {
    let original = AppErrorPayload { code: 0xFFFF, message: "naïve ✓" };
    let mut buf = [0u8; 32];
    let n = encode_app_error(&original, &mut buf).expect("encode failed");
    assert_eq!(&buf[..3], &[0xFF, 0xFF, 0x03]);
    let decoded = decode_app_error(&buf[..n]).expect("decode failed");
    assert_eq!(decoded.code, 0xFFFF);
    assert_eq!(decoded.message, "naïve ✓");
}
