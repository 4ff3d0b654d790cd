use telepath::client::{
    check_response, decode_response_frame, frame_request, schema_entry_from_discovery,
    DiscoveryCursor, HostError, TelepathClient,
};
use telepath::framing::{cobs_decode, rzcobs_encode, FrameAccumulator, MAX_FRAME_SIZE};
use telepath::wire::{encode_app_error, AppErrorPayload, PacketType, ResponseStatus, MAX_PAYLOAD_SIZE};

struct NullIo;

#[test]
fn lib_call_raw_rejects_oversized_args() {
    let mut client = TelepathClient::new(NullIo);
    let oversized = vec![0u8; MAX_PAYLOAD_SIZE + 1];
    assert!(matches!(
        client.begin_call(oversized.len()),
        Err(HostError::RequestPayloadTooLarge)
    ));
    // The refused call took no sequence number.
    assert_eq!(client.begin_call(0).unwrap(), 0);
}

#[test]
fn sequence_numbers_increase_and_wrap() {
    let mut client = TelepathClient::new(NullIo);
    assert_eq!(client.begin_call(3).unwrap(), 0);
    assert_eq!(client.begin_call(MAX_PAYLOAD_SIZE).unwrap(), 1);
    for _ in 2..=u16::MAX {
        client.begin_call(0).unwrap();
    }
    assert_eq!(client.begin_call(0).unwrap(), 0);
}

#[test]
fn frame_request_is_cobs_with_delimiter() {
    let framed = frame_request(&[0x01, 0x00, 0x05]);
    assert_eq!(*framed.last().unwrap(), 0x00);
    assert!(framed[..framed.len() - 1].iter().all(|&b| b != 0));
    let mut out = [0u8; 8];
    let m = cobs_decode(&framed[..framed.len() - 1], &mut out).unwrap();
    assert_eq!(&out[..m], &[0x01, 0x00, 0x05]);
}

#[test]
fn recv_step_collects_frame_across_reads() {
    let mut client = TelepathClient::new(NullIo);
    let mut raw = Vec::new();
    assert_eq!(client.recv_step(&mut raw).unwrap(), false);
    client.receive_bytes(&[1, 2]);
    assert_eq!(client.recv_step(&mut raw).unwrap(), false);
    assert_eq!(raw, vec![1, 2]);
    client.receive_bytes(&[3, 0, 9, 9]);
    assert_eq!(client.recv_step(&mut raw).unwrap(), true);
    assert_eq!(raw, vec![1, 2, 3]);
    // The bytes after the delimiter wait for the next frame.
    let mut next = Vec::new();
    client.receive_bytes(&[0]);
    assert_eq!(client.recv_step(&mut next).unwrap(), true);
    assert_eq!(next, vec![9, 9]);
}

#[test]
fn recv_step_rejects_oversized_frame() {
    let mut client = TelepathClient::new(NullIo);
    let mut raw = Vec::new();
    client.receive_bytes(&vec![7u8; MAX_FRAME_SIZE]);
    assert!(matches!(client.recv_step(&mut raw), Err(HostError::FrameTooLarge)));
    assert!(raw.is_empty());
    let mut raw = vec![1u8; MAX_FRAME_SIZE - 2];
    client.receive_bytes(&[5, 5, 0, 4]);
    assert!(matches!(client.recv_step(&mut raw), Err(HostError::FrameTooLarge)));
    let mut fresh = Vec::new();
    client.receive_bytes(&[0]);
    assert_eq!(client.recv_step(&mut fresh).unwrap(), true);
    assert_eq!(fresh, vec![4]);
}

#[test]
fn decode_response_frame_undoes_rzcobs() {
    let payload = [0x02u8, 0x05, 0x00, 0x03, 0xAA, 0xBB, 0xCC];
    let mut enc = [0u8; 32];
    let n = rzcobs_encode(&payload, &mut enc).unwrap();
    let decoded = decode_response_frame(&enc[..n - 1]).unwrap();
    assert_eq!(&decoded[..payload.len()], &payload);
    assert!(matches!(decode_response_frame(&[0x01]), Err(HostError::FramingError)));
}

#[test]
fn check_response_orders_its_checks() {
    assert!(matches!(
        check_response(1, PacketType::Request, 1, ResponseStatus::Success, &[]),
        Err(HostError::FramingError)
    ));
    let big = vec![0u8; MAX_PAYLOAD_SIZE + 1];
    assert!(matches!(
        check_response(1, PacketType::Response, 2, ResponseStatus::Success, &big),
        Err(HostError::ResponsePayloadTooLarge)
    ));
    assert!(matches!(
        check_response(1, PacketType::Response, 2, ResponseStatus::Success, &[]),
        Err(HostError::SeqMismatch { expected: 1, got: 2 })
    ));
    assert_eq!(
        check_response(4, PacketType::Response, 4, ResponseStatus::Success, &[9, 8]).unwrap(),
        vec![9, 8]
    );
    assert!(matches!(
        check_response(4, PacketType::Response, 4, ResponseStatus::SystemError, &[]),
        Err(HostError::SystemError)
    ));
}

#[test]
fn check_response_decodes_app_error() {
    let mut buf = [0u8; 32];
    let n = encode_app_error(&AppErrorPayload { code: 1, message: "divide by zero" }, &mut buf)
        .unwrap();
    match check_response(0, PacketType::Response, 0, ResponseStatus::AppError, &buf[..n]) {
        Err(HostError::AppError { code, message }) => {
            assert_eq!(code, 1);
            assert_eq!(message, "divide by zero");
        }
        other => panic!("unexpected {other:?}"),
    }
    assert!(matches!(
        check_response(0, PacketType::Response, 0, ResponseStatus::AppError, &[0x01, 0x09]),
        Err(HostError::SerdeError(_))
    ));
}

#[test]
fn discovery_entry_becomes_schema_entry() {
    let e = schema_entry_from_discovery("add", 0x1234, &[1, 2], &[3], "a,b");
    assert_eq!(e.name, "add");
    assert_eq!(e.cmd_id, 0x1234);
    assert_eq!(e.args_schema, vec![1, 2]);
    assert_eq!(e.ret_schema, vec![3]);
    assert_eq!(e.arg_names, vec!["a".to_string(), "b".to_string()]);
    let nullary = schema_entry_from_discovery("ping", 1, &[], &[], "");
    assert!(nullary.arg_names.is_empty());
}

#[test]
fn discovery_cursor_pages_until_total() {
    let mut cursor = DiscoveryCursor::new();
    assert_eq!(cursor.offset(), 0);
    cursor.check_page(5, 0).unwrap();
    assert_eq!(cursor.advance(5, 3).unwrap(), true);
    assert_eq!(cursor.offset(), 3);
    cursor.check_page(5, 3).unwrap();
    assert_eq!(cursor.advance(5, 2).unwrap(), false);
}

#[test]
fn discovery_cursor_rejects_misbehaving_pages() {
    let mut cursor = DiscoveryCursor::new();
    assert!(matches!(cursor.check_page(5, 1), Err(HostError::DiscoveryProtocolError)));
    cursor.check_page(5, 0).unwrap();
    assert_eq!(cursor.advance(5, 1).unwrap(), true);
    assert!(matches!(cursor.check_page(6, 1), Err(HostError::DiscoveryProtocolError)));
    assert!(matches!(cursor.advance(5, 0), Err(HostError::DiscoveryStalled)));
    let mut empty = DiscoveryCursor::new();
    empty.check_page(0, 0).unwrap();
    assert_eq!(empty.advance(0, 0).unwrap(), false);
}

#[test]
fn cmd_id_by_name_finds_cached_command() {
    let mut client = TelepathClient::new(NullIo);
    assert_eq!(client.cmd_id_by_name("ping"), None);
    client.cache_entry(schema_entry_from_discovery("ping", 0x0042, &[], &[], ""));
    client.cache_entry(schema_entry_from_discovery("add", 0x0043, &[], &[], "a,b"));
    assert_eq!(client.cmd_id_by_name("ping"), Some(0x0042));
    assert_eq!(client.cmd_id_by_name("add"), Some(0x0043));
    assert_eq!(client.cmd_id_by_name("nope"), None);
    client.reset_schema_cache();
    assert_eq!(client.cmd_id_by_name("ping"), None);
    assert!(client.schema_cache().is_empty());
}

#[test]
fn host_metrics_accumulate_and_reset() {
    let mut client = TelepathClient::new(NullIo);
    client.record_encode(10, 4);
    client.record_decode(u64::MAX, 7);
    client.record_decode(5, 1);
    let snap = client.take_host_metrics();
    assert_eq!(snap.encode_ns, 10);
    assert_eq!(snap.encoded_bytes, 4);
    assert_eq!(snap.decode_ns, u64::MAX);
    assert_eq!(snap.decoded_bytes, 8);
    assert_eq!(snap.sample_count, 2);
    assert_eq!(client.take_host_metrics().sample_count, 0);
}

#[test]
fn framed_request_reaches_the_target_accumulator() {
    let serialized = [0x00u8, 0x07, 0x00, 0x01, 0x02, 0x00];
    let framed = frame_request(&serialized);
    let mut acc: FrameAccumulator<64> = FrameAccumulator::new();
    let mut done = false;
    for &b in &framed {
        done = acc.feed(b);
    }
    assert!(done);
    let frame = acc.frame().expect("a whole frame").to_vec();
    assert_eq!(frame, framed[..framed.len() - 1].to_vec());
    let mut out = [0u8; 64];
    let n = cobs_decode(&frame, &mut out).expect("decodes");
    assert_eq!(&out[..n], &serialized[..]);
}

#[test]
fn target_response_is_found_whole_by_the_host() {
    let response = [0x01u8, 0x00, 0x00, 0x00, 0x04, 0xEF, 0xBE, 0xAD, 0xDE];
    let mut encoded = [0u8; 64];
    let n = rzcobs_encode(&response, &mut encoded).expect("fits");
    let mut client = TelepathClient::new(NullIo);
    let mut pending = encoded[..n].to_vec();
    pending.extend_from_slice(&[5, 6, 0]);
    client.receive_bytes(&pending);
    let mut raw = Vec::new();
    assert_eq!(client.recv_step(&mut raw).unwrap(), true);
    assert_eq!(raw, encoded[..n - 1].to_vec());
    let decoded = decode_response_frame(&raw).expect("decodes");
    assert_eq!(&decoded[..response.len()], &response[..]);
    assert!(decoded[response.len()..].iter().all(|&b| b == 0));
}
