use telepath::cli::{
    effective_transport, elem_name, parse_hex_u64, parse_transport, transport_target,
    TransportArgs, TransportKind, TransportSpec, TransportTarget,
};
use telepath::text::push_decimal;

#[test]
fn parse_hex_u64_accepts_prefixes() {
    assert_eq!(parse_hex_u64("0x20000000"), Ok(0x2000_0000));
    assert_eq!(parse_hex_u64("0X1f"), Ok(0x1f));
    assert_eq!(parse_hex_u64("ff"), Ok(0xff));
    assert_eq!(parse_hex_u64("+10"), Ok(0x10));
    assert_eq!(parse_hex_u64("0xFFFFFFFFFFFFFFFF"), Ok(u64::MAX));
}

#[test]
fn parse_hex_u64_rejects_bad_input() {
    let e = parse_hex_u64("0xZZ").unwrap_err();
    assert!(e.starts_with("invalid hex u64 '0xZZ': "), "{e}");
    assert!(parse_hex_u64("").is_err());
    assert!(parse_hex_u64("0x").is_err());
    assert!(parse_hex_u64("0x1FFFFFFFFFFFFFFFF").is_err());
    assert!(parse_hex_u64("-1").is_err());
}

#[test]
fn parse_transport_variants() {
    assert_eq!(parse_transport("loopback"), Ok(TransportSpec::Loopback));
    assert_eq!(parse_transport("rtt"), Ok(TransportSpec::Rtt));
    assert_eq!(
        parse_transport("serial:/dev/ttyACM0"),
        Ok(TransportSpec::Serial("/dev/ttyACM0".to_string()))
    );
    assert_eq!(
        parse_transport("serial:"),
        Err("transport 'serial:' requires a non-empty path (got 'serial:')".to_string())
    );
    assert_eq!(
        parse_transport("usb"),
        Err("unknown transport 'usb': expected 'loopback' | 'rtt' | 'serial:<path>'".to_string())
    );
}

#[test]
fn port_implies_serial() {
    assert_eq!(effective_transport(TransportKind::Rtt, true), TransportKind::Serial);
    assert_eq!(effective_transport(TransportKind::Rtt, false), TransportKind::Rtt);
    assert_eq!(effective_transport(TransportKind::Serial, false), TransportKind::Serial);
}

#[test]
fn elem_name_falls_back_to_position() {
    assert_eq!(elem_name(0, ""), "arg0");
    assert_eq!(elem_name(12, "3"), "arg12");
    assert_eq!(elem_name(1, "amount"), "amount");
    assert_eq!(elem_name(2, "-1"), "-1");
}

#[test]
fn push_decimal_formats_numbers() {
    let mut s = String::from("n=");
    push_decimal(&mut s, 0);
    push_decimal(&mut s, 1907);
    assert_eq!(s, "n=01907");
}

fn transport_args(kind: TransportKind, port: Option<&str>) -> TransportArgs {
    TransportArgs {
        transport: kind,
        chip: "nRF52840_xxAA".to_string(),
        rtt_control_block_addr: 0x2000_0000,
        no_reset: false,
        port: port.map(|p| p.to_string()),
        baud: 115_200,
    }
}

#[test]
fn transport_target_follows_the_options() {
    match transport_target(&transport_args(TransportKind::Rtt, None)) {
        Ok(TransportTarget::Rtt { chip, control_block_addr, reset }) => {
            assert_eq!(chip, "nRF52840_xxAA");
            assert_eq!(control_block_addr, 0x2000_0000);
            assert!(reset);
        }
        _ => panic!("expected RTT"),
    }
    match transport_target(&transport_args(TransportKind::Rtt, Some("/dev/ttyACM0"))) {
        Ok(TransportTarget::Serial { port, baud }) => {
            assert_eq!(port, "/dev/ttyACM0");
            assert_eq!(baud, 115_200);
        }
        _ => panic!("expected serial"),
    }
    match transport_target(&transport_args(TransportKind::Serial, None)) {
        Err(m) => assert_eq!(m, "--port is required for serial transport"),
        Ok(_) => panic!("expected an error"),
    }
    let mut args = transport_args(TransportKind::Rtt, None);
    args.no_reset = true;
    assert_eq!(args.effective_kind(), TransportKind::Rtt);
    match transport_target(&args) {
        Ok(TransportTarget::Rtt { reset, .. }) => assert!(!reset),
        _ => panic!("expected RTT"),
    }
}
