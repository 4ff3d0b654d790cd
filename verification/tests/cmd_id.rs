use telepath::cmd_id::{
    derive_cmd_id, fnv1a_16, fnv1a_32, fnv1a_32_continue, xor_fold, CMD_ID_DISCOVERY,
    CMD_ID_FIELD_SEP, FNV_OFFSET_BASIS,
};

#[test]
fn fnv1a_16_empty() {
    assert_eq!(fnv1a_16(b""), 0x1cd9);
}

#[test]
fn fnv1a_32_known_vector_a() {
    assert_eq!(fnv1a_32(b"a"), 0xe40c292c);
}

#[test]
fn fnv1a_16_known_vector_a() {
    assert_eq!(fnv1a_16(b"a"), 0xcd20);
}

#[test]
fn fnv1a_32_known_vector_foobar() {
    assert_eq!(fnv1a_32(b"foobar"), 0xbf9cf968);
}

#[test]
fn fnv1a_16_known_vector_foobar() {
    assert_eq!(fnv1a_16(b"foobar"), 0x46f4);
}

#[test]
fn derive_cmd_id_ping_smoke() {
    let id = derive_cmd_id("ping", "()", "u32");
    assert_ne!(id, CMD_ID_DISCOVERY);
    assert_eq!(id, derive_cmd_id("ping", "()", "u32"));
}

#[test]
fn derive_cmd_id_differs_on_name() {
    assert_ne!(
        derive_cmd_id("ping", "()", "u32"),
        derive_cmd_id("pong", "()", "u32"),
    );
}

#[test]
fn derive_cmd_id_differs_on_ret() {
    assert_ne!(derive_cmd_id("f", "()", "u32"), derive_cmd_id("f", "()", "u64"));
}

#[test]
fn derive_cmd_id_differs_on_args() {
    assert_ne!(
        derive_cmd_id("f", "(u8,)", "u32"),
        derive_cmd_id("f", "(u16,)", "u32"),
    );
}

#[test]
fn derive_cmd_id_never_returns_discovery_id() {
    let cases = [
        ("ping", "()", "u32"),
        ("get_value", "(u8,)", "u32"),
        ("set_value", "(u8, u16)", "Result<(), ()>"),
        ("", "", ""),
        ("a", "b", "c"),
    ];
    for (name, args, ret) in cases {
        assert_ne!(
            derive_cmd_id(name, args, ret),
            CMD_ID_DISCOVERY,
            "({name:?}, {args:?}, {ret:?}) mapped to reserved CMD_ID_DISCOVERY",
        );
    }
}

#[test]
fn const_context() {
    let a: u16 = fnv1a_16(b"x");
    let b: u16 = derive_cmd_id("f", "()", "u32");
    assert_eq!(a, fnv1a_16(b"x"));
    assert_ne!(b, CMD_ID_DISCOVERY);
}

fn encode_decimal(mut n: u32, buf: &mut [u8; 10]) -> usize {
    if n == 0 {
        buf[0] = b'0';
        return 1;
    }
    let mut end = 0;
    while n > 0 {
        buf[end] = b'0' + (n % 10) as u8;
        end += 1;
        n /= 10;
    }
    buf[..end].reverse();
    end
}

#[test]
fn derive_cmd_id_salt_rehash_when_raw_is_zero() {
    for i in 0u32..200_000 {
        let mut buf = [0u8; 10];
        let len = encode_decimal(i, &mut buf);
        let h = fnv1a_32_continue(FNV_OFFSET_BASIS, &buf[..len]);
        let h = fnv1a_32_continue(h, &[CMD_ID_FIELD_SEP]);
        let h = fnv1a_32_continue(h, b"()");
        let h = fnv1a_32_continue(h, &[CMD_ID_FIELD_SEP]);
        let h = fnv1a_32_continue(h, b"u32");
        if xor_fold(h) == CMD_ID_DISCOVERY {
            let salted = xor_fold(fnv1a_32_continue(h, &[0xFF]));
            assert_ne!(salted, CMD_ID_DISCOVERY);
            let name = std::str::from_utf8(&buf[..len]).unwrap();
            assert_ne!(derive_cmd_id(name, "()", "u32"), CMD_ID_DISCOVERY);
            return;
        }
    }
}
