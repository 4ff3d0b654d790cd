use serde_json::Value;
use telepath::data_model::{
    DataModel, JsonNumber, JsonOut, JsonValue, NamedType, NamedValue, NamedVariant, VariantModel,
};
use telepath::json_decode::postcard_to_json;
use telepath::json_encode::{json_to_postcard, ConvertError};

fn from_value(v: &Value) -> JsonValue {
    match v {
        Value::Null => JsonValue::Null,
        Value::Bool(b) => JsonValue::Bool(*b),
        Value::Number(n) => {
            let f = n.as_f64().unwrap_or(0.0);
            JsonValue::Number(JsonNumber {
                as_u64: n.as_u64(),
                as_i64: n.as_i64(),
                f64_bits: f.to_bits(),
                f32_bits: (f as f32).to_bits(),
            })
        }
        Value::String(s) => JsonValue::String(s.clone()),
        Value::Array(items) => JsonValue::Array(items.iter().map(from_value).collect()),
        Value::Object(m) => JsonValue::Object(
            m.iter()
                .map(|(k, v)| (k.clone(), from_value(v)))
                .collect(),
        ),
    }
}

fn to_value(v: &JsonOut) -> Value {
    match v {
        JsonOut::Null => Value::Null,
        JsonOut::Bool(b) => Value::Bool(*b),
        JsonOut::Unsigned(n) => Value::from(*n),
        JsonOut::Signed(n) => Value::from(*n),
        JsonOut::F32Bits(b) => Value::from(f32::from_bits(*b)),
        JsonOut::F64Bits(b) => Value::from(f64::from_bits(*b)),
        JsonOut::Str(s) => Value::String(s.clone()),
        JsonOut::Array(items) => Value::Array(items.iter().map(to_value).collect()),
        JsonOut::Object(members) => {
            let mut m = serde_json::Map::new();
            for (k, v) in members {
                m.insert(k.clone(), to_value(v));
            }
            Value::Object(m)
        }
    }
}

fn json(text: &str) -> Value {
    serde_json::from_str(text).unwrap()
}

fn encode(schema: &NamedType, v: &Value) -> Result<Vec<u8>, ConvertError> {
    json_to_postcard(schema, &from_value(v))
}

fn decode(schema: &NamedType, bytes: &[u8]) -> Result<Value, ConvertError> {
    postcard_to_json(schema, bytes).map(|v| to_value(&v))
}

fn wrap(name: &str, ty: DataModel) -> NamedType {
    NamedType {
        name: name.to_string(),
        ty,
    }
}

fn field(name: &str, ty: DataModel) -> NamedValue {
    NamedValue {
        name: name.to_string(),
        ty: wrap(name, ty),
    }
}

fn roundtrip_schema(schema: &NamedType, json_val: Value) {
    let encoded = encode(schema, &json_val).expect("encode");
    let decoded = decode(schema, &encoded).expect("decode");
    assert_eq!(decoded, json_val, "roundtrip failed for {:?}", json_val);
}

// ── primitives ──────────────────────────────────────────────────────────────

#[test]
fn bool_roundtrip() {
    let s = wrap("bool", DataModel::Bool);
    roundtrip_schema(&s, Value::from(true));
    roundtrip_schema(&s, Value::from(false));
}

#[test]
fn u8_roundtrip() {
    roundtrip_schema(&wrap("u8", DataModel::U8), Value::from(0u8));
    roundtrip_schema(&wrap("u8", DataModel::U8), Value::from(255u8));
}

#[test]
fn u16_roundtrip() {
    roundtrip_schema(&wrap("u16", DataModel::U16), Value::from(1000u16));
}

#[test]
fn u32_roundtrip() {
    let s = wrap("u32", DataModel::U32);
    roundtrip_schema(&s, Value::from(0u32));
    roundtrip_schema(&s, Value::from(0xDEADBEEFu32));
    roundtrip_schema(&s, Value::from(4294967295u64));
}

#[test]
fn u64_roundtrip() {
    roundtrip_schema(&wrap("u64", DataModel::U64), Value::from(u64::MAX));
}

#[test]
fn u128_roundtrip() {
    let s = wrap("u128", DataModel::U128);
    roundtrip_schema(&s, Value::from("0"));
    roundtrip_schema(&s, Value::from("340282366920938463463374607431768211455"));
}

#[test]
fn i32_roundtrip() {
    let s = wrap("i32", DataModel::I32);
    roundtrip_schema(&s, Value::from(-1i32));
    roundtrip_schema(&s, Value::from(42i32));
}

#[test]
fn i128_roundtrip() {
    let s = wrap("i128", DataModel::I128);
    roundtrip_schema(&s, Value::from("-1"));
    roundtrip_schema(&s, Value::from("170141183460469231731687303715884105727"));
}

#[test]
fn f32_roundtrip() {
    let s = wrap("f32", DataModel::F32);
    let v = Value::from(1.5f64); // JSON stores as f64
    let encoded = encode(&s, &v).unwrap();
    let decoded = decode(&s, &encoded).unwrap();
    // f32 precision: decode back to f64 approximation
    let orig = v.as_f64().unwrap() as f32 as f64;
    assert!((decoded.as_f64().unwrap() - orig).abs() < 1e-6);
}

#[test]
fn f64_roundtrip() {
    roundtrip_schema(&wrap("f64", DataModel::F64), Value::from(std::f64::consts::PI));
}

#[test]
fn char_roundtrip() {
    roundtrip_schema(&wrap("char", DataModel::Char), Value::from("A"));
}

#[test]
fn string_roundtrip() {
    roundtrip_schema(&wrap("str", DataModel::String), Value::from("hello world"));
    roundtrip_schema(&wrap("str", DataModel::String), Value::from(""));
}

// ── byte array ──────────────────────────────────────────────────────────────

#[test]
fn byte_array_roundtrip() {
    let s = wrap("bytes", DataModel::ByteArray);
    roundtrip_schema(&s, json("[]"));
    roundtrip_schema(&s, json("[1, 2, 255]"));
}

// ── option ───────────────────────────────────────────────────────────────────

#[test]
fn option_none_roundtrip() {
    let s = wrap("opt", DataModel::Option(Box::new(wrap("u32", DataModel::U32))));
    let encoded = encode(&s, &Value::Null).unwrap();
    assert_eq!(encoded, &[0x00]);
    let decoded = decode(&s, &encoded).unwrap();
    assert_eq!(decoded, Value::Null);
}

#[test]
fn option_some_roundtrip() {
    let s = wrap("opt", DataModel::Option(Box::new(wrap("u32", DataModel::U32))));
    let v = Value::from(42u32);
    let encoded = encode(&s, &v).unwrap();
    assert_eq!(encoded[0], 0x01);
    let decoded = decode(&s, &encoded).unwrap();
    assert_eq!(decoded, v);
}

// ── unit ─────────────────────────────────────────────────────────────────────

#[test]
fn unit_emits_no_bytes() {
    let s = wrap("()", DataModel::Unit);
    let encoded = encode(&s, &Value::Null).unwrap();
    assert_eq!(encoded, Vec::<u8>::new());
}

// ── seq ──────────────────────────────────────────────────────────────────────

#[test]
fn seq_roundtrip() {
    let s = wrap("seq", DataModel::SeqOf(Box::new(wrap("u32", DataModel::U32))));
    roundtrip_schema(&s, json("[]"));
    roundtrip_schema(&s, json("[1, 2, 3]"));
}

// ── tuple ────────────────────────────────────────────────────────────────────

#[test]
fn tuple_roundtrip() {
    let s = wrap(
        "tup",
        DataModel::Tuple(vec![wrap("0", DataModel::U32), wrap("1", DataModel::Bool)]),
    );
    roundtrip_schema(&s, json("[7, true]"));
}

#[test]
fn tuple_single_element_bare_scalar() {
    let s = wrap("tup", DataModel::Tuple(vec![wrap("0", DataModel::U32)]));
    let from_array = encode(&s, &json("[42]")).expect("array encode");
    let from_scalar = encode(&s, &Value::from(42u32)).expect("bare scalar encode");
    assert_eq!(from_array, from_scalar);
}

#[test]
fn tuple_single_element_array_still_works() {
    let s = wrap("tup", DataModel::Tuple(vec![wrap("0", DataModel::U32)]));
    roundtrip_schema(&s, json("[42]"));
}

#[test]
fn tuple_arity_mismatch_is_error() {
    let s = wrap(
        "tup",
        DataModel::Tuple(vec![wrap("0", DataModel::U32), wrap("1", DataModel::Bool)]),
    );
    let err = encode(&s, &json("[1]")).unwrap_err();
    assert!(matches!(err, ConvertError::ArityMismatch { .. }));
}

// ── struct ───────────────────────────────────────────────────────────────────

#[test]
fn struct_roundtrip() {
    let fields = vec![field("x", DataModel::I32), field("y", DataModel::I32)];
    let s = wrap("Point", DataModel::Struct(fields));
    roundtrip_schema(&s, json(r#"{"x": 5, "y": -3}"#));
}

#[test]
fn struct_missing_field_is_error() {
    let fields = vec![field("x", DataModel::I32), field("y", DataModel::I32)];
    let s = wrap("Point", DataModel::Struct(fields));
    let err = encode(&s, &json(r#"{"x": 5}"#)).unwrap_err();
    assert!(matches!(err, ConvertError::MissingField { .. }));
}

// ── native oracle: postcard roundtrip matches schema-driven encode ─────────────

#[test]
fn point_encode_matches_native_postcard() {
    // A struct of two i32 fields is written as the tuple of its fields.
    let native_bytes = postcard::to_allocvec(&(5i32, -3i32)).unwrap();

    let fields = vec![field("x", DataModel::I32), field("y", DataModel::I32)];
    let schema = wrap("Point", DataModel::Struct(fields));
    let json_val = json(r#"{"x": 5, "y": -3}"#);

    let our_bytes = encode(&schema, &json_val).unwrap();
    assert_eq!(our_bytes, native_bytes);
}

#[test]
fn point_decode_matches_native_postcard() {
    let native_bytes = postcard::to_allocvec(&(5i32, -3i32)).unwrap();

    let fields = vec![field("x", DataModel::I32), field("y", DataModel::I32)];
    let schema = wrap("Point", DataModel::Struct(fields));

    let decoded = decode(&schema, &native_bytes).unwrap();
    assert_eq!(decoded, json(r#"{"x": 5, "y": -3}"#));
}

// ── enum ─────────────────────────────────────────────────────────────────────

fn evariant(name: &str, ty: VariantModel) -> NamedVariant {
    NamedVariant {
        name: name.to_string(),
        ty,
    }
}

#[test]
fn unit_enum_roundtrip() {
    let variants = vec![
        evariant("Red", VariantModel::UnitVariant),
        evariant("Green", VariantModel::UnitVariant),
        evariant("Blue", VariantModel::UnitVariant),
    ];
    let s = wrap("Color", DataModel::Enum(variants));
    roundtrip_schema(&s, Value::from("Red"));
    roundtrip_schema(&s, Value::from("Blue"));
}

#[test]
fn newtype_enum_roundtrip() {
    let variants = vec![
        evariant("None", VariantModel::UnitVariant),
        evariant(
            "Some",
            VariantModel::NewtypeVariant(Box::new(wrap("u32", DataModel::U32))),
        ),
    ];
    let s = wrap("OptionEnum", DataModel::Enum(variants));
    roundtrip_schema(&s, Value::from("None"));
    roundtrip_schema(&s, json(r#"{"Some": 42}"#));
}

#[test]
fn unknown_enum_variant_is_error() {
    let s = wrap(
        "E",
        DataModel::Enum(vec![evariant("A", VariantModel::UnitVariant)]),
    );
    let err = encode(&s, &Value::from("B")).unwrap_err();
    assert!(matches!(err, ConvertError::UnknownEnumVariant { .. }));
}

// ── count-guard error cases ──────────────────────────────────────────────────

#[test]
fn seq_decoding_rejects_oversize_count() {
    let s = wrap("seq", DataModel::SeqOf(Box::new(wrap("u8", DataModel::U8))));
    // u64::MAX as a postcard varint, as the full payload: the count guard must
    // reject it because the count is far beyond the bytes that are left.
    let bytes = postcard::to_allocvec::<u64>(&u64::MAX).unwrap();
    let err = decode(&s, &bytes).unwrap_err();
    assert!(
        matches!(err, ConvertError::Postcard(_)),
        "expected Postcard error, got {err:?}"
    );
}

#[test]
fn map_decoding_rejects_oversize_count() {
    let s = wrap(
        "map",
        DataModel::MapOf {
            key: Box::new(wrap("k", DataModel::String)),
            val: Box::new(wrap("v", DataModel::U8)),
        },
    );
    let bytes = postcard::to_allocvec::<u64>(&u64::MAX).unwrap();
    let err = decode(&s, &bytes).unwrap_err();
    assert!(
        matches!(err, ConvertError::Postcard(_)),
        "expected Postcard error, got {err:?}"
    );
}

// ── Schema variant must hard-error ───────────────────────────────────────────

#[test]
fn schema_variant_encode_errors() {
    let s = wrap("meta", DataModel::Schema);
    let err = encode(&s, &Value::Null).unwrap_err();
    assert!(
        matches!(&err, ConvertError::TypeUnsupported { ty, .. } if ty == "Schema"),
        "expected TypeUnsupported, got {err:?}"
    );
}

#[test]
fn schema_variant_decode_errors() {
    let s = wrap("meta", DataModel::Schema);
    // Any byte slice; Schema must error before consuming anything.
    let err = decode(&s, &[0x01, 0x02]).unwrap_err();
    assert!(
        matches!(&err, ConvertError::TypeUnsupported { ty, .. } if ty == "Schema"),
        "expected TypeUnsupported, got {err:?}"
    );
}

// ── error cases ──────────────────────────────────────────────────────────────

#[test]
fn u8_out_of_range_negative() {
    let err = encode(&wrap("u8", DataModel::U8), &Value::from(-1)).unwrap_err();
    assert!(matches!(err, ConvertError::TypeMismatch { .. }));
}

#[test]
fn u8_out_of_range_too_large() {
    let err = encode(&wrap("u8", DataModel::U8), &Value::from(256u32)).unwrap_err();
    assert!(matches!(&err, ConvertError::OutOfRange { ty, .. } if ty == "u8"));
}

#[test]
fn u32_out_of_range_too_large() {
    let err = encode(&wrap("u32", DataModel::U32), &Value::from(5_000_000_000u64)).unwrap_err();
    assert!(matches!(&err, ConvertError::OutOfRange { ty, .. } if ty == "u32"));
}

#[test]
fn type_mismatch_string_for_bool() {
    let err = encode(&wrap("bool", DataModel::Bool), &Value::from("true")).unwrap_err();
    assert!(matches!(err, ConvertError::TypeMismatch { .. }));
}

// ── decoder errors, as postcard reports them ─────────────────────────────────

fn postcard_text(err: ConvertError) -> String {
    match err {
        ConvertError::Postcard(m) => m,
        other => panic!("expected Postcard error, got {other:?}"),
    }
}

#[test]
fn decode_reports_unexpected_end_with_path() {
    let s = wrap("u32", DataModel::U32);
    let err = decode(&s, &[0x80]).unwrap_err();
    assert_eq!(
        postcard_text(err),
        "Hit the end of buffer, expected more data at $"
    );
}

#[test]
fn decode_reports_overlong_varint() {
    let s = wrap("u16", DataModel::U16);
    // The third byte of a u16 varint may hold at most two bits.
    let err = decode(&s, &[0xff, 0xff, 0x04]).unwrap_err();
    assert_eq!(
        postcard_text(err),
        "Found a varint that didn't terminate. Is the usize too big for this platform? at $"
    );
    assert_eq!(decode(&s, &[0xff, 0xff, 0x03]).unwrap(), Value::from(65535u32));
}

#[test]
fn decode_reports_bad_bool_and_option_tag() {
    let b = wrap("bool", DataModel::Bool);
    assert_eq!(
        postcard_text(decode(&b, &[2]).unwrap_err()),
        "Found a bool that wasn't 0 or 1 at $"
    );
    let o = wrap("opt", DataModel::Option(Box::new(wrap("u8", DataModel::U8))));
    assert_eq!(
        postcard_text(decode(&o, &[0x2a]).unwrap_err()),
        "invalid option tag 0x2a at $"
    );
    assert_eq!(
        postcard_text(decode(&o, &[0x02]).unwrap_err()),
        "invalid option tag 0x2 at $"
    );
    assert_eq!(
        postcard_text(decode(&o, &[]).unwrap_err()),
        "unexpected EOF at $"
    );
}

#[test]
fn decode_reports_trailing_bytes_and_bad_utf8() {
    let s = wrap("u8", DataModel::U8);
    assert_eq!(
        postcard_text(decode(&s, &[1, 2, 3]).unwrap_err()),
        "2 trailing bytes after decoding root value"
    );
    let st = wrap("str", DataModel::String);
    assert_eq!(
        postcard_text(decode(&st, &[2, 0xc3, 0x28]).unwrap_err()),
        "Tried to parse invalid utf-8 at $"
    );
}

#[test]
fn decode_paths_name_nested_positions() {
    let s = wrap(
        "outer",
        DataModel::Struct(vec![field(
            "items",
            DataModel::SeqOf(Box::new(wrap("t", DataModel::Tuple(vec![
                wrap("0", DataModel::U8),
                wrap("1", DataModel::Bool),
            ])))),
        )]),
    );
    // One item whose bool is 7.
    let err = decode(&s, &[1, 9, 7]).unwrap_err();
    assert_eq!(
        postcard_text(err),
        "Found a bool that wasn't 0 or 1 at $.items[0].1"
    );
}

#[test]
fn decode_maps_and_enums() {
    let m = wrap(
        "m",
        DataModel::MapOf {
            key: Box::new(wrap("k", DataModel::U8)),
            val: Box::new(wrap("v", DataModel::Bool)),
        },
    );
    assert_eq!(decode(&m, &[2, 1, 1, 2, 0]).unwrap(), json("[[1, true], [2, false]]"));
    let sm = wrap(
        "m",
        DataModel::MapOf {
            key: Box::new(wrap("k", DataModel::String)),
            val: Box::new(wrap("v", DataModel::U8)),
        },
    );
    assert_eq!(decode(&sm, &[1, 1, b'a', 5]).unwrap(), json(r#"{"a": 5}"#));
    let e = wrap(
        "E",
        DataModel::Enum(vec![
            evariant("A", VariantModel::UnitVariant),
            evariant(
                "B",
                VariantModel::TupleVariant(vec![wrap("0", DataModel::I8), wrap("1", DataModel::I16)]),
            ),
        ]),
    );
    assert_eq!(decode(&e, &[1, 0xff, 3]).unwrap(), json(r#"{"B": [-1, -2]}"#));
    assert_eq!(
        postcard_text(decode(&e, &[2]).unwrap_err()),
        "enum discriminant 2 out of range at $"
    );
}

#[test]
fn decode_char_reads_first_character() {
    let c = wrap("c", DataModel::Char);
    assert_eq!(decode(&c, &[2, 0xc3, 0xa9]).unwrap(), Value::from("é"));
    assert_eq!(
        postcard_text(decode(&c, &[5, 1, 2, 3, 4, 5]).unwrap_err()),
        "Found an invalid unicode char at $"
    );
    assert_eq!(
        postcard_text(decode(&c, &[0]).unwrap_err()),
        "Found an invalid unicode char at $"
    );
}

#[test]
fn decode_depth_limit() {
    let mut ty = DataModel::U8;
    for _ in 0..8 {
        ty = DataModel::NewtypeStruct(Box::new(wrap("n", ty)));
    }
    let err = decode(&wrap("deep", ty), &[1]).unwrap_err();
    assert!(matches!(&err, ConvertError::DepthExceeded { path } if path == "$"));
}

#[test]
fn decode_matches_native_postcard_for_wide_integers() {
    let s = wrap("i64", DataModel::I64);
    let bytes = postcard::to_allocvec(&i64::MIN).unwrap();
    assert_eq!(decode(&s, &bytes).unwrap(), Value::from(i64::MIN));
    let s = wrap("i128", DataModel::I128);
    let bytes = postcard::to_allocvec(&i128::MIN).unwrap();
    assert_eq!(
        decode(&s, &bytes).unwrap(),
        Value::from("-170141183460469231731687303715884105728")
    );
    let s = wrap("f32", DataModel::F32);
    let bytes = postcard::to_allocvec(&2.5f32).unwrap();
    assert_eq!(decode(&s, &bytes).unwrap(), Value::from(2.5f64));
}

#[test]
fn decoding_gives_the_canonical_form() {
    // A struct given with its fields out of order comes back in schema order.
    let s = wrap(
        "P",
        DataModel::Struct(vec![field("x", DataModel::I16), field("y", DataModel::U8)]),
    );
    let bytes = encode(&s, &json(r#"{"y": 7, "x": -3}"#)).unwrap();
    let back = postcard_to_json(&s, &bytes).unwrap();
    match &back {
        JsonOut::Object(members) => {
            let keys: Vec<&str> = members.iter().map(|(k, _)| k.as_str()).collect();
            assert_eq!(keys, vec!["x", "y"]);
        }
        _ => panic!("expected an object"),
    }
    assert_eq!(to_value(&back), json(r#"{"x": -3, "y": 7}"#));
    // A bare value of a one-element tuple comes back as a one-item array.
    let t = wrap("t", DataModel::Tuple(vec![wrap("a", DataModel::U32)]));
    let bytes = encode(&t, &Value::from(9u32)).unwrap();
    assert_eq!(decode(&t, &bytes).unwrap(), json("[9]"));
    // A usize comes back as the number it was.
    let u = wrap("usize", DataModel::Usize);
    let bytes = encode(&u, &Value::from(300u64)).unwrap();
    assert_eq!(decode(&u, &bytes).unwrap(), Value::from(300u64));
}

#[test]
fn sequence_of_units_is_refused_on_the_way_back() {
    let s = wrap("v", DataModel::SeqOf(Box::new(wrap("()", DataModel::Unit))));
    let bytes = encode(&s, &json("[null, null]")).unwrap();
    assert_eq!(bytes, vec![2u8]);
    assert!(decode(&s, &bytes).is_err());
}

#[test]
fn one_trailing_byte_is_refused() {
    let s = wrap("u16", DataModel::U16);
    let mut bytes = encode(&s, &Value::from(300u32)).unwrap();
    bytes.push(7);
    match decode(&s, &bytes) {
        Err(ConvertError::Postcard(m)) => {
            assert_eq!(m, "1 trailing bytes after decoding root value")
        }
        other => panic!("unexpected {:?}", other.map(|_| ())),
    }
}
