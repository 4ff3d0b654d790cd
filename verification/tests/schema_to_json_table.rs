use serde_json::Value;
use telepath::data_model::{DataModel, JsonOut, NamedType, NamedValue, NamedVariant, VariantModel};
use telepath::schema_json::named_type_to_json_schema;

fn to_value(v: &JsonOut) -> Value {
    match v {
        JsonOut::Null => Value::Null,
        JsonOut::Bool(b) => Value::Bool(*b),
        JsonOut::Unsigned(n) => Value::from(*n),
        JsonOut::Signed(n) => Value::from(*n),
        JsonOut::F32Bits(b) => Value::from(f32::from_bits(*b)),
        JsonOut::F64Bits(b) => Value::from(f64::from_bits(*b)),
        JsonOut::Str(s) => Value::String(s.clone()),
        JsonOut::Array(items) => Value::Array(items.iter().map(to_value).collect()),
        JsonOut::Object(members) => {
            let mut m = serde_json::Map::new();
            for (k, v) in members {
                m.insert(k.clone(), to_value(v));
            }
            Value::Object(m)
        }
    }
}

fn expect(text: &str) -> Value {
    serde_json::from_str(text).unwrap()
}

fn wrap(name: &str, ty: DataModel) -> NamedType {
    NamedType {
        name: name.to_string(),
        ty,
    }
}

fn field(name: &str, ty: DataModel) -> NamedValue {
    NamedValue {
        name: name.to_string(),
        ty: wrap(name, ty),
    }
}

fn variant(name: &str, ty: VariantModel) -> NamedVariant {
    NamedVariant {
        name: name.to_string(),
        ty,
    }
}

fn schema(ty: DataModel) -> Value {
    to_value(&named_type_to_json_schema(&wrap("_", ty)))
}

#[test]
fn bool_maps_to_boolean() {
    assert_eq!(schema(DataModel::Bool), expect(r#"{"type": "boolean"}"#));
}

#[test]
fn u8_is_bounded_integer() {
    assert_eq!(
        schema(DataModel::U8),
        expect(r#"{"type": "integer", "minimum": 0, "maximum": 255}"#)
    );
}

#[test]
fn u16_is_bounded_integer() {
    assert_eq!(
        schema(DataModel::U16),
        expect(r#"{"type": "integer", "minimum": 0, "maximum": 65535}"#)
    );
}

#[test]
fn u32_is_bounded_integer() {
    assert_eq!(
        schema(DataModel::U32),
        expect(r#"{"type": "integer", "minimum": 0, "maximum": 4294967295}"#)
    );
}

#[test]
fn u64_is_bounded_integer() {
    assert_eq!(
        schema(DataModel::U64),
        expect(r#"{"type": "integer", "minimum": 0, "maximum": 18446744073709551615}"#)
    );
}

#[test]
fn u128_is_decimal_string() {
    assert_eq!(
        schema(DataModel::U128),
        expect(r#"{"type": "string", "pattern": "^[0-9]+$"}"#)
    );
}

#[test]
fn usize_same_as_u64() {
    assert_eq!(
        schema(DataModel::Usize),
        expect(r#"{"type": "integer", "minimum": 0, "maximum": 18446744073709551615}"#)
    );
}

#[test]
fn i8_is_bounded_integer() {
    assert_eq!(
        schema(DataModel::I8),
        expect(r#"{"type": "integer", "minimum": -128, "maximum": 127}"#)
    );
}

#[test]
fn i16_is_bounded_integer() {
    assert_eq!(
        schema(DataModel::I16),
        expect(r#"{"type": "integer", "minimum": -32768, "maximum": 32767}"#)
    );
}

#[test]
fn i32_is_bounded_integer() {
    assert_eq!(
        schema(DataModel::I32),
        expect(r#"{"type": "integer", "minimum": -2147483648, "maximum": 2147483647}"#)
    );
}

#[test]
fn i64_is_bounded_integer() {
    let mut expected = expect(r#"{"type": "integer"}"#);
    expected["minimum"] = Value::from(i64::MIN);
    expected["maximum"] = Value::from(i64::MAX);
    assert_eq!(schema(DataModel::I64), expected);
}

#[test]
fn i128_is_decimal_string() {
    assert_eq!(
        schema(DataModel::I128),
        expect(r#"{"type": "string", "pattern": "^-?[0-9]+$"}"#)
    );
}

#[test]
fn isize_same_as_i64() {
    let mut expected = expect(r#"{"type": "integer"}"#);
    expected["minimum"] = Value::from(i64::MIN);
    expected["maximum"] = Value::from(i64::MAX);
    assert_eq!(schema(DataModel::Isize), expected);
}

#[test]
fn f32_is_number() {
    assert_eq!(schema(DataModel::F32), expect(r#"{"type": "number"}"#));
}

#[test]
fn f64_is_number() {
    assert_eq!(schema(DataModel::F64), expect(r#"{"type": "number"}"#));
}

#[test]
fn char_is_single_char_string() {
    assert_eq!(
        schema(DataModel::Char),
        expect(r#"{"type": "string", "minLength": 1, "maxLength": 1}"#)
    );
}

#[test]
fn string_is_string() {
    assert_eq!(schema(DataModel::String), expect(r#"{"type": "string"}"#));
}

#[test]
fn byte_array_is_u8_array() {
    assert_eq!(
        schema(DataModel::ByteArray),
        expect(r#"{"type": "array", "items": {"type": "integer", "minimum": 0, "maximum": 255}}"#)
    );
}

#[test]
fn option_wraps_in_one_of_with_null() {
    let inner = wrap("u32", DataModel::U32);
    let s = schema(DataModel::Option(Box::new(inner)));
    assert_eq!(
        s,
        expect(
            r#"{"oneOf": [
                {"type": "integer", "minimum": 0, "maximum": 4294967295},
                {"type": "null"}
            ]}"#
        )
    );
}

#[test]
fn unit_is_null() {
    assert_eq!(schema(DataModel::Unit), expect(r#"{"type": "null"}"#));
}

#[test]
fn unit_struct_is_null() {
    assert_eq!(schema(DataModel::UnitStruct), expect(r#"{"type": "null"}"#));
}

#[test]
fn newtype_struct_is_transparent() {
    let inner = wrap("u32", DataModel::U32);
    assert_eq!(
        schema(DataModel::NewtypeStruct(Box::new(inner))),
        expect(r#"{"type": "integer", "minimum": 0, "maximum": 4294967295}"#)
    );
}

#[test]
fn seq_is_typed_array() {
    let inner = wrap("bool", DataModel::Bool);
    assert_eq!(
        schema(DataModel::SeqOf(Box::new(inner))),
        expect(r#"{"type": "array", "items": {"type": "boolean"}}"#)
    );
}

#[test]
fn tuple_is_prefix_items_array() {
    let elems = vec![wrap("0", DataModel::U32), wrap("1", DataModel::Bool)];
    assert_eq!(
        schema(DataModel::Tuple(elems)),
        expect(
            r#"{
                "type": "array",
                "prefixItems": [
                    {"type": "integer", "minimum": 0, "maximum": 4294967295},
                    {"type": "boolean"}
                ],
                "minItems": 2,
                "maxItems": 2
            }"#
        )
    );
}

#[test]
fn tuple_struct_is_prefix_items_array() {
    let elems = vec![wrap("0", DataModel::I32)];
    assert_eq!(
        schema(DataModel::TupleStruct(elems)),
        expect(
            r#"{
                "type": "array",
                "prefixItems": [{"type": "integer", "minimum": -2147483648, "maximum": 2147483647}],
                "minItems": 1,
                "maxItems": 1
            }"#
        )
    );
}

#[test]
fn map_with_string_key_is_object() {
    let key = wrap("String", DataModel::String);
    let val = wrap("u32", DataModel::U32);
    assert_eq!(
        schema(DataModel::MapOf {
            key: Box::new(key),
            val: Box::new(val)
        }),
        expect(
            r#"{"type": "object", "additionalProperties": {"type": "integer", "minimum": 0, "maximum": 4294967295}}"#
        )
    );
}

#[test]
fn map_with_non_string_key_is_pair_array() {
    let key = wrap("u32", DataModel::U32);
    let val = wrap("bool", DataModel::Bool);
    assert_eq!(
        schema(DataModel::MapOf {
            key: Box::new(key),
            val: Box::new(val)
        }),
        expect(
            r#"{
                "type": "array",
                "items": {
                    "type": "array",
                    "prefixItems": [
                        {"type": "integer", "minimum": 0, "maximum": 4294967295},
                        {"type": "boolean"}
                    ],
                    "minItems": 2,
                    "maxItems": 2
                }
            }"#
        )
    );
}

#[test]
fn struct_is_object_with_properties_and_required() {
    let fields = vec![field("x", DataModel::I32), field("y", DataModel::I32)];
    let s = schema(DataModel::Struct(fields));
    assert_eq!(
        s,
        expect(
            r#"{
                "type": "object",
                "properties": {
                    "x": {"type": "integer", "minimum": -2147483648, "maximum": 2147483647},
                    "y": {"type": "integer", "minimum": -2147483648, "maximum": 2147483647}
                },
                "required": ["x", "y"],
                "additionalProperties": false
            }"#
        )
    );
}

#[test]
fn enum_all_unit_variants_is_string_enum() {
    let variants = vec![
        variant("Red", VariantModel::UnitVariant),
        variant("Green", VariantModel::UnitVariant),
        variant("Blue", VariantModel::UnitVariant),
    ];
    assert_eq!(
        schema(DataModel::Enum(variants)),
        expect(r#"{"type": "string", "enum": ["Red", "Green", "Blue"]}"#)
    );
}

#[test]
fn enum_mixed_variants_is_one_of() {
    let variants = vec![
        variant("None", VariantModel::UnitVariant),
        variant(
            "Some",
            VariantModel::NewtypeVariant(Box::new(wrap("u32", DataModel::U32))),
        ),
    ];
    let s = schema(DataModel::Enum(variants));
    assert_eq!(
        s,
        expect(
            r#"{
                "oneOf": [
                    {"type": "string", "const": "None"},
                    {
                        "type": "object",
                        "properties": {
                            "Some": {"type": "integer", "minimum": 0, "maximum": 4294967295}
                        },
                        "required": ["Some"],
                        "additionalProperties": false
                    }
                ]
            }"#
        )
    );
}

#[test]
fn schema_variant_is_opaque_object() {
    let s = schema(DataModel::Schema);
    assert_eq!(s["type"], Value::from("object"));
}

#[test]
fn depth_guard_does_not_stack_overflow() {
    // Build a deeply nested Option<Option<Option<...>>> beyond the depth limit.
    let mut ty = DataModel::U32;
    for _ in 0..20 {
        ty = DataModel::Option(Box::new(wrap("_", ty)));
    }
    // Should not panic; truncates at depth 8
    let _ = schema(ty);
}

#[test]
fn depth_guard_truncates_at_eight_levels() {
    let mut ty = DataModel::U32;
    for _ in 0..9 {
        ty = DataModel::NewtypeStruct(Box::new(wrap("_", ty)));
    }
    assert_eq!(
        schema(ty),
        expect(r#"{"type": "object", "description": "schema depth exceeded"}"#)
    );
}

#[test]
fn struct_variant_wraps_closed_object() {
    let variants = vec![variant(
        "Move",
        VariantModel::StructVariant(vec![field("dx", DataModel::I8)]),
    ), variant(
        "Pair",
        VariantModel::TupleVariant(vec![wrap("0", DataModel::Bool), wrap("1", DataModel::Unit)]),
    )];
    assert_eq!(
        schema(DataModel::Enum(variants)),
        expect(
            r#"{"oneOf": [
                {"type": "object",
                 "properties": {"Move": {"type": "object",
                    "properties": {"dx": {"type": "integer", "minimum": -128, "maximum": 127}},
                    "required": ["dx"], "additionalProperties": false}},
                 "required": ["Move"], "additionalProperties": false},
                {"type": "object",
                 "properties": {"Pair": {"type": "array",
                    "prefixItems": [{"type": "boolean"}, {"type": "null"}],
                    "minItems": 2, "maxItems": 2}},
                 "required": ["Pair"], "additionalProperties": false}
            ]}"#
        )
    );
}
