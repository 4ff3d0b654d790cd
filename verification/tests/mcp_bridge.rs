use serde_json::Value;
use telepath::data_model::{DataModel, JsonNumber, JsonOut, JsonValue, NamedType};
use telepath::mcp::{build_input_schema, named_to_positional, prompt_text};
use telepath::schema_json::named_type_to_json_schema;

fn to_value(v: &JsonOut) -> Value {
    match v {
        JsonOut::Null => Value::Null,
        JsonOut::Bool(b) => Value::Bool(*b),
        JsonOut::Unsigned(n) => Value::from(*n),
        JsonOut::Signed(n) => Value::from(*n),
        JsonOut::F32Bits(b) => Value::from(f32::from_bits(*b)),
        JsonOut::F64Bits(b) => Value::from(f64::from_bits(*b)),
        JsonOut::Str(s) => Value::String(s.clone()),
        JsonOut::Array(items) => Value::Array(items.iter().map(to_value).collect()),
        JsonOut::Object(members) => {
            let mut m = serde_json::Map::new();
            for (k, v) in members {
                m.insert(k.clone(), to_value(v));
            }
            Value::Object(m)
        }
    }
}

fn from_value(v: &Value) -> JsonValue {
    match v {
        Value::Null => JsonValue::Null,
        Value::Bool(b) => JsonValue::Bool(*b),
        Value::Number(n) => {
            let f = n.as_f64().unwrap_or(0.0);
            JsonValue::Number(JsonNumber {
                as_u64: n.as_u64(),
                as_i64: n.as_i64(),
                f64_bits: f.to_bits(),
                f32_bits: (f as f32).to_bits(),
            })
        }
        Value::String(s) => JsonValue::String(s.clone()),
        Value::Array(items) => JsonValue::Array(items.iter().map(from_value).collect()),
        Value::Object(m) => JsonValue::Object(
            m.iter()
                .map(|(k, v)| (k.clone(), from_value(v)))
                .collect(),
        ),
    }
}

fn back(v: &JsonValue) -> Value {
    match v {
        JsonValue::Null => Value::Null,
        JsonValue::Bool(b) => Value::Bool(*b),
        JsonValue::Number(n) => match (n.as_u64, n.as_i64) {
            (Some(u), _) => Value::from(u),
            (None, Some(i)) => Value::from(i),
            _ => Value::from(f64::from_bits(n.f64_bits)),
        },
        JsonValue::String(s) => Value::String(s.clone()),
        JsonValue::Array(items) => Value::Array(items.iter().map(back).collect()),
        JsonValue::Object(members) => {
            let mut m = serde_json::Map::new();
            for (k, v) in members {
                m.insert(k.clone(), back(v));
            }
            Value::Object(m)
        }
    }
}

fn json(text: &str) -> Value {
    serde_json::from_str(text).unwrap()
}

fn raw(text: &str) -> JsonOut {
    fn build(v: &Value) -> JsonOut {
        match v {
            Value::Null => JsonOut::Null,
            Value::Bool(b) => JsonOut::Bool(*b),
            Value::Number(n) => match (n.as_u64(), n.as_i64()) {
                (Some(u), _) => JsonOut::Unsigned(u),
                (None, Some(i)) => JsonOut::Signed(i),
                _ => JsonOut::F64Bits(n.as_f64().unwrap().to_bits()),
            },
            Value::String(s) => JsonOut::Str(s.clone()),
            Value::Array(items) => JsonOut::Array(items.iter().map(build).collect()),
            Value::Object(m) => JsonOut::Object(
                m.iter().map(|(k, v)| (k.clone(), build(v))).collect(),
            ),
        }
    }
    build(&json(text))
}

fn object(v: &Value) -> Vec<(String, JsonValue)> {
    match from_value(v) {
        JsonValue::Object(members) => members,
        _ => panic!("expected an object"),
    }
}

#[test]
fn server_build_input_schema_zero_args_returns_empty_object() {
    let schema = build_input_schema(&raw(r#"{"type": "null"}"#), &[]);
    assert_eq!(to_value(&schema), json(r#"{"type": "object"}"#));
}

#[test]
fn server_build_input_schema_two_args_maps_names_to_element_schemas() {
    let raw_schema = raw(
        r#"{
            "type": "array",
            "prefixItems": [
                {"type": "integer", "minimum": -2147483648, "maximum": 2147483647},
                {"type": "integer", "minimum": -2147483648, "maximum": 2147483647}
            ],
            "minItems": 2,
            "maxItems": 2
        }"#,
    );
    let names = vec!["a".to_string(), "b".to_string()];
    let schema = to_value(&build_input_schema(&raw_schema, &names));
    assert_eq!(schema["type"], "object");
    assert!(schema["properties"]["a"].is_object());
    assert!(schema["properties"]["b"].is_object());
    assert_eq!(schema["required"], json(r#"["a", "b"]"#));
    assert_eq!(schema["additionalProperties"], Value::Bool(false));
}

#[test]
fn build_input_schema_from_a_generated_tuple_schema() {
    let args = NamedType {
        name: "args".to_string(),
        ty: DataModel::Tuple(vec![
            NamedType { name: "a".to_string(), ty: DataModel::U8 },
            NamedType { name: "b".to_string(), ty: DataModel::Bool },
        ]),
    };
    let raw_schema = named_type_to_json_schema(&args);
    let names = vec!["mask".to_string(), "on".to_string(), "extra".to_string()];
    let schema = to_value(&build_input_schema(&raw_schema, &names));
    assert_eq!(
        schema,
        json(
            r#"{
                "type": "object",
                "properties": {
                    "mask": {"type": "integer", "minimum": 0, "maximum": 255},
                    "on": {"type": "boolean"}
                },
                "required": ["mask", "on"],
                "additionalProperties": false
            }"#
        )
    );
}

#[test]
fn build_input_schema_without_prefix_items_has_no_properties() {
    let names = vec!["x".to_string()];
    let schema = to_value(&build_input_schema(&raw(r#"{"type": "string"}"#), &names));
    assert_eq!(
        schema,
        json(r#"{"type": "object", "properties": {}, "required": [], "additionalProperties": false}"#)
    );
}

#[test]
fn server_named_to_positional_zero_args_returns_null() {
    let result = named_to_positional(None, &[]);
    assert_eq!(back(&result), Value::Null);
}

#[test]
fn server_named_to_positional_two_args_preserves_declaration_order() {
    let names = vec!["a".to_string(), "b".to_string()];
    let mut obj = serde_json::Map::new();
    obj.insert("b".to_string(), Value::from(3));
    obj.insert("a".to_string(), Value::from(2));
    let result = named_to_positional(Some(object(&Value::Object(obj))), &names);
    assert_eq!(back(&result), json("[2, 3]"));
}

#[test]
fn server_named_to_positional_missing_arg_becomes_null() {
    let names = vec!["x".to_string()];
    let result = named_to_positional(None, &names);
    assert_eq!(back(&result), json("[null]"));
}

#[test]
fn named_to_positional_copies_nested_values() {
    let names = vec!["p".to_string(), "q".to_string()];
    let args = json(r#"{"p": {"x": [1, "two", null]}, "r": true}"#);
    let result = named_to_positional(Some(object(&args)), &names);
    assert_eq!(back(&result), json(r#"[{"x": [1, "two", null]}, null]"#));
}

#[test]
fn render_verify_board_alive_returns_user_message() {
    let text = prompt_text("verify-board-alive", None, None).expect("prompt must exist");
    assert!(text.starts_with("Use the 'ping' tool"));
    assert!(text.ends_with("the value you received."));
}

#[test]
fn render_call_command_interpolates_arguments() {
    let text = prompt_text("call-command", Some("add"), Some("[2, 3]")).expect("prompt must exist");
    assert!(
        text.contains("add"),
        "command name 'add' must appear in rendered text"
    );
    assert!(text.contains("[2, 3]"), "args must appear in rendered text");
    assert_eq!(
        text,
        "Call the Telepath command 'add' with the following arguments: [2, 3]. Report the result value or any error that occurs."
    );
}

#[test]
fn render_call_command_accepts_json_array_args() {
    // A non-string `args` value is passed on as its compact JSON text.
    let args_text = serde_json::to_string(&json("[2, 3]")).unwrap();
    let text = prompt_text("call-command", Some("add"), Some(args_text.as_str()))
        .expect("prompt must exist");
    assert!(
        text.contains("add"),
        "command name 'add' must appear in rendered text"
    );
    assert!(
        text.contains("2") && text.contains("3"),
        "array elements must appear in rendered text; got: {text}"
    );
}

#[test]
fn render_call_command_uses_placeholder_when_no_args() {
    let text = prompt_text("call-command", None, None).expect("prompt must exist");
    assert!(
        text.contains("<command>"),
        "placeholder must appear when no name arg provided"
    );
    assert!(text.contains("arguments: {}."));
}

#[test]
fn render_unknown_prompt_returns_none() {
    assert!(prompt_text("nonexistent-prompt", None, None).is_none());
}
