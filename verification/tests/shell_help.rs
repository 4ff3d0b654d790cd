use telepath::data_model::{DataModel, NamedType};
use serde_json::Value;
use telepath::data_model::{JsonNumber, JsonOut, JsonValue};
use telepath::shell::{
    args_display, command_help, complete_command, encode_args, split_tokens, help_overview, result_line, scalar_example,
    sort_by_name, type_label, HelpEntry,
};

fn wrap(name: &str, ty: DataModel) -> NamedType {
    NamedType {
        name: name.to_string(),
        ty,
    }
}

#[test]
fn type_labels_and_examples() {
    assert_eq!(type_label(&DataModel::U32), "u32");
    assert_eq!(type_label(&DataModel::String), "str");
    assert_eq!(type_label(&DataModel::UnitStruct), "()");
    assert_eq!(type_label(&DataModel::I128), "?");
    assert_eq!(scalar_example(&DataModel::F64), "0.0");
    assert_eq!(scalar_example(&DataModel::Char), "\"a\"");
    assert_eq!(scalar_example(&DataModel::U128), "0");
}

#[test]
fn args_display_of_tuples_units_and_others() {
    assert_eq!(args_display(&wrap("()", DataModel::Unit)), "");
    let tuple = wrap(
        "args",
        DataModel::Tuple(vec![wrap("mask", DataModel::U8), wrap("1", DataModel::Bool)]),
    );
    assert_eq!(args_display(&tuple), "<mask: u8> <arg1: bool>");
    assert_eq!(args_display(&wrap("Point", DataModel::I32)), "<Point>");
}

#[test]
fn command_help_with_tuple_arguments() {
    let args = wrap(
        "args",
        DataModel::Tuple(vec![wrap("a", DataModel::I32), wrap("", DataModel::String)]),
    );
    let ret = wrap("i32", DataModel::I32);
    let lines = command_help("add", &args, &ret);
    assert_eq!(
        lines,
        vec![
            "add <a: i32> <arg1: str> -> i32",
            "",
            "  Arguments:",
            "    <a   >  i32     Example: 0",
            "    <arg1>  str     Example: \"hello\"",
            "",
            "  Returns: i32",
            "  Usage:   add [0, \"hello\"]",
        ]
    );
}

#[test]
fn command_help_without_arguments() {
    let lines = command_help("ping", &wrap("()", DataModel::Unit), &wrap("u32", DataModel::U32));
    assert_eq!(lines, vec!["ping -> u32", "", "  Returns: u32"]);
}

#[test]
fn completion_of_the_command_word() {
    let commands = vec!["ping".to_string(), "add".to_string(), "pong".to_string()];
    let (start, found) = complete_command(&commands, "p", 1);
    assert_eq!(start, 0);
    assert_eq!(found, vec!["ping".to_string(), "pong".to_string()]);
    let (start, found) = complete_command(&commands, "", 0);
    assert_eq!(start, 0);
    assert_eq!(found.len(), 3);
    let (start, found) = complete_command(&commands, "ping ", 5);
    assert_eq!(start, 5);
    assert!(found.is_empty());
    let (start, found) = complete_command(&commands, "x\u{3000}", 4);
    assert_eq!(start, 4);
    assert!(found.is_empty());
    assert!(complete_command(&commands, "q", 1).1.is_empty());
}

#[test]
fn result_lines_for_unsigned_and_unit_results() {
    assert_eq!(
        result_line("led", &DataModel::U8, &JsonOut::Unsigned(10)),
        Some("led -> 0x0A".to_string())
    );
    assert_eq!(
        result_line("id", &DataModel::U16, &JsonOut::Unsigned(0x12345)),
        Some("id -> 0x12345".to_string())
    );
    assert_eq!(
        result_line("ping", &DataModel::U32, &JsonOut::Unsigned(0xDEADBEEF)),
        Some("ping -> 0xDEADBEEF".to_string())
    );
    assert_eq!(
        result_line("uid", &DataModel::U64, &JsonOut::Unsigned(0x1F)),
        Some("uid -> 0x000000000000001F".to_string())
    );
    assert_eq!(
        result_line("neg", &DataModel::U32, &JsonOut::Signed(-4)),
        Some("neg -> 0x00000000".to_string())
    );
    assert_eq!(result_line("reset", &DataModel::Unit, &JsonOut::Null), Some("reset OK".to_string()));
    assert_eq!(
        result_line("noop", &DataModel::UnitStruct, &JsonOut::Null),
        Some("noop OK".to_string())
    );
    assert_eq!(result_line("name", &DataModel::String, &JsonOut::Str("x".to_string())), None);
}

#[test]
fn overview_sorts_by_name_and_pads_usages() {
    let add_args = wrap(
        "args",
        DataModel::Tuple(vec![wrap("a", DataModel::I32), wrap("b", DataModel::I32)]),
    );
    let entries = vec![
        HelpEntry {
            name: "ping".to_string(),
            args: Some(wrap("()", DataModel::Unit)),
            ret: Some(wrap("u32", DataModel::U32)),
        },
        HelpEntry {
            name: "add".to_string(),
            args: Some(add_args),
            ret: Some(wrap("i32", DataModel::I32)),
        },
        HelpEntry { name: "broken".to_string(), args: None, ret: None },
    ];
    let lines = help_overview(entries);
    assert_eq!(
        lines,
        vec![
            "Commands:".to_string(),
            "  add <a: i32> <b: i32>     -> i32".to_string(),
            "  broken                    -> ?".to_string(),
            "  ping                      -> u32".to_string(),
            String::new(),
            "  help [COMMAND]            Show this help or detail for a command".to_string(),
        ]
    );
}

#[test]
fn overview_widens_for_long_usages() {
    let long = "a_command_with_a_long_name";
    let lines = help_overview(vec![HelpEntry {
        name: long.to_string(),
        args: Some(wrap("()", DataModel::Unit)),
        ret: Some(wrap("()", DataModel::Unit)),
    }]);
    assert_eq!(lines[1], format!("  {long}  -> ()"));
    assert_eq!(lines[3], format!("  {:<26}  Show this help or detail for a command", "help [COMMAND]"));
}

#[test]
fn names_order_by_character() {
    let e = |n: &str| HelpEntry { name: n.to_string(), args: None, ret: None };
    let sorted = sort_by_name(vec![e("b"), e("ab"), e("a"), e("B"), e("ab")]);
    let names: Vec<&str> = sorted.iter().map(|h| h.name.as_str()).collect();
    assert_eq!(names, vec!["B", "a", "ab", "ab", "b"]);
}

fn from_value(v: &Value) -> JsonValue {
    match v {
        Value::Null => JsonValue::Null,
        Value::Bool(b) => JsonValue::Bool(*b),
        Value::Number(n) => {
            let f = n.as_f64().unwrap_or(0.0);
            JsonValue::Number(JsonNumber {
                as_u64: n.as_u64(),
                as_i64: n.as_i64(),
                f64_bits: f.to_bits(),
                f32_bits: (f as f32).to_bits(),
            })
        }
        Value::String(s) => JsonValue::String(s.clone()),
        Value::Array(items) => JsonValue::Array(items.iter().map(from_value).collect()),
        Value::Object(m) => {
            JsonValue::Object(m.iter().map(|(k, v)| (k.clone(), from_value(v))).collect())
        }
    }
}

fn back(v: &JsonValue) -> Value {
    match v {
        JsonValue::Null => Value::Null,
        JsonValue::Bool(b) => Value::Bool(*b),
        JsonValue::Number(n) => match (n.as_u64, n.as_i64) {
            (Some(u), _) => Value::from(u),
            (None, Some(i)) => Value::from(i),
            _ => Value::from(f64::from_bits(n.f64_bits)),
        },
        JsonValue::String(s) => Value::String(s.clone()),
        JsonValue::Array(items) => Value::Array(items.iter().map(back).collect()),
        JsonValue::Object(m) => {
            let mut o = serde_json::Map::new();
            for (k, v) in m {
                o.insert(k.clone(), back(v));
            }
            Value::Object(o)
        }
    }
}

fn encode(schema: &NamedType, args_str: &str, cmd_name: &str) -> Result<Value, String> {
    let whole = serde_json::from_str::<Value>(args_str).ok().map(|v| from_value(&v));
    let tokens: Result<Vec<JsonValue>, String> = split_tokens(args_str)
        .iter()
        .map(|t| serde_json::from_str::<Value>(t).map(|v| from_value(&v)).map_err(|e| e.to_string()))
        .collect();
    encode_args(schema, args_str, cmd_name, whole, tokens).map(|v| back(&v))
}

#[test]
fn encode_args_single_bare_scalar() {
    let schema = wrap("args", DataModel::Tuple(vec![wrap("mask", DataModel::U8)]));
    let result = encode(&schema, "10", "led_pattern").unwrap();
    assert_eq!(result, Value::from(10u64));
}

#[test]
fn encode_args_single_json_array_backward_compat() {
    let schema = wrap("args", DataModel::Tuple(vec![wrap("mask", DataModel::U8)]));
    let result = encode(&schema, "[10]", "led_pattern").unwrap();
    assert_eq!(result, Value::Array(vec![Value::from(10u64)]));
}

#[test]
fn encode_args_multi_positional() {
    let schema = wrap(
        "args",
        DataModel::Tuple(vec![wrap("a", DataModel::I32), wrap("b", DataModel::I32)]),
    );
    let positional = encode(&schema, "2 3", "add").unwrap();
    let array = encode(&schema, "[2, 3]", "add").unwrap();
    assert_eq!(positional, array);
}

#[test]
fn encode_args_unit_rejects_args() {
    let schema = wrap("args", DataModel::Unit);
    assert!(encode(&schema, "10", "ping").is_err());
    assert_eq!(
        encode(&schema, "10", "ping").unwrap_err(),
        "'ping' takes no arguments, but got: 10"
    );
    assert_eq!(encode(&schema, "", "ping").unwrap(), Value::Null);
}

#[test]
fn encode_args_empty_string_is_error() {
    let schema = wrap("args", DataModel::Tuple(vec![wrap("a", DataModel::U8)]));
    assert!(encode(&schema, "", "cmd").is_err());
}

#[test]
fn encode_args_negative_numbers() {
    let schema = wrap(
        "args",
        DataModel::Tuple(vec![wrap("a", DataModel::I32), wrap("b", DataModel::I32)]),
    );
    let positional = encode(&schema, "-2 3", "add").unwrap();
    let array = encode(&schema, "[-2, 3]", "add").unwrap();
    assert_eq!(positional, array);
}

#[test]
fn encode_args_empty_string_error_mentions_json_array_form() {
    let schema = wrap("args", DataModel::Tuple(vec![wrap("a", DataModel::U8)]));
    let msg = encode(&schema, "", "cmd").unwrap_err();
    assert!(msg.contains("JSON"), "error should mention JSON parsing: {msg}");
    assert!(msg.contains("[<arg1>"), "error should hint at array form: {msg}");
    assert_eq!(
        msg,
        "'cmd' expects arguments (args). Each positional arg is parsed as JSON, e.g.: cmd <arg1> \
         <arg2> ...  (JSON array form also supported: cmd [<arg1>, <arg2>, ...])"
    );
}

#[test]
fn encode_args_invalid_token_error_mentions_whitespace_limitation() {
    let schema = wrap("args", DataModel::Tuple(vec![wrap("a", DataModel::U8)]));
    let msg = encode(&schema, "foo bar", "cmd").unwrap_err();
    assert!(msg.contains("whitespace"), "error should mention whitespace tokenisation: {msg}");
    assert!(msg.contains("array form"), "error should hint at array form fallback: {msg}");
    assert!(msg.starts_with("Invalid arguments for 'cmd': "));
}

#[test]
fn tokens_split_on_unicode_white_space() {
    for text in ["", "a", "  -2 3 ", "x\ty\n z", "a\u{3000}b\u{85}c", "[1,  2]"] {
        let expected: Vec<String> = text.split_whitespace().map(|t| t.to_string()).collect();
        assert_eq!(split_tokens(text), expected, "for {text:?}");
    }
}
