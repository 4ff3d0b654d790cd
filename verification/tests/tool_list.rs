use serde_json::Value;
use telepath::data_model::{DataModel, JsonOut, NamedType};
use telepath::schema::SchemaEntry;
use telepath::client::HostError;
use telepath::tools::{
    build_tools, commands_catalog, shared_command_names, shared_name_message, sort_by_cmd_id, tool_description,
    tool_spec,
};

fn entry(name: &str, cmd_id: u16) -> SchemaEntry {
    SchemaEntry {
        name: name.to_string(),
        cmd_id,
        args_schema: vec![],
        ret_schema: vec![],
        arg_names: vec![],
    }
}

fn to_value(v: &JsonOut) -> Value {
    match v {
        JsonOut::Null => Value::Null,
        JsonOut::Bool(b) => Value::Bool(*b),
        JsonOut::Unsigned(n) => Value::from(*n),
        JsonOut::Signed(n) => Value::from(*n),
        JsonOut::F32Bits(b) => Value::from(f32::from_bits(*b) as f64),
        JsonOut::F64Bits(b) => Value::from(f64::from_bits(*b)),
        JsonOut::Str(s) => Value::String(s.clone()),
        JsonOut::Array(items) => Value::Array(items.iter().map(to_value).collect()),
        JsonOut::Object(members) => {
            let mut m = serde_json::Map::new();
            for (k, v) in members {
                m.insert(k.clone(), to_value(v));
            }
            Value::Object(m)
        }
    }
}

#[test]
fn entries_sort_by_id_keeping_equal_ids_in_order() {
    let sorted = sort_by_cmd_id(vec![entry("a", 3), entry("b", 1), entry("c", 2), entry("d", 1)]);
    let names: Vec<&str> = sorted.iter().map(|e| e.name.as_str()).collect();
    assert_eq!(names, vec!["b", "d", "c", "a"]);
    assert!(sort_by_cmd_id(vec![]).is_empty());
}

#[test]
fn shared_names_list_every_id_of_the_name() {
    let entries = vec![entry("ping", 1), entry("add", 2), entry("ping", 3), entry("led", 4)];
    let shared = shared_command_names(&entries);
    assert_eq!(shared, vec![("ping".to_string(), vec![1u16, 3])]);
    assert!(shared_command_names(&vec![entry("a", 1), entry("b", 2)]).is_empty());
}

#[test]
fn shared_name_warning_text() {
    assert_eq!(
        shared_name_message("ping", &vec![0x0001, 0x0A3F]),
        "[telepath mcp] Warning: ambiguous command name 'ping' maps to 2 cmd_ids \
         ([0001, 0A3F]). MCP clients cannot disambiguate; only the first will be reachable by name."
    );
}

#[test]
fn tool_description_names_the_id_in_hex() {
    assert_eq!(tool_description(0x1A2B), "Telepath command 0x1A2B");
    assert_eq!(tool_description(0x0001), "Telepath command 0x0001");
}

#[test]
fn tool_spec_and_catalog() {
    let args = NamedType {
        name: "args".to_string(),
        ty: DataModel::Tuple(vec![
            NamedType { name: "a".to_string(), ty: DataModel::U8 },
            NamedType { name: "b".to_string(), ty: DataModel::Bool },
        ]),
    };
    let ret = NamedType { name: "u32".to_string(), ty: DataModel::U32 };
    let t = tool_spec(
        "set".to_string(),
        0x00FE,
        args,
        ret,
        vec!["a".to_string(), "b".to_string()],
    );
    assert_eq!(t.description, "Telepath command 0x00FE");
    let schema = to_value(&t.input_schema);
    assert_eq!(
        schema,
        serde_json::from_str::<Value>(
            r#"{
                "type": "object",
                "properties": {
                    "a": {"type": "integer", "minimum": 0, "maximum": 255},
                    "b": {"type": "boolean"}
                },
                "required": ["a", "b"],
                "additionalProperties": false
            }"#
        )
        .unwrap()
    );
    let catalog = to_value(&commands_catalog(&vec![t]));
    assert_eq!(catalog[0]["name"], "set");
    assert_eq!(catalog[0]["cmd_id"], "0x00FE");
    assert_eq!(catalog[0]["inputSchema"], schema);
    assert_eq!(catalog.as_array().map(|a| a.len()), Some(1));
}

fn schema_entry(name: &str, cmd_id: u16, args: Vec<u8>) -> SchemaEntry {
    SchemaEntry {
        name: name.to_string(),
        cmd_id,
        args_schema: args,
        ret_schema: vec![0x03, 0x75, 0x33, 0x32, 0x08],
        arg_names: vec![],
    }
}

#[test]
fn build_tools_orders_by_id_and_reads_schemas() {
    let unit = vec![0x02, 0x28, 0x29, 0x13];
    let tools = build_tools(vec![schema_entry("b", 3, unit.clone()), schema_entry("a", 1, unit)])
        .expect("schemas read");
    let names: Vec<&str> = tools.iter().map(|t| t.name.as_str()).collect();
    assert_eq!(names, vec!["a", "b"]);
    assert_eq!(tools[0].description, "Telepath command 0x0001");
    assert!(matches!(tools[0].args_schema.ty, DataModel::Unit));
    assert!(matches!(tools[1].ret_schema.ty, DataModel::U32));
    assert_eq!(to_value(&tools[0].input_schema), serde_json::from_str::<Value>(r#"{"type": "object"}"#).unwrap());
}

#[test]
fn build_tools_fails_on_an_unreadable_schema() {
    let r = build_tools(vec![schema_entry("x", 1, vec![0xFF, 0xFF, 0xFF])]);
    assert!(matches!(r, Err(HostError::SerdeError(_))));
}
