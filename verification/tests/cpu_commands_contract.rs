use telepath::command::{
    plan_command, CmdIdRegistry, CommandPlan, CommandSignature, FnInput, RefType, TypeText,
    TypedArg,
};

fn arg(name: &str, ty: &str) -> FnInput {
    FnInput::Typed(TypedArg {
        ident: Some(name.to_string()),
        is_resource: false,
        ty: TypeText { text: ty.to_string(), reference: None },
    })
}

#[allow(dead_code)]
fn resource(name: &str, inner: &str, mutable: bool) -> FnInput {
    let text = if mutable { format!("&mut {inner}") } else { format!("&{inner}") };
    FnInput::Typed(TypedArg {
        ident: Some(name.to_string()),
        is_resource: true,
        ty: TypeText {
            text,
            reference: Some(RefType { mutable, elem: inner.to_string() }),
        },
    })
}

fn signature(name: &str, inputs: Vec<FnInput>, ret: Option<&str>) -> CommandSignature {
    CommandSignature {
        name: name.to_string(),
        is_async: false,
        is_unsafe: false,
        has_generics: false,
        has_where_clause: false,
        inputs,
        output: ret.map(|t| TypeText { text: t.to_string(), reference: None }),
    }
}

#[allow(dead_code)]
fn plan(name: &str, inputs: Vec<FnInput>, ret: Option<&str>) -> CommandPlan {
    plan_command(&signature(name, inputs, ret), &mut CmdIdRegistry::new()).unwrap()
}
use telepath::cmd_id::derive_cmd_id;

fn add(a: i32, b: i32) -> i32 {
    a + b
}

fn crc32_iso_hdlc(data: &[u8]) -> u32 {
    let mut crc: u32 = 0xFFFF_FFFF;
    for &byte in data {
        crc ^= byte as u32;
        for _ in 0..8 {
            if crc & 1 != 0 {
                crc = (crc >> 1) ^ 0xEDB8_8320;
            } else {
                crc >>= 1;
            }
        }
    }
    crc ^ 0xFFFF_FFFF
}

fn add_plan() -> CommandPlan {
    plan("add", vec![arg("a", "i32"), arg("b", "i32")], Some("i32"))
}

fn crc32_plan() -> CommandPlan {
    plan("crc32", vec![arg("payload", "HVec < u8 , 128 >")], Some("u32"))
}

fn echo_plan() -> CommandPlan {
    plan("echo", vec![arg("payload", "HVec < u8 , 128 >")], Some("HVec < u8 , 128 >"))
}

#[test]
fn add_metadata_name() {
    assert_eq!(add_plan().name, "add");
}

#[test]
fn add_metadata_id_nonzero() {
    assert_ne!(add_plan().cmd_id, 0x0000);
}

#[test]
fn crc32_metadata_name() {
    assert_eq!(crc32_plan().name, "crc32");
}

#[test]
fn crc32_metadata_id_nonzero() {
    assert_ne!(crc32_plan().cmd_id, 0x0000);
}

#[test]
fn echo_metadata_name() {
    assert_eq!(echo_plan().name, "echo");
}

#[test]
fn echo_metadata_id_nonzero() {
    assert_ne!(echo_plan().cmd_id, 0x0000);
}

#[test]
fn add_cmd_id_deterministic() {
    let expected = derive_cmd_id("add", "(i32, i32)", "i32");
    assert_eq!(add_plan().cmd_id, expected);
}

#[test]
fn cpu_commands_contract_original_fns_callable() {
    assert_eq!(add(2, 3), 5);
    assert_eq!(add(-1, 1), 0);
    assert_eq!(crc32_iso_hdlc(&[0u8; 128]), 0xC2A8_FA9D);
}
