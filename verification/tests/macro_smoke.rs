use telepath::command::{
    plan_command, CmdIdRegistry, CommandPlan, CommandSignature, FnInput, RefType, TypeText,
    TypedArg,
};

fn arg(name: &str, ty: &str) -> FnInput {
    FnInput::Typed(TypedArg {
        ident: Some(name.to_string()),
        is_resource: false,
        ty: TypeText { text: ty.to_string(), reference: None },
    })
}

#[allow(dead_code)]
fn resource(name: &str, inner: &str, mutable: bool) -> FnInput {
    let text = if mutable { format!("&mut {inner}") } else { format!("&{inner}") };
    FnInput::Typed(TypedArg {
        ident: Some(name.to_string()),
        is_resource: true,
        ty: TypeText {
            text,
            reference: Some(RefType { mutable, elem: inner.to_string() }),
        },
    })
}

fn signature(name: &str, inputs: Vec<FnInput>, ret: Option<&str>) -> CommandSignature {
    CommandSignature {
        name: name.to_string(),
        is_async: false,
        is_unsafe: false,
        has_generics: false,
        has_where_clause: false,
        inputs,
        output: ret.map(|t| TypeText { text: t.to_string(), reference: None }),
    }
}

#[allow(dead_code)]
fn plan(name: &str, inputs: Vec<FnInput>, ret: Option<&str>) -> CommandPlan {
    plan_command(&signature(name, inputs, ret), &mut CmdIdRegistry::new()).unwrap()
}
use telepath::cmd_id::derive_cmd_id;
use telepath::server::{check_no_args, DispatchError};

fn nullary_ping() -> u32 {
    0xDEAD_BEEF
}

fn add(a: u32, b: u32) -> u32 {
    a + b
}

fn unary_echo(x: u8) -> u8 {
    x
}

fn nullary_ping_plan() -> CommandPlan {
    plan("nullary_ping", vec![], Some("u32"))
}

fn add_plan() -> CommandPlan {
    plan("add", vec![arg("a", "u32"), arg("b", "u32")], Some("u32"))
}

fn unary_echo_plan() -> CommandPlan {
    plan("unary_echo", vec![arg("x", "u8")], Some("u8"))
}

#[test]
fn nullary_metadata_name() {
    assert_eq!(nullary_ping_plan().name, "nullary_ping");
}

#[test]
fn nullary_metadata_id_nonzero() {
    assert_ne!(nullary_ping_plan().cmd_id, 0x0000);
}

#[test]
fn multiarg_metadata_name() {
    assert_eq!(add_plan().name, "add");
}

#[test]
fn multiarg_metadata_id_nonzero() {
    assert_ne!(add_plan().cmd_id, 0x0000);
}

#[test]
fn unary_metadata_name() {
    assert_eq!(unary_echo_plan().name, "unary_echo");
}

#[test]
fn unary_metadata_id_nonzero() {
    assert_ne!(unary_echo_plan().cmd_id, 0x0000);
}

#[test]
fn cmd_id_deterministic() {
    let expected = derive_cmd_id("nullary_ping", "()", "u32");
    assert_eq!(nullary_ping_plan().cmd_id, expected);
}

#[test]
fn unary_cmd_id_matches_canonical_tuple() {
    let expected = derive_cmd_id("unary_echo", "(u8,)", "u8");
    assert_eq!(unary_echo_plan().cmd_id, expected);
    assert_eq!(unary_echo_plan().args_type_str, "(u8,)");
}

#[test]
fn shim_nullary_rejects_nonempty_input() {
    let p = nullary_ping_plan();
    assert!(p.wire_idents.is_empty());
    let result = check_no_args(&[0xAB]);
    assert!(matches!(result, Err(DispatchError::DeserializeError)));
}

#[test]
fn shim_result_cmd_id_uses_result_type() {
    let id_result_variant = derive_cmd_id("checked_div", "(u32, u32)", "u32");
    let p = plan(
        "checked_div",
        vec![arg("a", "u32"), arg("b", "u32")],
        Some("Result<u32, AppErrorPayload<'static>>"),
    );
    assert_eq!(p.ret_type_str, "Result<u32, AppErrorPayload<'static>>");
    assert_ne!(
        p.cmd_id, id_result_variant,
        "Result<T, AppErrorPayload> and T must produce different cmd_ids"
    );
}

#[test]
fn macro_smoke_original_fns_callable() {
    assert_eq!(nullary_ping(), 0xDEAD_BEEF);
    assert_eq!(add(2, 3), 5);
    assert_eq!(unary_echo(7), 7);
}

#[test]
fn commands_array_has_correct_names() {
    let commands = [nullary_ping_plan(), add_plan(), unary_echo_plan()];
    assert_eq!(commands[0].name, "nullary_ping");
    assert_eq!(commands[1].name, "add");
    assert_eq!(commands[2].name, "unary_echo");
}

#[test]
fn commands_have_correct_arg_names() {
    let commands = [nullary_ping_plan(), add_plan(), unary_echo_plan()];
    assert_eq!(commands[0].arg_names, "", "0-arg command must have empty arg_names");
    assert_eq!(commands[1].arg_names, "a,b", "add(a, b) must emit \"a,b\"");
    assert_eq!(commands[2].arg_names, "x", "unary_echo(x) must emit \"x\"");
}
