use telepath::command::{
    plan_command, CmdIdRegistry, CommandPlan, CommandSignature, FnInput, RefType, TypeText,
    TypedArg,
};

fn arg(name: &str, ty: &str) -> FnInput {
    FnInput::Typed(TypedArg {
        ident: Some(name.to_string()),
        is_resource: false,
        ty: TypeText { text: ty.to_string(), reference: None },
    })
}

#[allow(dead_code)]
fn resource(name: &str, inner: &str, mutable: bool) -> FnInput {
    let text = if mutable { format!("&mut {inner}") } else { format!("&{inner}") };
    FnInput::Typed(TypedArg {
        ident: Some(name.to_string()),
        is_resource: true,
        ty: TypeText {
            text,
            reference: Some(RefType { mutable, elem: inner.to_string() }),
        },
    })
}

fn signature(name: &str, inputs: Vec<FnInput>, ret: Option<&str>) -> CommandSignature {
    CommandSignature {
        name: name.to_string(),
        is_async: false,
        is_unsafe: false,
        has_generics: false,
        has_where_clause: false,
        inputs,
        output: ret.map(|t| TypeText { text: t.to_string(), reference: None }),
    }
}

#[allow(dead_code)]
fn plan(name: &str, inputs: Vec<FnInput>, ret: Option<&str>) -> CommandPlan {
    plan_command(&signature(name, inputs, ret), &mut CmdIdRegistry::new()).unwrap()
}
use telepath::cmd_id::derive_cmd_id;

fn increment_plan() -> CommandPlan {
    plan(
        "increment",
        vec![resource("ctr", "Counter", true), arg("amount", "u32")],
        Some("u32"),
    )
}

fn read_label_plan() -> CommandPlan {
    plan("read_label", vec![resource("label", "Label", false)], Some("u8"))
}

fn mixed_plan() -> CommandPlan {
    plan(
        "mixed",
        vec![
            resource("ctr", "Counter", true),
            arg("a", "u32"),
            resource("label", "Label", false),
            arg("b", "u32"),
        ],
        Some("u32"),
    )
}

#[test]
fn resource_cmd_id_excludes_resource_args() {
    let expected = derive_cmd_id("increment", "(u32,)", "u32");
    assert_eq!(increment_plan().cmd_id, expected);
}

#[test]
fn resource_arg_names_excludes_resource_args() {
    assert_eq!(increment_plan().arg_names, "amount");
}

#[test]
fn mixed_cmd_id_uses_wire_args_only() {
    let expected = derive_cmd_id("mixed", "(u32, u32)", "u32");
    assert_eq!(mixed_plan().cmd_id, expected);
}

#[test]
fn mixed_arg_names_uses_wire_args_only() {
    assert_eq!(mixed_plan().arg_names, "a,b");
}

#[test]
fn read_label_cmd_id_is_nullary() {
    let expected = derive_cmd_id("read_label", "()", "u8");
    assert_eq!(read_label_plan().cmd_id, expected);
}

#[test]
fn read_label_arg_names_empty() {
    assert_eq!(read_label_plan().arg_names, "");
}

#[test]
fn mixed_keeps_declaration_order_and_resource_kinds() {
    let p = mixed_plan();
    assert_eq!(p.call_idents, vec!["ctr", "a", "label", "b"]);
    assert_eq!(p.resource_args.len(), 2);
    assert_eq!(p.resource_args[0].inner_ty, "Counter");
    assert!(p.resource_args[0].is_mut);
    assert_eq!(p.resource_args[1].ident, "label");
    assert!(!p.resource_args[1].is_mut);
}
