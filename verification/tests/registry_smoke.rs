use telepath::command::{
    plan_command, CmdIdRegistry, CommandPlan, CommandSignature, FnInput, RefType, TypeText,
    TypedArg,
};

fn arg(name: &str, ty: &str) -> FnInput {
    FnInput::Typed(TypedArg {
        ident: Some(name.to_string()),
        is_resource: false,
        ty: TypeText { text: ty.to_string(), reference: None },
    })
}

#[allow(dead_code)]
fn resource(name: &str, inner: &str, mutable: bool) -> FnInput {
    let text = if mutable { format!("&mut {inner}") } else { format!("&{inner}") };
    FnInput::Typed(TypedArg {
        ident: Some(name.to_string()),
        is_resource: true,
        ty: TypeText {
            text,
            reference: Some(RefType { mutable, elem: inner.to_string() }),
        },
    })
}

fn signature(name: &str, inputs: Vec<FnInput>, ret: Option<&str>) -> CommandSignature {
    CommandSignature {
        name: name.to_string(),
        is_async: false,
        is_unsafe: false,
        has_generics: false,
        has_where_clause: false,
        inputs,
        output: ret.map(|t| TypeText { text: t.to_string(), reference: None }),
    }
}

#[allow(dead_code)]
fn plan(name: &str, inputs: Vec<FnInput>, ret: Option<&str>) -> CommandPlan {
    plan_command(&signature(name, inputs, ret), &mut CmdIdRegistry::new()).unwrap()
}
use telepath::cmd_id::derive_cmd_id;

fn commands() -> Vec<CommandPlan> {
    let mut registry = CmdIdRegistry::new();
    let alpha = plan_command(&signature("alpha", vec![], Some("u8")), &mut registry).unwrap();
    let beta =
        plan_command(&signature("beta", vec![arg("x", "u8")], Some("u8")), &mut registry).unwrap();
    vec![alpha, beta]
}

#[test]
fn registry_includes_both_commands() {
    let names: Vec<String> = commands().iter().map(|c| c.name.clone()).collect();
    assert!(names.contains(&"alpha".to_string()), "alpha must appear in commands()");
    assert!(names.contains(&"beta".to_string()), "beta must appear in commands()");
}

#[test]
fn registry_has_exactly_two_commands() {
    assert_eq!(commands().len(), 2);
}

#[test]
fn registry_ids_unique_and_nonzero() {
    let ids: Vec<u16> = commands().iter().map(|c| c.cmd_id).collect();
    for &id in &ids {
        assert_ne!(id, 0x0000, "reserved CDP ID must not appear in registry");
    }
    let mut sorted = ids.clone();
    sorted.sort_unstable();
    sorted.dedup();
    assert_eq!(sorted.len(), ids.len(), "command IDs must be unique");
}

#[test]
fn registry_id_matches_macro_const() {
    let all = commands();
    let alpha_entry = all.iter().find(|c| c.name == "alpha").expect("alpha must be in commands()");
    assert_eq!(alpha_entry.cmd_id, derive_cmd_id("alpha", "()", "u8"));
    let beta_entry = all.iter().find(|c| c.name == "beta").expect("beta must be in commands()");
    assert_eq!(beta_entry.cmd_id, derive_cmd_id("beta", "(u8,)", "u8"));
}
