use telepath::command::{
    plan_command, CmdIdRegistry, CommandPlan, CommandSignature, FnInput, RefType, TypeText,
    TypedArg,
};

fn arg(name: &str, ty: &str) -> FnInput {
    FnInput::Typed(TypedArg {
        ident: Some(name.to_string()),
        is_resource: false,
        ty: TypeText { text: ty.to_string(), reference: None },
    })
}

#[allow(dead_code)]
fn resource(name: &str, inner: &str, mutable: bool) -> FnInput {
    let text = if mutable { format!("&mut {inner}") } else { format!("&{inner}") };
    FnInput::Typed(TypedArg {
        ident: Some(name.to_string()),
        is_resource: true,
        ty: TypeText {
            text,
            reference: Some(RefType { mutable, elem: inner.to_string() }),
        },
    })
}

fn signature(name: &str, inputs: Vec<FnInput>, ret: Option<&str>) -> CommandSignature {
    CommandSignature {
        name: name.to_string(),
        is_async: false,
        is_unsafe: false,
        has_generics: false,
        has_where_clause: false,
        inputs,
        output: ret.map(|t| TypeText { text: t.to_string(), reference: None }),
    }
}

#[allow(dead_code)]
fn plan(name: &str, inputs: Vec<FnInput>, ret: Option<&str>) -> CommandPlan {
    plan_command(&signature(name, inputs, ret), &mut CmdIdRegistry::new()).unwrap()
}
use telepath::command::CommandErrorKind;

#[test]
fn same_crate_collision_is_rejected() {
    let mut registry = CmdIdRegistry::new();
    assert!(plan_command(&signature("cmd_446", vec![], Some("u32")), &mut registry).is_ok());
    let err = match plan_command(&signature("cmd_470", vec![], Some("u32")), &mut registry) {
        Err(e) => e,
        Ok(_) => panic!("expected a collision"),
    };
    assert_eq!(err.kind, CommandErrorKind::Collision);
    let msg = err.message;
    assert!(msg.contains("cmd_id collision"), "expected collision error, got: {msg}");
    assert!(msg.contains("0x43AE"), "expected hex id 0x43AE in error, got: {msg}");
    assert!(
        msg.contains("cmd_446") && msg.contains("cmd_470"),
        "expected both command names in error, got: {msg}"
    );
}

#[test]
fn guard_symbol_has_correct_export_name() {
    let p = plan("cmd_446", vec![], Some("u32"));
    assert_eq!(p.collision_export, "__telepath_cmd_id_43AE");
}

#[test]
fn distinct_commands_do_not_collide() {
    let mut registry = CmdIdRegistry::new();
    assert!(plan_command(&signature("ping", vec![], Some("u32")), &mut registry).is_ok());
    assert!(plan_command(&signature("echo", vec![arg("x", "u32")], Some("u32")), &mut registry)
        .is_ok());
}

#[test]
fn registry_clear_forgets_ids() {
    let mut registry = CmdIdRegistry::new();
    assert!(plan_command(&signature("cmd_446", vec![], Some("u32")), &mut registry).is_ok());
    registry.clear();
    assert!(plan_command(&signature("cmd_470", vec![], Some("u32")), &mut registry).is_ok());
}

fn rejected(sig: CommandSignature) -> (CommandErrorKind, Option<usize>, String) {
    match plan_command(&sig, &mut CmdIdRegistry::new()) {
        Err(e) => (e.kind, e.at_input, e.message),
        Ok(_) => panic!("expected rejection"),
    }
}

#[test]
fn qualifiers_are_rejected_first() {
    let mut s = signature("f", vec![FnInput::Receiver], None);
    s.is_async = true;
    s.is_unsafe = true;
    let (k, at, m) = rejected(s);
    assert_eq!(k, CommandErrorKind::AsyncFn);
    assert_eq!(at, None);
    assert_eq!(m, "#[command] does not support async fn");
    let mut s = signature("f", vec![], None);
    s.has_where_clause = true;
    assert_eq!(rejected(s).0, CommandErrorKind::WhereClause);
    let mut s = signature("f", vec![], None);
    s.has_generics = true;
    assert_eq!(rejected(s).0, CommandErrorKind::Generic);
}

#[test]
fn faulty_inputs_are_reported_with_their_position() {
    let (k, at, _) = rejected(signature("f", vec![arg("a", "u8"), FnInput::Receiver], None));
    assert_eq!((k, at), (CommandErrorKind::Method, Some(1)));
    let pattern = FnInput::Typed(TypedArg {
        ident: None,
        is_resource: false,
        ty: TypeText { text: "u8".to_string(), reference: None },
    });
    let (k, at, _) = rejected(signature("f", vec![pattern], None));
    assert_eq!((k, at), (CommandErrorKind::PatternArg, Some(0)));
    let by_value_resource = FnInput::Typed(TypedArg {
        ident: Some("c".to_string()),
        is_resource: true,
        ty: TypeText { text: "Counter".to_string(), reference: None },
    });
    let (k, _, m) = rejected(signature("f", vec![by_value_resource], None));
    assert_eq!(k, CommandErrorKind::ResourceNotReference);
    assert_eq!(m, "#[resource] arguments must be &T or &mut T");
    let (k, at, _) = rejected(signature(
        "f",
        vec![resource("a", "Counter", true), arg("x", "u8"), resource("b", "Counter", false)],
        None,
    ));
    assert_eq!((k, at), (CommandErrorKind::DuplicateResource, Some(2)));
    let plain_ref = FnInput::Typed(TypedArg {
        ident: Some("s".to_string()),
        is_resource: false,
        ty: TypeText {
            text: "&str".to_string(),
            reference: Some(RefType { mutable: false, elem: "str".to_string() }),
        },
    });
    let (k, _, m) = rejected(signature("f", vec![plain_ref], None));
    assert_eq!(k, CommandErrorKind::ReferenceArg);
    assert_eq!(
        m,
        "#[command] does not support reference arguments (use #[resource] for injected references)"
    );
}

#[test]
fn reference_return_is_rejected() {
    let mut s = signature("f", vec![], None);
    s.output = Some(TypeText {
        text: "&u8".to_string(),
        reference: Some(RefType { mutable: false, elem: "u8".to_string() }),
    });
    assert_eq!(rejected(s).0, CommandErrorKind::ReferenceReturn);
}

#[test]
fn default_return_and_tuple_texts() {
    let p = plan("go", vec![arg("a", "u8"), arg("b", "u16"), arg("c", "bool")], None);
    assert_eq!(p.ret_type_str, "()");
    assert_eq!(p.args_type_str, "(u8, u16, bool)");
    assert_eq!(p.wire_types, vec!["u8", "u16", "bool"]);
    assert_eq!(p.arg_names, "a,b,c");
}
