use telepath::command::{
    plan_command, CmdIdRegistry, CommandPlan, CommandSignature, FnInput, RefType, TypeText,
    TypedArg,
};

fn arg(name: &str, ty: &str) -> FnInput {
    FnInput::Typed(TypedArg {
        ident: Some(name.to_string()),
        is_resource: false,
        ty: TypeText { text: ty.to_string(), reference: None },
    })
}

#[allow(dead_code)]
fn resource(name: &str, inner: &str, mutable: bool) -> FnInput {
    let text = if mutable { format!("&mut {inner}") } else { format!("&{inner}") };
    FnInput::Typed(TypedArg {
        ident: Some(name.to_string()),
        is_resource: true,
        ty: TypeText {
            text,
            reference: Some(RefType { mutable, elem: inner.to_string() }),
        },
    })
}

fn signature(name: &str, inputs: Vec<FnInput>, ret: Option<&str>) -> CommandSignature {
    CommandSignature {
        name: name.to_string(),
        is_async: false,
        is_unsafe: false,
        has_generics: false,
        has_where_clause: false,
        inputs,
        output: ret.map(|t| TypeText { text: t.to_string(), reference: None }),
    }
}

#[allow(dead_code)]
fn plan(name: &str, inputs: Vec<FnInput>, ret: Option<&str>) -> CommandPlan {
    plan_command(&signature(name, inputs, ret), &mut CmdIdRegistry::new()).unwrap()
}
use telepath::cmd_id::derive_cmd_id;

fn temp_read() -> i16 {
    100
}

fn rng_u32() -> u32 {
    0xCAFE_BABE
}

fn ficr_uid() -> (u32, u32) {
    (0xAAAA_AAAA, 0x5555_5555)
}

fn saadc_vdd_mv() -> u16 {
    3300
}

fn temp_read_plan() -> CommandPlan {
    plan("temp_read", vec![], Some("i16"))
}

fn rng_u32_plan() -> CommandPlan {
    plan("rng_u32", vec![], Some("u32"))
}

fn ficr_uid_plan() -> CommandPlan {
    plan("ficr_uid", vec![], Some("(u32, u32)"))
}

fn saadc_vdd_mv_plan() -> CommandPlan {
    plan("saadc_vdd_mv", vec![], Some("u16"))
}

#[test]
fn temp_read_metadata_name() {
    assert_eq!(temp_read_plan().name, "temp_read");
}

#[test]
fn temp_read_metadata_id_nonzero() {
    assert_ne!(temp_read_plan().cmd_id, 0x0000);
}

#[test]
fn rng_u32_metadata_name() {
    assert_eq!(rng_u32_plan().name, "rng_u32");
}

#[test]
fn rng_u32_metadata_id_nonzero() {
    assert_ne!(rng_u32_plan().cmd_id, 0x0000);
}

#[test]
fn ficr_uid_metadata_name() {
    assert_eq!(ficr_uid_plan().name, "ficr_uid");
}

#[test]
fn ficr_uid_metadata_id_nonzero() {
    assert_ne!(ficr_uid_plan().cmd_id, 0x0000);
}

#[test]
fn saadc_vdd_mv_metadata_name() {
    assert_eq!(saadc_vdd_mv_plan().name, "saadc_vdd_mv");
}

#[test]
fn saadc_vdd_mv_metadata_id_nonzero() {
    assert_ne!(saadc_vdd_mv_plan().cmd_id, 0x0000);
}

#[test]
fn temp_read_cmd_id_deterministic() {
    let expected = derive_cmd_id("temp_read", "()", "i16");
    assert_eq!(temp_read_plan().cmd_id, expected);
}

#[test]
fn rng_u32_cmd_id_deterministic() {
    let expected = derive_cmd_id("rng_u32", "()", "u32");
    assert_eq!(rng_u32_plan().cmd_id, expected);
}

#[test]
fn ficr_uid_cmd_id_deterministic() {
    let expected = derive_cmd_id("ficr_uid", "()", "(u32, u32)");
    assert_eq!(ficr_uid_plan().cmd_id, expected);
}

#[test]
fn saadc_vdd_mv_cmd_id_deterministic() {
    let expected = derive_cmd_id("saadc_vdd_mv", "()", "u16");
    assert_eq!(saadc_vdd_mv_plan().cmd_id, expected);
}

#[test]
fn nrf52840_sensors_contract_original_fns_callable() {
    assert_eq!(temp_read(), 100);
    assert_eq!(rng_u32(), 0xCAFE_BABE);
    assert_eq!(ficr_uid(), (0xAAAA_AAAA, 0x5555_5555));
    assert_eq!(saadc_vdd_mv(), 3300);
}
