//! JSON Schema describing the JSON form of a schema type, as the JSON to
//! postcard encoder accepts it.

use vstd::prelude::*;
use vstd::string::*;
use crate::data_model::{
    array_of, array_view, json_view, object_of, object_view, push_item, push_member, str_of,
    DataModel, JsonOut, JsonView, NamedType, NamedValue, NamedVariant, VariantModel,
};
use crate::json_encode::{budget, MAX_DEPTH};

verus! {

/// An object with one member.
pub open spec fn obj1(k1: Seq<char>, v1: JsonView) -> JsonView {
    JsonView::Object(seq![(k1, v1)])
}

/// An object with two members.
pub open spec fn obj2(k1: Seq<char>, v1: JsonView, k2: Seq<char>, v2: JsonView) -> JsonView {
    JsonView::Object(seq![(k1, v1), (k2, v2)])
}

/// An object with three members.
pub open spec fn obj3(
    k1: Seq<char>,
    v1: JsonView,
    k2: Seq<char>,
    v2: JsonView,
    k3: Seq<char>,
    v3: JsonView,
) -> JsonView {
    JsonView::Object(seq![(k1, v1), (k2, v2), (k3, v3)])
}

/// An object with four members.
pub open spec fn obj4(
    k1: Seq<char>,
    v1: JsonView,
    k2: Seq<char>,
    v2: JsonView,
    k3: Seq<char>,
    v3: JsonView,
    k4: Seq<char>,
    v4: JsonView,
) -> JsonView {
    JsonView::Object(seq![(k1, v1), (k2, v2), (k3, v3), (k4, v4)])
}

/// `{"type": t}`.
pub open spec fn typed(t: Seq<char>) -> JsonView {
    obj1("type"@, JsonView::Str(t))
}

/// `{"type": "integer", "minimum": lo, "maximum": hi}`.
pub open spec fn integer_range(lo: JsonView, hi: JsonView) -> JsonView {
    obj3("type"@, JsonView::Str("integer"@), "minimum"@, lo, "maximum"@, hi)
}

/// `{"type": "array", "prefixItems": items, "minItems": n, "maxItems": n}`.
pub open spec fn fixed_array(items: Seq<JsonView>) -> JsonView {
    obj4(
        "type"@,
        JsonView::Str("array"@),
        "prefixItems"@,
        JsonView::Array(items),
        "minItems"@,
        JsonView::Unsigned(items.len() as u64),
        "maxItems"@,
        JsonView::Unsigned(items.len() as u64),
    )
}

/// `{"type": "object", "properties": props, "required": names, "additionalProperties": false}`.
pub open spec fn closed_object(
    props: Seq<(Seq<char>, JsonView)>,
    names: Seq<JsonView>,
) -> JsonView {
    obj4(
        "type"@,
        JsonView::Str("object"@),
        "properties"@,
        JsonView::Object(props),
        "required"@,
        JsonView::Array(names),
        "additionalProperties"@,
        JsonView::Bool(false),
    )
}

/// Field names as JSON strings.
pub open spec fn field_names(fields: Seq<NamedValue>) -> Seq<JsonView> {
    Seq::new(fields.len(), |i: int| JsonView::Str(fields[i].name@))
}

/// Variant names as JSON strings.
pub open spec fn variant_names(variants: Seq<NamedVariant>) -> Seq<JsonView> {
    Seq::new(variants.len(), |i: int| JsonView::Str(variants[i].name@))
}

/// Whether every variant is a unit variant.
pub open spec fn all_unit(variants: Seq<NamedVariant>) -> bool {
    forall|i: int| 0 <= i < variants.len() ==> variants[i].ty is UnitVariant
}

/// The JSON Schema of values of type `dmt`, `depth` levels down.
pub open spec fn schema_json(dmt: DataModel, depth: nat) -> JsonView
    decreases budget(depth), 0nat, 0nat,
{
    if depth >= MAX_DEPTH {
        obj2("type"@, JsonView::Str("object"@), "description"@, JsonView::Str("schema depth exceeded"@))
    } else {
        match dmt {
            DataModel::Bool => typed("boolean"@),
            DataModel::U8 => integer_range(JsonView::Signed(0i64), JsonView::Unsigned(255u64)),
            DataModel::U16 => integer_range(JsonView::Signed(0i64), JsonView::Unsigned(65535u64)),
            DataModel::U32 => integer_range(JsonView::Signed(0i64), JsonView::Unsigned(4294967295u64)),
            DataModel::U64 => integer_range(
                JsonView::Signed(0i64),
                JsonView::Unsigned(18446744073709551615u64),
            ),
            DataModel::U128 => obj2("type"@, JsonView::Str("string"@), "pattern"@, JsonView::Str("^[0-9]+$"@)),
            DataModel::Usize => integer_range(
                JsonView::Signed(0i64),
                JsonView::Unsigned(18446744073709551615u64),
            ),
            DataModel::I8 => integer_range(JsonView::Signed(-128i64), JsonView::Signed(127i64)),
            DataModel::I16 => integer_range(JsonView::Signed(-32768i64), JsonView::Signed(32767i64)),
            DataModel::I32 => integer_range(
                JsonView::Signed(-2147483648i64),
                JsonView::Signed(2147483647i64),
            ),
            DataModel::I64 => integer_range(
                JsonView::Signed(i64::MIN),
                JsonView::Signed(i64::MAX),
            ),
            DataModel::I128 => obj2("type"@, JsonView::Str("string"@), "pattern"@, JsonView::Str("^-?[0-9]+$"@)),
            DataModel::Isize => integer_range(
                JsonView::Signed(i64::MIN),
                JsonView::Signed(i64::MAX),
            ),
            DataModel::F32 => typed("number"@),
            DataModel::F64 => typed("number"@),
            DataModel::Char => obj3(
                "type"@,
                JsonView::Str("string"@),
                "minLength"@,
                JsonView::Unsigned(1u64),
                "maxLength"@,
                JsonView::Unsigned(1u64),
            ),
            DataModel::String => typed("string"@),
            DataModel::ByteArray => obj2(
                "type"@,
                JsonView::Str("array"@),
                "items"@,
                integer_range(JsonView::Signed(0i64), JsonView::Unsigned(255u64)),
            ),
            DataModel::Option(inner) => obj1(
                "oneOf"@,
                JsonView::Array(seq![schema_json(inner.ty, depth + 1), typed("null"@)]),
            ),
            DataModel::Unit => typed("null"@),
            DataModel::UnitStruct => typed("null"@),
            DataModel::NewtypeStruct(inner) => schema_json(inner.ty, depth + 1),
            DataModel::SeqOf(inner) => obj2(
                "type"@,
                JsonView::Str("array"@),
                "items"@,
                schema_json(inner.ty, depth + 1),
            ),
            DataModel::Tuple(elems) => fixed_array(schema_items(elems@, depth + 1, 0)),
            DataModel::TupleStruct(elems) => fixed_array(schema_items(elems@, depth + 1, 0)),
            DataModel::MapOf { key, val } => match key.ty {
                DataModel::String => obj2(
                    "type"@,
                    JsonView::Str("object"@),
                    "additionalProperties"@,
                    schema_json(val.ty, depth + 1),
                ),
                _ => obj2(
                    "type"@,
                    JsonView::Str("array"@),
                    "items"@,
                    obj4(
                        "type"@,
                        JsonView::Str("array"@),
                        "prefixItems"@,
                        JsonView::Array(
                            seq![schema_json(key.ty, depth + 1), schema_json(val.ty, depth + 1)],
                        ),
                        "minItems"@,
                        JsonView::Unsigned(2u64),
                        "maxItems"@,
                        JsonView::Unsigned(2u64),
                    ),
                ),
            },
            DataModel::Struct(fields) => closed_object(
                schema_props(fields@, depth + 1, 0),
                field_names(fields@),
            ),
            DataModel::Enum(variants) => if all_unit(variants@) {
                obj2("type"@, JsonView::Str("string"@), "enum"@, JsonView::Array(variant_names(variants@)))
            } else {
                obj1("oneOf"@, JsonView::Array(variant_branches(variants@, depth + 1, 0)))
            },
            DataModel::Schema => obj2(
                "type"@,
                JsonView::Str("object"@),
                "description"@,
                JsonView::Str("opaque postcard schema"@),
            ),
        }
    }
}

/// Schemas of tuple elements `i..`.
pub open spec fn schema_items(elems: Seq<NamedType>, depth: nat, i: nat) -> Seq<JsonView>
    decreases budget(depth), 1nat, elems.len() - i,
{
    if i >= elems.len() {
        Seq::empty()
    } else {
        seq![schema_json(elems[i as int].ty, depth)] + schema_items(elems, depth, i + 1)
    }
}

/// Property schemas of struct fields `i..`.
pub open spec fn schema_props(fields: Seq<NamedValue>, depth: nat, i: nat) -> Seq<(Seq<char>, JsonView)>
    decreases budget(depth), 1nat, fields.len() - i,
{
    if i >= fields.len() {
        Seq::empty()
    } else {
        seq![(fields[i as int].name@, schema_json(fields[i as int].ty.ty, depth))] + schema_props(
            fields,
            depth,
            i + 1,
        )
    }
}

/// Branch schemas of enum variants `i..`.
pub open spec fn variant_branches(variants: Seq<NamedVariant>, depth: nat, i: nat) -> Seq<JsonView>
    decreases budget(depth), 3nat, variants.len() - i,
{
    if i >= variants.len() {
        Seq::empty()
    } else {
        seq![variant_schema(variants[i as int], depth)] + variant_branches(variants, depth, i + 1)
    }
}

/// The schema of one variant of an enum that is not all unit variants.
pub open spec fn variant_schema(v: NamedVariant, depth: nat) -> JsonView
    decreases budget(depth), 2nat, 0nat,
{
    let wrap = |inner: JsonView|
        closed_object(seq![(v.name@, inner)], seq![JsonView::Str(v.name@)]);
    match v.ty {
        VariantModel::UnitVariant => obj2("type"@, JsonView::Str("string"@), "const"@, JsonView::Str(v.name@)),
        VariantModel::NewtypeVariant(inner) => wrap(schema_json(inner.ty, depth)),
        VariantModel::TupleVariant(elems) => wrap(fixed_array(schema_items(elems@, depth, 0))),
        VariantModel::StructVariant(fields) => wrap(
            closed_object(schema_props(fields@, depth, 0), field_names(fields@)),
        ),
    }
}

// ---------------------------------------------------------------------------
// Building the schema
// ---------------------------------------------------------------------------

/// Build `{k1: v1}`.
fn obj1_of(k1: &str, v1: JsonOut) -> (r: JsonOut)
    ensures
        json_view(r) == obj1(k1@, json_view(v1)),
{
    let mut m: Vec<(String, JsonOut)> = Vec::new();
    push_member(&mut m, k1, v1);
    let r = object_of(m);
    assert(object_view(m@) =~= seq![(k1@, json_view(v1))]);
    r
}

/// Build `{k1: v1, k2: v2}`.
fn obj2_of(k1: &str, v1: JsonOut, k2: &str, v2: JsonOut) -> (r: JsonOut)
    ensures
        json_view(r) == obj2(k1@, json_view(v1), k2@, json_view(v2)),
{
    let ghost (g1, g2) = (json_view(v1), json_view(v2));
    let mut m: Vec<(String, JsonOut)> = Vec::new();
    push_member(&mut m, k1, v1);
    push_member(&mut m, k2, v2);
    assert(object_view(m@) =~= seq![(k1@, g1), (k2@, g2)]);
    object_of(m)
}

/// Build `{k1: v1, k2: v2, k3: v3}`.
fn obj3_of(k1: &str, v1: JsonOut, k2: &str, v2: JsonOut, k3: &str, v3: JsonOut) -> (r: JsonOut)
    ensures
        json_view(r) == obj3(k1@, json_view(v1), k2@, json_view(v2), k3@, json_view(v3)),
{
    let ghost (g1, g2, g3) = (json_view(v1), json_view(v2), json_view(v3));
    let mut m: Vec<(String, JsonOut)> = Vec::new();
    push_member(&mut m, k1, v1);
    push_member(&mut m, k2, v2);
    push_member(&mut m, k3, v3);
    assert(object_view(m@) =~= seq![(k1@, g1), (k2@, g2), (k3@, g3)]);
    object_of(m)
}

/// Build `{k1: v1, k2: v2, k3: v3, k4: v4}`.
fn obj4_of(
    k1: &str,
    v1: JsonOut,
    k2: &str,
    v2: JsonOut,
    k3: &str,
    v3: JsonOut,
    k4: &str,
    v4: JsonOut,
) -> (r: JsonOut)
    ensures
        json_view(r) == obj4(
            k1@,
            json_view(v1),
            k2@,
            json_view(v2),
            k3@,
            json_view(v3),
            k4@,
            json_view(v4),
        ),
{
    let ghost (g1, g2, g3, g4) = (json_view(v1), json_view(v2), json_view(v3), json_view(v4));
    let mut m: Vec<(String, JsonOut)> = Vec::new();
    push_member(&mut m, k1, v1);
    push_member(&mut m, k2, v2);
    push_member(&mut m, k3, v3);
    push_member(&mut m, k4, v4);
    assert(object_view(m@) =~= seq![(k1@, g1), (k2@, g2), (k3@, g3), (k4@, g4)]);
    object_of(m)
}

/// Build `{"type": t}`.
fn typed_of(t: &str) -> (r: JsonOut)
    ensures
        json_view(r) == typed(t@),
{
    obj1_of("type", str_of(t))
}

/// Build an integer range schema.
fn integer_range_of(lo: JsonOut, hi: JsonOut) -> (r: JsonOut)
    ensures
        json_view(r) == integer_range(json_view(lo), json_view(hi)),
{
    obj3_of("type", str_of("integer"), "minimum", lo, "maximum", hi)
}

/// Build a fixed-length array schema from its item schemas.
fn fixed_array_of(items: Vec<JsonOut>) -> (r: JsonOut)
    ensures
        json_view(r) == fixed_array(array_view(items@)),
{
    let n = items.len() as u64;
    let ghost iv = array_view(items@);
    obj4_of(
        "type",
        str_of("array"),
        "prefixItems",
        array_of(items),
        "minItems",
        JsonOut::Unsigned(n),
        "maxItems",
        JsonOut::Unsigned(n),
    )
}

/// Build a closed object schema from its property schemas and required names.
fn closed_object_of(props: Vec<(String, JsonOut)>, names: Vec<JsonOut>) -> (r: JsonOut)
    ensures
        json_view(r) == closed_object(object_view(props@), array_view(names@)),
{
    obj4_of(
        "type",
        str_of("object"),
        "properties",
        object_of(props),
        "required",
        array_of(names),
        "additionalProperties",
        JsonOut::Bool(false),
    )
}

/// Wrap a variant's content schema in an object keyed by the variant's name.
fn wrap_variant(name: &str, inner: JsonOut) -> (r: JsonOut)
    ensures
        json_view(r) == closed_object(seq![(name@, json_view(inner))], seq![JsonView::Str(name@)]),
{
    let ghost g = json_view(inner);
    let mut props: Vec<(String, JsonOut)> = Vec::new();
    push_member(&mut props, name, inner);
    let mut names: Vec<JsonOut> = Vec::new();
    push_item(&mut names, str_of(name));
    assert(object_view(props@) =~= seq![(name@, g)]);
    assert(array_view(names@) =~= seq![JsonView::Str(name@)]);
    closed_object_of(props, names)
}

/// The JSON Schema of the JSON form of values of `nt`, as the JSON to
/// postcard encoder accepts them.
pub fn named_type_to_json_schema(nt: &NamedType) -> (r: JsonOut)
    ensures
        json_view(r) == schema_json(nt.ty, 0),
{
    dmt_to_schema(&nt.ty, 0)
}

/// The schema of `dmt`, `depth` levels down.
fn dmt_to_schema(dmt: &DataModel, depth: usize) -> (r: JsonOut)
    requires
        depth <= MAX_DEPTH,
    ensures
        json_view(r) == schema_json(*dmt, depth as nat),
    decreases budget(depth as nat), 0nat, 0nat,
{
    if depth >= MAX_DEPTH {
        return obj2_of("type", str_of("object"), "description", str_of("schema depth exceeded"));
    }
    match dmt {
        DataModel::Bool => typed_of("boolean"),
        DataModel::U8 => integer_range_of(JsonOut::Signed(0), JsonOut::Unsigned(255)),
        DataModel::U16 => integer_range_of(JsonOut::Signed(0), JsonOut::Unsigned(65535)),
        DataModel::U32 => integer_range_of(JsonOut::Signed(0), JsonOut::Unsigned(4294967295)),
        DataModel::U64 => integer_range_of(
            JsonOut::Signed(0),
            JsonOut::Unsigned(18446744073709551615),
        ),
        DataModel::U128 => obj2_of("type", str_of("string"), "pattern", str_of("^[0-9]+$")),
        DataModel::Usize => integer_range_of(
            JsonOut::Signed(0),
            JsonOut::Unsigned(18446744073709551615),
        ),
        DataModel::I8 => integer_range_of(JsonOut::Signed(-128), JsonOut::Signed(127)),
        DataModel::I16 => integer_range_of(JsonOut::Signed(-32768), JsonOut::Signed(32767)),
        DataModel::I32 => integer_range_of(
            JsonOut::Signed(-2147483648),
            JsonOut::Signed(2147483647),
        ),
        DataModel::I64 => integer_range_of(JsonOut::Signed(i64::MIN), JsonOut::Signed(i64::MAX)),
        DataModel::I128 => obj2_of("type", str_of("string"), "pattern", str_of("^-?[0-9]+$")),
        DataModel::Isize => integer_range_of(
            JsonOut::Signed(i64::MIN),
            JsonOut::Signed(i64::MAX),
        ),
        DataModel::F32 => typed_of("number"),
        DataModel::F64 => typed_of("number"),
        DataModel::Char => obj3_of(
            "type",
            str_of("string"),
            "minLength",
            JsonOut::Unsigned(1),
            "maxLength",
            JsonOut::Unsigned(1),
        ),
        DataModel::String => typed_of("string"),
        DataModel::ByteArray => obj2_of(
            "type",
            str_of("array"),
            "items",
            integer_range_of(JsonOut::Signed(0), JsonOut::Unsigned(255)),
        ),
        DataModel::Option(inner) => {
            let inner_schema = dmt_to_schema(&inner.ty, depth + 1);
            let mut branches: Vec<JsonOut> = Vec::new();
            let ghost g = json_view(inner_schema);
            push_item(&mut branches, inner_schema);
            push_item(&mut branches, typed_of("null"));
            assert(array_view(branches@) =~= seq![g, typed("null"@)]);
            obj1_of("oneOf", array_of(branches))
        },
        DataModel::Unit => typed_of("null"),
        DataModel::UnitStruct => typed_of("null"),
        DataModel::NewtypeStruct(inner) => dmt_to_schema(&inner.ty, depth + 1),
        DataModel::SeqOf(inner) => {
            let items = dmt_to_schema(&inner.ty, depth + 1);
            obj2_of("type", str_of("array"), "items", items)
        },
        DataModel::Tuple(elems) => fixed_array_of(schema_items_of(elems, depth + 1)),
        DataModel::TupleStruct(elems) => fixed_array_of(schema_items_of(elems, depth + 1)),
        DataModel::MapOf { key, val } => {
            let val_schema = dmt_to_schema(&val.ty, depth + 1);
            if let DataModel::String = &key.ty {
                obj2_of("type", str_of("object"), "additionalProperties", val_schema)
            } else {
                let key_schema = dmt_to_schema(&key.ty, depth + 1);
                let ghost (gk, gv) = (json_view(key_schema), json_view(val_schema));
                let mut pair: Vec<JsonOut> = Vec::new();
                push_item(&mut pair, key_schema);
                push_item(&mut pair, val_schema);
                assert(array_view(pair@) =~= seq![gk, gv]);
                let entry = obj4_of(
                    "type",
                    str_of("array"),
                    "prefixItems",
                    array_of(pair),
                    "minItems",
                    JsonOut::Unsigned(2),
                    "maxItems",
                    JsonOut::Unsigned(2),
                );
                obj2_of("type", str_of("array"), "items", entry)
            }
        },
        DataModel::Struct(fields) => {
            let (props, names) = schema_props_of(fields, depth + 1);
            closed_object_of(props, names)
        },
        DataModel::Enum(variants) => {
            if all_unit_variants(variants) {
                let names = variant_names_of(variants);
                obj2_of("type", str_of("string"), "enum", array_of(names))
            } else {
                let branches = variant_branches_of(variants, depth + 1);
                obj1_of("oneOf", array_of(branches))
            }
        },
        DataModel::Schema => obj2_of(
            "type",
            str_of("object"),
            "description",
            str_of("opaque postcard schema"),
        ),
    }
}

/// The schemas of tuple elements.
fn schema_items_of(elems: &Vec<NamedType>, depth: usize) -> (r: Vec<JsonOut>)
    requires
        depth <= MAX_DEPTH,
    ensures
        array_view(r@) == schema_items(elems@, depth as nat, 0),
    decreases budget(depth as nat), 1nat, 0nat,
{
    let mut items: Vec<JsonOut> = Vec::new();
    let mut i: usize = 0;
    while i < elems.len()
        invariant
            i <= elems@.len(),
            depth <= MAX_DEPTH,
            schema_items(elems@, depth as nat, 0) == array_view(items@) + schema_items(
                elems@,
                depth as nat,
                i as nat,
            ),
        decreases elems@.len() - i,
    {
        let s = dmt_to_schema(&elems[i].ty, depth);
        let ghost before = array_view(items@);
        let ghost g = json_view(s);
        push_item(&mut items, s);
        assert(before.push(g) + schema_items(elems@, depth as nat, (i + 1) as nat) =~= before + (
        seq![g] + schema_items(elems@, depth as nat, (i + 1) as nat)));
        i += 1;
    }
    assert(array_view(items@) + schema_items(elems@, depth as nat, i as nat) =~= array_view(
        items@,
    ));
    items
}

/// The property schemas and required names of struct fields.
fn schema_props_of(fields: &Vec<NamedValue>, depth: usize) -> (r: (
    Vec<(String, JsonOut)>,
    Vec<JsonOut>,
))
    requires
        depth <= MAX_DEPTH,
    ensures
        object_view(r.0@) == schema_props(fields@, depth as nat, 0),
        array_view(r.1@) == field_names(fields@),
    decreases budget(depth as nat), 1nat, 0nat,
{
    let mut props: Vec<(String, JsonOut)> = Vec::new();
    let mut names: Vec<JsonOut> = Vec::new();
    let mut i: usize = 0;
    while i < fields.len()
        invariant
            i <= fields@.len(),
            depth <= MAX_DEPTH,
            schema_props(fields@, depth as nat, 0) == object_view(props@) + schema_props(
                fields@,
                depth as nat,
                i as nat,
            ),
            array_view(names@) == field_names(fields@).take(i as int),
        decreases fields@.len() - i,
    {
        let f = &fields[i];
        let s = dmt_to_schema(&f.ty.ty, depth);
        let ghost before = object_view(props@);
        let ghost g = json_view(s);
        push_member(&mut props, f.name.as_str(), s);
        push_item(&mut names, str_of(f.name.as_str()));
        assert(before.push((f.name@, g)) + schema_props(fields@, depth as nat, (i + 1) as nat)
            =~= before + (seq![(f.name@, g)] + schema_props(fields@, depth as nat, (i + 1) as nat)));
        assert(field_names(fields@).take(i + 1) =~= field_names(fields@).take(i as int).push(
            JsonView::Str(f.name@),
        ));
        i += 1;
    }
    assert(object_view(props@) + schema_props(fields@, depth as nat, i as nat) =~= object_view(
        props@,
    ));
    assert(field_names(fields@).take(i as int) =~= field_names(fields@));
    (props, names)
}

/// Whether every variant is a unit variant.
fn all_unit_variants(variants: &Vec<NamedVariant>) -> (b: bool)
    ensures
        b == all_unit(variants@),
{
    let mut i: usize = 0;
    while i < variants.len()
        invariant
            i <= variants@.len(),
            forall|j: int| 0 <= j < i ==> variants@[j].ty is UnitVariant,
        decreases variants@.len() - i,
    {
        if let VariantModel::UnitVariant = &variants[i].ty {
        } else {
            return false;
        }
        i += 1;
    }
    true
}

/// The names of the variants, as JSON strings.
fn variant_names_of(variants: &Vec<NamedVariant>) -> (r: Vec<JsonOut>)
    ensures
        array_view(r@) == variant_names(variants@),
{
    let mut names: Vec<JsonOut> = Vec::new();
    let mut i: usize = 0;
    while i < variants.len()
        invariant
            i <= variants@.len(),
            array_view(names@) == variant_names(variants@).take(i as int),
        decreases variants@.len() - i,
    {
        push_item(&mut names, str_of(variants[i].name.as_str()));
        assert(variant_names(variants@).take(i + 1) =~= variant_names(variants@).take(i as int).push(
            JsonView::Str(variants@[i as int].name@),
        ));
        i += 1;
    }
    assert(variant_names(variants@).take(i as int) =~= variant_names(variants@));
    names
}

/// The branch schemas of the variants of an enum that is not all unit variants.
fn variant_branches_of(variants: &Vec<NamedVariant>, depth: usize) -> (r: Vec<JsonOut>)
    requires
        depth <= MAX_DEPTH,
    ensures
        array_view(r@) == variant_branches(variants@, depth as nat, 0),
    decreases budget(depth as nat), 3nat, 0nat,
{
    let mut items: Vec<JsonOut> = Vec::new();
    let mut i: usize = 0;
    while i < variants.len()
        invariant
            i <= variants@.len(),
            depth <= MAX_DEPTH,
            variant_branches(variants@, depth as nat, 0) == array_view(items@) + variant_branches(
                variants@,
                depth as nat,
                i as nat,
            ),
        decreases variants@.len() - i,
    {
        let s = variant_to_schema(&variants[i], depth);
        let ghost before = array_view(items@);
        let ghost g = json_view(s);
        push_item(&mut items, s);
        assert(before.push(g) + variant_branches(variants@, depth as nat, (i + 1) as nat) =~= before
            + (seq![g] + variant_branches(variants@, depth as nat, (i + 1) as nat)));
        i += 1;
    }
    assert(array_view(items@) + variant_branches(variants@, depth as nat, i as nat) =~= array_view(
        items@,
    ));
    items
}

/// The schema of one variant.
fn variant_to_schema(v: &NamedVariant, depth: usize) -> (r: JsonOut)
    requires
        depth <= MAX_DEPTH,
    ensures
        json_view(r) == variant_schema(*v, depth as nat),
    decreases budget(depth as nat), 2nat, 0nat,
{
    let name = v.name.as_str();
    match &v.ty {
        VariantModel::UnitVariant => obj2_of("type", str_of("string"), "const", str_of(name)),
        VariantModel::NewtypeVariant(inner) => wrap_variant(name, dmt_to_schema(&inner.ty, depth)),
        VariantModel::TupleVariant(elems) => wrap_variant(
            name,
            fixed_array_of(schema_items_of(elems, depth)),
        ),
        VariantModel::StructVariant(fields) => {
            let (props, names) = schema_props_of(fields, depth);
            wrap_variant(name, closed_object_of(props, names))
        },
    }
}

} // verus!
