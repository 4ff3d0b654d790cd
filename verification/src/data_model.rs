//! Schemas of command arguments and results, and JSON values, as the codec
//! between JSON and postcard reads them.

use vstd::prelude::*;

verus! {

/// A named schema type.
#[derive(Debug)]
pub struct NamedType {
    /// The type's name.
    pub name: String,
    /// Its data model.
    pub ty: DataModel,
}

/// A named struct field.
#[derive(Debug)]
pub struct NamedValue {
    /// The field's name.
    pub name: String,
    /// The field's type.
    pub ty: NamedType,
}

/// A named enum variant.
#[derive(Debug)]
pub struct NamedVariant {
    /// The variant's name.
    pub name: String,
    /// The variant's shape.
    pub ty: VariantModel,
}

/// The shape of an enum variant.
#[derive(Debug)]
pub enum VariantModel {
    UnitVariant,
    NewtypeVariant(Box<NamedType>),
    TupleVariant(Vec<NamedType>),
    StructVariant(Vec<NamedValue>),
}

/// The serde data model of a schema type.
#[derive(Debug)]
pub enum DataModel {
    Bool,
    I8,
    U8,
    I16,
    I32,
    I64,
    I128,
    U16,
    U32,
    U64,
    U128,
    Usize,
    Isize,
    F32,
    F64,
    Char,
    String,
    ByteArray,
    Option(Box<NamedType>),
    Unit,
    UnitStruct,
    NewtypeStruct(Box<NamedType>),
    SeqOf(Box<NamedType>),
    Tuple(Vec<NamedType>),
    TupleStruct(Vec<NamedType>),
    MapOf { key: Box<NamedType>, val: Box<NamedType> },
    Struct(Vec<NamedValue>),
    Enum(Vec<NamedVariant>),
    Schema,
}

/// A JSON number, by what its accessors give: the value as `u64` and as
/// `i64` where it is such an integer, and the bits of its value as `f64` and
/// of that value rounded to `f32`.
#[derive(Debug, Clone, Copy)]
pub struct JsonNumber {
    pub as_u64: Option<u64>,
    pub as_i64: Option<i64>,
    pub f64_bits: u64,
    pub f32_bits: u32,
}

/// A JSON value. An object keeps its members in order.
#[derive(Debug)]
pub enum JsonValue {
    Null,
    Bool(bool),
    Number(JsonNumber),
    String(String),
    Array(Vec<JsonValue>),
    Object(Vec<(String, JsonValue)>),
}

/// The name of the kind of `v`.
pub open spec fn kind_text(v: JsonValue) -> Seq<char> {
    match v {
        JsonValue::Null => "null"@,
        JsonValue::Bool(_) => "boolean"@,
        JsonValue::Number(_) => "number"@,
        JsonValue::String(_) => "string"@,
        JsonValue::Array(_) => "array"@,
        JsonValue::Object(_) => "object"@,
    }
}

/// The name of the kind of `v`.
pub fn json_kind(v: &JsonValue) -> (s: String)
    ensures
        s@ == kind_text(*v),
{
    match v {
        JsonValue::Null => "null".to_owned(),
        JsonValue::Bool(_) => "boolean".to_owned(),
        JsonValue::Number(_) => "number".to_owned(),
        JsonValue::String(_) => "string".to_owned(),
        JsonValue::Array(_) => "array".to_owned(),
        JsonValue::Object(_) => "object".to_owned(),
    }
}

/// The first member of `members` named `key`.
pub open spec fn member(members: Seq<(String, JsonValue)>, key: Seq<char>) -> Option<int>
    decreases members.len(),
{
    if members.len() == 0 {
        None
    } else {
        match member(members.drop_last(), key) {
            Some(i) => Some(i),
            None => if members.last().0@ == key {
                Some(members.len() - 1)
            } else {
                None
            },
        }
    }
}

/// The member index `member` gives is that of a member with the key, and
/// none before it has the key.
pub proof fn lemma_member(members: Seq<(String, JsonValue)>, key: Seq<char>)
    ensures
        member(members, key) matches Some(i) ==> 0 <= i < members.len() && members[i].0@ == key
            && forall|j: int| 0 <= j < i ==> members[j].0@ != key,
        member(members, key) is None ==> forall|j: int|
            0 <= j < members.len() ==> members[j].0@ != key,
    decreases members.len(),
{
    if members.len() > 0 {
        let init = members.drop_last();
        lemma_member(init, key);
        assert forall|j: int| 0 <= j < init.len() implies init[j] == members[j] by {}
    }
}

/// Look up the first member of `members` named `key`.
pub fn find_member(members: &Vec<(String, JsonValue)>, key: &str) -> (r: Option<usize>)
    ensures
        r matches Some(i) ==> member(members@, key@) == Some(i as int),
        r is None ==> member(members@, key@) is None,
{
    let wanted = key.to_owned();
    let mut i: usize = 0;
    while i < members.len()
        invariant
            i <= members@.len(),
            wanted@ == key@,
            forall|j: int| 0 <= j < i ==> members@[j].0@ != key@,
        decreases members@.len() - i,
    {
        if members[i].0 == wanted {
            proof {
                lemma_member(members@, key@);
                if let Some(k) = member(members@, key@) {
                    assert(k <= i as int);
                } else {
                }
                lemma_member_found(members@, key@, i as int);
            }
            return Some(i);
        }
        i += 1;
    }
    proof {
        lemma_member(members@, key@);
        if let Some(k) = member(members@, key@) {
            assert(members@[k].0@ == key@);
        }
    }
    None
}

/// A member with the key, with none before it, is the one `member` finds.
proof fn lemma_member_found(members: Seq<(String, JsonValue)>, key: Seq<char>, i: int)
    requires
        0 <= i < members.len(),
        members[i].0@ == key,
        forall|j: int| 0 <= j < i ==> members[j].0@ != key,
    ensures
        member(members, key) == Some(i),
    decreases members.len(),
{
    lemma_member(members, key);
    if i < members.len() - 1 {
        lemma_member_found(members.drop_last(), key, i);
    } else {
        lemma_member(members.drop_last(), key);
    }
}

/// A JSON value built by the library, with numbers kept in the form they
/// were produced in. An object keeps its members in insertion order.
#[derive(Debug)]
pub enum JsonOut {
    Null,
    Bool(bool),
    Unsigned(u64),
    Signed(i64),
    F32Bits(u32),
    F64Bits(u64),
    Str(String),
    Array(Vec<JsonOut>),
    Object(Vec<(String, JsonOut)>),
}

/// A built JSON value with its texts as character sequences.
pub enum JsonView {
    Null,
    Bool(bool),
    Unsigned(u64),
    Signed(i64),
    F32Bits(u32),
    F64Bits(u64),
    Str(Seq<char>),
    Array(Seq<JsonView>),
    Object(Seq<(Seq<char>, JsonView)>),
}

/// The view of a built value.
pub open spec fn json_view(v: JsonOut) -> JsonView
    decreases v,
{
    match v {
        JsonOut::Null => JsonView::Null,
        JsonOut::Bool(b) => JsonView::Bool(b),
        JsonOut::Unsigned(n) => JsonView::Unsigned(n),
        JsonOut::Signed(n) => JsonView::Signed(n),
        JsonOut::F32Bits(b) => JsonView::F32Bits(b),
        JsonOut::F64Bits(b) => JsonView::F64Bits(b),
        JsonOut::Str(s) => JsonView::Str(s@),
        JsonOut::Array(items) => JsonView::Array(
            Seq::new(
                items@.len(),
                |i: int|
                    if 0 <= i < items@.len() {
                        json_view(items@[i])
                    } else {
                        JsonView::Null
                    },
            ),
        ),
        JsonOut::Object(members) => JsonView::Object(
            Seq::new(
                members@.len(),
                |i: int|
                    if 0 <= i < members@.len() {
                        (members@[i].0@, json_view(members@[i].1))
                    } else {
                        (Seq::empty(), JsonView::Null)
                    },
            ),
        ),
    }
}

/// The views of a list of built values.
pub open spec fn array_view(items: Seq<JsonOut>) -> Seq<JsonView> {
    Seq::new(items.len(), |i: int| json_view(items[i]))
}

/// The views of the members of a built object.
pub open spec fn object_view(members: Seq<(String, JsonOut)>) -> Seq<(Seq<char>, JsonView)> {
    Seq::new(members.len(), |i: int| (members[i].0@, json_view(members[i].1)))
}

/// The view of a built array or object is that of its parts.
pub proof fn lemma_view_parts(v: JsonOut)
    ensures
        v matches JsonOut::Array(items) ==> json_view(v) == JsonView::Array(array_view(items@)),
        v matches JsonOut::Object(members) ==> json_view(v) == JsonView::Object(
            object_view(members@),
        ),
{
    match v {
        JsonOut::Array(items) => {
            if let JsonView::Array(vs) = json_view(v) {
                assert(array_view(items@) =~= vs);
            }
        },
        JsonOut::Object(members) => {
            if let JsonView::Object(vs) = json_view(v) {
                assert(object_view(members@) =~= vs);
            }
        },
        _ => {},
    }
}

/// A built array of `items`.
pub fn array_of(items: Vec<JsonOut>) -> (r: JsonOut)
    ensures
        json_view(r) == JsonView::Array(array_view(items@)),
{
    let r = JsonOut::Array(items);
    proof {
        lemma_view_parts(r);
    }
    r
}

/// A built object of `members`.
pub fn object_of(members: Vec<(String, JsonOut)>) -> (r: JsonOut)
    ensures
        json_view(r) == JsonView::Object(object_view(members@)),
{
    let r = JsonOut::Object(members);
    proof {
        lemma_view_parts(r);
    }
    r
}

/// A built string.
pub fn str_of(s: &str) -> (r: JsonOut)
    ensures
        json_view(r) == JsonView::Str(s@),
{
    JsonOut::Str(s.to_owned())
}

/// Append an item to a list being built.
pub fn push_item(items: &mut Vec<JsonOut>, v: JsonOut)
    ensures
        array_view(final(items)@) == array_view(old(items)@).push(json_view(v)),
{
    items.push(v);
    assert(array_view(items@) =~= array_view(old(items)@).push(json_view(v)));
}

/// Append a member to an object being built.
pub fn push_member(members: &mut Vec<(String, JsonOut)>, key: &str, v: JsonOut)
    ensures
        object_view(final(members)@) == object_view(old(members)@).push((key@, json_view(v))),
{
    members.push((key.to_owned(), v));
    assert(object_view(members@) =~= object_view(old(members)@).push((key@, json_view(v))));
}

/// A JSON value with its texts as character sequences.
pub enum ValueView {
    Null,
    Bool(bool),
    Number(JsonNumber),
    Str(Seq<char>),
    Array(Seq<ValueView>),
    Object(Seq<(Seq<char>, ValueView)>),
}

/// The view of a JSON value.
pub open spec fn value_view(v: JsonValue) -> ValueView
    decreases v,
{
    match v {
        JsonValue::Null => ValueView::Null,
        JsonValue::Bool(b) => ValueView::Bool(b),
        JsonValue::Number(n) => ValueView::Number(n),
        JsonValue::String(s) => ValueView::Str(s@),
        JsonValue::Array(items) => ValueView::Array(
            Seq::new(
                items@.len(),
                |i: int|
                    if 0 <= i < items@.len() {
                        value_view(items@[i])
                    } else {
                        ValueView::Null
                    },
            ),
        ),
        JsonValue::Object(members) => ValueView::Object(
            Seq::new(
                members@.len(),
                |i: int|
                    if 0 <= i < members@.len() {
                        (members@[i].0@, value_view(members@[i].1))
                    } else {
                        (Seq::empty(), ValueView::Null)
                    },
            ),
        ),
    }
}

/// The views of a list of JSON values.
pub open spec fn value_items(items: Seq<JsonValue>) -> Seq<ValueView> {
    Seq::new(items.len(), |i: int| value_view(items[i]))
}

/// The views of the members of a JSON object.
pub open spec fn value_members(members: Seq<(String, JsonValue)>) -> Seq<(Seq<char>, ValueView)> {
    Seq::new(members.len(), |i: int| (members[i].0@, value_view(members[i].1)))
}

/// The view of a JSON array or object is that of its parts.
pub proof fn lemma_value_parts(v: JsonValue)
    ensures
        v matches JsonValue::Array(items) ==> value_view(v) == ValueView::Array(
            value_items(items@),
        ),
        v matches JsonValue::Object(members) ==> value_view(v) == ValueView::Object(
            value_members(members@),
        ),
{
    match v {
        JsonValue::Array(items) => {
            if let ValueView::Array(vs) = value_view(v) {
                assert(value_items(items@) =~= vs);
            }
        },
        JsonValue::Object(members) => {
            if let ValueView::Object(vs) = value_view(v) {
                assert(value_members(members@) =~= vs);
            }
        },
        _ => {},
    }
}

/// A copy of a JSON value.
pub fn clone_value(v: &JsonValue) -> (r: JsonValue)
    ensures
        value_view(r) == value_view(*v),
    decreases v,
{
    match v {
        JsonValue::Null => JsonValue::Null,
        JsonValue::Bool(b) => JsonValue::Bool(*b),
        JsonValue::Number(n) => JsonValue::Number(*n),
        JsonValue::String(s) => JsonValue::String(s.clone()),
        JsonValue::Array(items) => {
            let mut out: Vec<JsonValue> = Vec::new();
            let mut i: usize = 0;
            while i < items.len()
                invariant
                    *v == JsonValue::Array(*items),
                    i <= items@.len(),
                    out@.len() == i,
                    forall|k: int| 0 <= k < i ==> value_view(#[trigger] out@[k]) == value_view(
                        items@[k],
                    ),
                decreases items@.len() - i,
            {
                proof {
                    vstd::std_specs::vec::axiom_vec_index_decreases(*items, i as int);
                    assert(decreases_to!(*v => (*v)->Array_0));
                }
                let c = clone_value(&items[i]);
                out.push(c);
                i += 1;
            }
            let r = JsonValue::Array(out);
            proof {
                lemma_value_parts(r);
                lemma_value_parts(*v);
                assert(value_items(out@) =~= value_items(items@));
            }
            r
        },
        JsonValue::Object(members) => {
            let mut out: Vec<(String, JsonValue)> = Vec::new();
            let mut i: usize = 0;
            while i < members.len()
                invariant
                    *v == JsonValue::Object(*members),
                    i <= members@.len(),
                    out@.len() == i,
                    forall|k: int|
                        0 <= k < i ==> (#[trigger] out@[k]).0@ == members@[k].0@ && value_view(
                            out@[k].1,
                        ) == value_view(members@[k].1),
                decreases members@.len() - i,
            {
                proof {
                    vstd::std_specs::vec::axiom_vec_index_decreases(*members, i as int);
                    assert(decreases_to!(*v => (*v)->Object_0));
                    assert(decreases_to!(members@[i as int] => members@[i as int].1));
                }
                let c = clone_value(&members[i].1);
                out.push((members[i].0.clone(), c));
                i += 1;
            }
            let r = JsonValue::Object(out);
            proof {
                lemma_value_parts(r);
                lemma_value_parts(*v);
                assert(value_members(out@) =~= value_members(members@));
            }
            r
        },
    }
}

/// A copy of a built JSON value.
pub fn clone_out(v: &JsonOut) -> (r: JsonOut)
    ensures
        json_view(r) == json_view(*v),
    decreases v,
{
    match v {
        JsonOut::Null => JsonOut::Null,
        JsonOut::Bool(b) => JsonOut::Bool(*b),
        JsonOut::Unsigned(n) => JsonOut::Unsigned(*n),
        JsonOut::Signed(n) => JsonOut::Signed(*n),
        JsonOut::F32Bits(b) => JsonOut::F32Bits(*b),
        JsonOut::F64Bits(b) => JsonOut::F64Bits(*b),
        JsonOut::Str(s) => JsonOut::Str(s.clone()),
        JsonOut::Array(items) => {
            let mut out: Vec<JsonOut> = Vec::new();
            let mut i: usize = 0;
            while i < items.len()
                invariant
                    *v == JsonOut::Array(*items),
                    i <= items@.len(),
                    out@.len() == i,
                    forall|k: int| 0 <= k < i ==> json_view(#[trigger] out@[k]) == json_view(
                        items@[k],
                    ),
                decreases items@.len() - i,
            {
                proof {
                    vstd::std_specs::vec::axiom_vec_index_decreases(*items, i as int);
                    assert(decreases_to!(*v => (*v)->Array_0));
                }
                let c = clone_out(&items[i]);
                out.push(c);
                i += 1;
            }
            let r = JsonOut::Array(out);
            proof {
                lemma_view_parts(r);
                lemma_view_parts(*v);
                assert(array_view(out@) =~= array_view(items@));
            }
            r
        },
        JsonOut::Object(members) => {
            let mut out: Vec<(String, JsonOut)> = Vec::new();
            let mut i: usize = 0;
            while i < members.len()
                invariant
                    *v == JsonOut::Object(*members),
                    i <= members@.len(),
                    out@.len() == i,
                    forall|k: int|
                        0 <= k < i ==> (#[trigger] out@[k]).0@ == members@[k].0@ && json_view(
                            out@[k].1,
                        ) == json_view(members@[k].1),
                decreases members@.len() - i,
            {
                proof {
                    vstd::std_specs::vec::axiom_vec_index_decreases(*members, i as int);
                    assert(decreases_to!(*v => (*v)->Object_0));
                    assert(decreases_to!(members@[i as int] => members@[i as int].1));
                }
                let c = clone_out(&members[i].1);
                out.push((members[i].0.clone(), c));
                i += 1;
            }
            let r = JsonOut::Object(out);
            proof {
                lemma_view_parts(r);
                lemma_view_parts(*v);
                assert(object_view(out@) =~= object_view(members@));
            }
            r
        },
    }
}

} // verus!
