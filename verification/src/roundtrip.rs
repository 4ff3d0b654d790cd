//! What decoding gives back of an encoding: for a schema type whose
//! sequences and maps hold values that take up bytes, the JSON value that
//! the decoder reads from the bytes the encoder wrote for a JSON value is
//! that value in its canonical form (numbers as the integers they hold,
//! 128-bit integers as their decimal text, a bare value of a one-element
//! tuple as a one-item array, struct fields in schema order, enum values by
//! their variant's name).

use vstd::prelude::*;
use vstd::string::*;
use vstd::utf8::encode_utf8;
use crate::data_model::{member, DataModel, JsonValue, JsonView, NamedType, NamedValue, NamedVariant, VariantModel};
use crate::json_decode::{
    byte_i8, byte_items, dec, dec_elems, dec_fields, dec_list, dec_pairs, dec_str_map,
    dec_variant, lemma_le_roundtrip, lemma_string_roundtrip, lemma_varint_bounds,
    lemma_varint_roundtrip, postcard_json, single, DecodeFault, take_byte, take_char, take_le,
    take_len_prefixed, take_string, take_varint, unzigzag, varint_bound,
};
use crate::json_encode::{index_path, key_path, member_path, position_path, val_path};
use crate::data_model::lemma_member;
use vstd::utf8::{decode_utf8, encode_utf8_decode_utf8, encode_utf8_valid_utf8, valid_utf8};
use vstd::arithmetic::power2::{lemma2_to64, pow2};
use crate::json_encode::{
    ConvertErr,
    budget, enc, enc_bytes, enc_elems, enc_fields, enc_items, enc_pairs, enc_str_map, enc_tuple,
    enc_tuple_value, enc_variant, parsed_i128, parsed_u128, signed_text, then, variant_index,
    MAX_DEPTH,
};
use crate::postcard_wire::{str_encoding, varint, zigzag};
use crate::text::decimal_text;

verus! {

// ---------------------------------------------------------------------------
// The canonical form of an encoded value
// ---------------------------------------------------------------------------

/// The unsigned integer a JSON value holds, as a JSON number.
pub open spec fn unsigned_view(v: JsonValue) -> JsonView {
    match v {
        JsonValue::Number(n) => match n.as_u64 {
            Some(x) => JsonView::Unsigned(x),
            None => JsonView::Null,
        },
        _ => JsonView::Null,
    }
}

/// The signed integer a JSON value holds, as a JSON number.
pub open spec fn signed_view(v: JsonValue) -> JsonView {
    match v {
        JsonValue::Number(n) => match n.as_i64 {
            Some(x) => JsonView::Signed(x),
            None => JsonView::Null,
        },
        _ => JsonView::Null,
    }
}

/// The canonical form of `v` as a value of type `ty`, `depth` levels down:
/// the JSON value that decoding its encoding gives.
pub open spec fn canon(ty: DataModel, v: JsonValue, depth: nat) -> JsonView
    decreases budget(depth), 0nat, 0nat,
{
    if depth >= MAX_DEPTH {
        JsonView::Null
    } else {
        match ty {
            DataModel::Bool => match v {
                JsonValue::Bool(b) => JsonView::Bool(b),
                _ => JsonView::Null,
            },
            DataModel::U8 => unsigned_view(v),
            DataModel::U16 => unsigned_view(v),
            DataModel::U32 => unsigned_view(v),
            DataModel::U64 => unsigned_view(v),
            DataModel::Usize => match v {
                JsonValue::Number(n) => match n.as_u64 {
                    Some(x) => JsonView::Unsigned((x as usize) as u64),
                    None => JsonView::Null,
                },
                _ => JsonView::Null,
            },
            DataModel::I8 => signed_view(v),
            DataModel::I16 => signed_view(v),
            DataModel::I32 => signed_view(v),
            DataModel::I64 => signed_view(v),
            DataModel::Isize => match v {
                JsonValue::Number(n) => match n.as_i64 {
                    Some(x) => JsonView::Signed((x as isize) as i64),
                    None => JsonView::Null,
                },
                _ => JsonView::Null,
            },
            DataModel::U128 => match v {
                JsonValue::String(s) => match parsed_u128(s@) {
                    Some(x) => JsonView::Str(decimal_text(x as nat)),
                    None => JsonView::Null,
                },
                _ => JsonView::Null,
            },
            DataModel::I128 => match v {
                JsonValue::String(s) => match parsed_i128(s@) {
                    Some(x) => JsonView::Str(signed_text(x as int)),
                    None => JsonView::Null,
                },
                _ => JsonView::Null,
            },
            DataModel::F32 => match v {
                JsonValue::Number(n) => JsonView::F32Bits(n.f32_bits),
                _ => JsonView::Null,
            },
            DataModel::F64 => match v {
                JsonValue::Number(n) => JsonView::F64Bits(n.f64_bits),
                _ => JsonView::Null,
            },
            DataModel::Char => match v {
                JsonValue::String(s) => JsonView::Str(s@),
                _ => JsonView::Null,
            },
            DataModel::String => match v {
                JsonValue::String(s) => JsonView::Str(s@),
                _ => JsonView::Null,
            },
            DataModel::ByteArray => match v {
                JsonValue::Array(items) => JsonView::Array(
                    Seq::new(items@.len(), |i: int| unsigned_view(items@[i])),
                ),
                _ => JsonView::Null,
            },
            DataModel::Option(inner) => match v {
                JsonValue::Null => JsonView::Null,
                _ => canon(inner.ty, v, depth + 1),
            },
            DataModel::Unit => JsonView::Null,
            DataModel::UnitStruct => JsonView::Null,
            DataModel::NewtypeStruct(inner) => canon(inner.ty, v, depth + 1),
            DataModel::SeqOf(inner) => match v {
                JsonValue::Array(items) => JsonView::Array(
                    canon_items(inner.ty, items@, depth + 1),
                ),
                _ => JsonView::Null,
            },
            DataModel::Tuple(elems) => canon_tuple(elems@, v, depth + 1),
            DataModel::TupleStruct(elems) => canon_tuple(elems@, v, depth + 1),
            DataModel::MapOf { key, val } => match key.ty {
                DataModel::String => match v {
                    JsonValue::Object(members) => JsonView::Object(
                        canon_str_map(val.ty, members@, depth + 1),
                    ),
                    _ => JsonView::Null,
                },
                _ => match v {
                    JsonValue::Array(pairs) => JsonView::Array(
                        canon_pairs(key.ty, val.ty, pairs@, depth + 1),
                    ),
                    _ => JsonView::Null,
                },
            },
            DataModel::Struct(fields) => match v {
                JsonValue::Object(members) => JsonView::Object(
                    canon_fields(fields@, members@, depth + 1),
                ),
                _ => JsonView::Object(Seq::empty()),
            },
            DataModel::Enum(variants) => match v {
                JsonValue::String(s) => JsonView::Str(s@),
                JsonValue::Object(members) => match variant_index(variants@, members@[0].0@) {
                    Some(i) => canon_variant(variants@[i as int], members@[0].1, depth + 1),
                    None => JsonView::Null,
                },
                _ => JsonView::Null,
            },
            DataModel::Schema => JsonView::Null,
        }
    }
}

/// The canonical forms of the items of a sequence.
pub open spec fn canon_items(ty: DataModel, items: Seq<JsonValue>, depth: nat) -> Seq<JsonView>
    decreases budget(depth), 1nat, 0nat,
{
    Seq::new(items.len(), |i: int| canon(ty, items[i], depth))
}

/// The canonical form of a value of a tuple type.
pub open spec fn canon_tuple(elems: Seq<NamedType>, v: JsonValue, depth: nat) -> JsonView
    decreases budget(depth), 2nat, 0nat,
{
    if elems.len() == 1 && !(v is Array) {
        JsonView::Array(seq![canon(elems[0].ty, v, depth)])
    } else {
        match v {
            JsonValue::Array(items) => JsonView::Array(canon_elems(elems, items@, depth)),
            _ => JsonView::Null,
        }
    }
}

/// The canonical forms of the elements of a tuple value.
pub open spec fn canon_elems(elems: Seq<NamedType>, items: Seq<JsonValue>, depth: nat) -> Seq<
    JsonView,
>
    decreases budget(depth), 1nat, 0nat,
{
    Seq::new(elems.len(), |i: int| canon(elems[i].ty, items[i], depth))
}

/// The canonical forms of the members of a map with string keys.
pub open spec fn canon_str_map(
    val: DataModel,
    members: Seq<(String, JsonValue)>,
    depth: nat,
) -> Seq<(Seq<char>, JsonView)>
    decreases budget(depth), 1nat, 0nat,
{
    Seq::new(members.len(), |i: int| (members[i].0@, canon(val, members[i].1, depth)))
}

/// The canonical forms of the `[key, value]` pairs of a map.
pub open spec fn canon_pairs(
    key: DataModel,
    val: DataModel,
    pairs: Seq<JsonValue>,
    depth: nat,
) -> Seq<JsonView>
    decreases budget(depth), 1nat, 0nat,
{
    Seq::new(
        pairs.len(),
        |i: int|
            match pairs[i] {
                JsonValue::Array(p) => JsonView::Array(
                    seq![canon(key, p@[0], depth), canon(val, p@[1], depth)],
                ),
                _ => JsonView::Null,
            },
    )
}

/// The canonical forms of the fields of a struct, in schema order.
pub open spec fn canon_fields(
    fields: Seq<NamedValue>,
    members: Seq<(String, JsonValue)>,
    depth: nat,
) -> Seq<(Seq<char>, JsonView)>
    decreases budget(depth), 1nat, 0nat,
{
    Seq::new(
        fields.len(),
        |i: int|
            (
                fields[i].name@,
                match member(members, fields[i].name@) {
                    Some(m) => canon(fields[i].ty.ty, members[m].1, depth),
                    None => JsonView::Null,
                },
            ),
    )
}

/// The canonical form of an enum value of variant `v` with payload `payload`.
pub open spec fn canon_variant(v: NamedVariant, payload: JsonValue, depth: nat) -> JsonView
    decreases budget(depth), 2nat, 0nat,
{
    if depth > MAX_DEPTH {
        JsonView::Null
    } else {
        match v.ty {
            VariantModel::UnitVariant => JsonView::Str(v.name@),
            VariantModel::NewtypeVariant(inner) => single(v.name@, canon(inner.ty, payload, depth)),
            VariantModel::TupleVariant(elems) => single(
                v.name@,
                match payload {
                    JsonValue::Array(items) => JsonView::Array(
                        canon_elems(elems@, items@, depth + 1),
                    ),
                    _ => JsonView::Null,
                },
            ),
            VariantModel::StructVariant(fields) => single(
                v.name@,
                match payload {
                    JsonValue::Object(members) => JsonView::Object(
                        canon_fields(fields@, members@, depth + 1),
                    ),
                    _ => JsonView::Null,
                },
            ),
        }
    }
}

// ---------------------------------------------------------------------------
// Which schemas and values the law covers
// ---------------------------------------------------------------------------

/// Whether every encoding of a value of `ty`, `depth` levels down, takes at
/// least one byte.
pub open spec fn sized(ty: DataModel, depth: nat) -> bool
    decreases budget(depth), 0nat, 0nat,
{
    if depth >= MAX_DEPTH {
        true
    } else {
        match ty {
            DataModel::Unit => false,
            DataModel::UnitStruct => false,
            DataModel::Schema => false,
            DataModel::NewtypeStruct(inner) => sized(inner.ty, depth + 1),
            DataModel::Tuple(elems) => sized_elems(elems@, depth + 1, 0),
            DataModel::TupleStruct(elems) => sized_elems(elems@, depth + 1, 0),
            DataModel::Struct(fields) => sized_fields(fields@, depth + 1, 0),
            _ => true,
        }
    }
}

/// Whether one of the tuple elements from `i` on is sized.
pub open spec fn sized_elems(elems: Seq<NamedType>, depth: nat, i: nat) -> bool
    decreases budget(depth), 1nat, elems.len() - i,
{
    if i >= elems.len() {
        false
    } else {
        sized(elems[i as int].ty, depth) || sized_elems(elems, depth, i + 1)
    }
}

/// Whether one of the struct fields from `i` on is sized.
pub open spec fn sized_fields(fields: Seq<NamedValue>, depth: nat, i: nat) -> bool
    decreases budget(depth), 1nat, fields.len() - i,
{
    if i >= fields.len() {
        false
    } else {
        sized(fields[i as int].ty.ty, depth) || sized_fields(fields, depth, i + 1)
    }
}

/// Whether decoding can read back every encoding of a value of `ty`,
/// `depth` levels down: the items of sequences and the entries of maps take
/// up bytes (the decoder refuses a count larger than the bytes left), and
/// an enum has at most 2^32 variants (its index is read as a `u32`).
pub open spec fn readable(ty: DataModel, depth: nat) -> bool
    decreases budget(depth), 0nat, 0nat,
{
    if depth >= MAX_DEPTH {
        true
    } else {
        match ty {
            DataModel::Option(inner) => readable(inner.ty, depth + 1),
            DataModel::NewtypeStruct(inner) => readable(inner.ty, depth + 1),
            DataModel::SeqOf(inner) => sized(inner.ty, depth + 1) && readable(inner.ty, depth + 1),
            DataModel::Tuple(elems) => readable_elems(elems@, depth + 1, 0),
            DataModel::TupleStruct(elems) => readable_elems(elems@, depth + 1, 0),
            DataModel::MapOf { key, val } => (key.ty is String || sized(key.ty, depth + 1)
                || sized(val.ty, depth + 1)) && readable(key.ty, depth + 1) && readable(
                val.ty,
                depth + 1,
            ),
            DataModel::Struct(fields) => readable_fields(fields@, depth + 1, 0),
            DataModel::Enum(variants) => variants@.len() <= 0x1_0000_0000 && readable_variants(
                variants@,
                depth + 1,
                0,
            ),
            _ => true,
        }
    }
}

/// Whether the tuple elements from `i` on are readable.
pub open spec fn readable_elems(elems: Seq<NamedType>, depth: nat, i: nat) -> bool
    decreases budget(depth), 1nat, elems.len() - i,
{
    if i >= elems.len() {
        true
    } else {
        readable(elems[i as int].ty, depth) && readable_elems(elems, depth, i + 1)
    }
}

/// Whether the struct fields from `i` on are readable.
pub open spec fn readable_fields(fields: Seq<NamedValue>, depth: nat, i: nat) -> bool
    decreases budget(depth), 1nat, fields.len() - i,
{
    if i >= fields.len() {
        true
    } else {
        readable(fields[i as int].ty.ty, depth) && readable_fields(fields, depth, i + 1)
    }
}

/// Whether the payloads of the variants from `i` on are readable.
pub open spec fn readable_variants(variants: Seq<NamedVariant>, depth: nat, i: nat) -> bool
    decreases budget(depth), 3nat, variants.len() - i,
{
    if i >= variants.len() {
        true
    } else {
        variant_readable(variants[i as int], depth) && readable_variants(variants, depth, i + 1)
    }
}

/// Whether decoding can read back every payload of variant `v`.
pub open spec fn variant_readable(v: NamedVariant, depth: nat) -> bool
    decreases budget(depth), 2nat, 0nat,
{
    if depth > MAX_DEPTH {
        true
    } else {
        match v.ty {
            VariantModel::UnitVariant => true,
            VariantModel::NewtypeVariant(inner) => readable(inner.ty, depth),
            VariantModel::TupleVariant(elems) => readable_elems(elems@, depth + 1, 0),
            VariantModel::StructVariant(fields) => readable_fields(fields@, depth + 1, 0),
        }
    }
}

/// Whether a text's UTF-8 length fits in 64 bits.
pub open spec fn text_fits(s: Seq<char>) -> bool {
    encode_utf8(s).len() < 0x1_0000_0000_0000_0000
}

/// Whether every text in a JSON value (strings and keys) has a UTF-8 length
/// that fits in 64 bits.
pub open spec fn lengths_fit(v: JsonValue) -> bool
    decreases v, 0nat,
{
    match v {
        JsonValue::String(s) => text_fits(s@),
        JsonValue::Array(items) => items_fit(items@, 0),
        JsonValue::Object(members) => members_fit(members@, 0),
        _ => true,
    }
}

/// Whether the texts of the items from `i` on fit.
pub open spec fn items_fit(items: Seq<JsonValue>, i: nat) -> bool
    decreases items, items.len() - i,
{
    if i >= items.len() {
        true
    } else {
        lengths_fit(items[i as int]) && items_fit(items, i + 1)
    }
}

/// Whether the keys and the texts of the values of the members from `i` on
/// fit.
pub open spec fn members_fit(members: Seq<(String, JsonValue)>, i: nat) -> bool
    decreases members, members.len() - i,
{
    if i >= members.len() {
        true
    } else {
        text_fits(members[i as int].0@) && lengths_fit(members[i as int].1) && members_fit(
            members,
            i + 1,
        )
    }
}

/// The items of a fitting list fit, each of them.
proof fn lemma_items_fit(items: Seq<JsonValue>, i: nat, k: int)
    requires
        items_fit(items, i),
        i <= k < items.len(),
    ensures
        lengths_fit(items[k]),
    decreases k - i,
{
    if i < k {
        lemma_items_fit(items, i + 1, k);
    }
}

/// The members of a fitting object fit, each of them.
proof fn lemma_members_fit(members: Seq<(String, JsonValue)>, i: nat, k: int)
    requires
        members_fit(members, i),
        i <= k < members.len(),
    ensures
        text_fits(members[k].0@),
        lengths_fit(members[k].1),
    decreases k - i,
{
    if i < k {
        lemma_members_fit(members, i + 1, k);
    }
}

// ---------------------------------------------------------------------------
// How many bytes an encoding takes
// ---------------------------------------------------------------------------

/// A joined encoding is the two encodings one after the other.
proof fn lemma_then(a: Result<Seq<u8>, ConvertErr>, b: Result<Seq<u8>, ConvertErr>)
    ensures
        then(a, b) is Ok <==> a is Ok && b is Ok,
        then(a, b) is Ok ==> then(a, b)->Ok_0 == a->Ok_0 + b->Ok_0,
{
}

/// A varint takes at least one byte.
broadcast proof fn lemma_varint_nonempty(n: nat)
    ensures
        #[trigger] varint(n).len() >= 1,
{
}

/// An encoding of a value of a sized type takes at least one byte.
proof fn lemma_sized(ty: DataModel, v: JsonValue, path: Seq<char>, depth: nat)
    requires
        sized(ty, depth),
        enc(ty, v, path, depth) is Ok,
    ensures
        enc(ty, v, path, depth)->Ok_0.len() >= 1,
    decreases budget(depth), 0nat, 0nat,
{
    if depth >= MAX_DEPTH {
        assert(enc(ty, v, path, depth) is Err);
        return;
    }
    match ty {
        DataModel::NewtypeStruct(inner) => {
            assert(enc(ty, v, path, depth) == enc(inner.ty, v, path, depth + 1));
            lemma_sized(inner.ty, v, path, depth + 1);
        },
        DataModel::Option(inner) => {
            if !(v is Null) {
                lemma_then(Ok(seq![1u8]), enc(inner.ty, v, path, depth + 1));
            }
        },
        DataModel::Tuple(elems) => {
            lemma_sized_tuple(elems@, v, path, depth + 1);
        },
        DataModel::TupleStruct(elems) => {
            lemma_sized_tuple(elems@, v, path, depth + 1);
        },
        DataModel::Struct(fields) => {
            if fields@.len() == 0 {
                assert(!sized_fields(fields@, depth + 1, 0));
            } else if let JsonValue::Object(members) = v {
                lemma_sized_fields(fields@, members@, path, depth + 1, 0);
            }
        },
        DataModel::F32 => {
            if let JsonValue::Number(n) = v {
                lemma_le_len(n.f32_bits as nat, 4);
            }
        },
        DataModel::F64 => {
            if let JsonValue::Number(n) = v {
                lemma_le_len(n.f64_bits as nat, 8);
            }
        },
        DataModel::ByteArray => {
            if let JsonValue::Array(items) = v {
                lemma_then(Ok(varint(items@.len())), enc_bytes(items@, path, 0));
                lemma_varint_nonempty(items@.len());
            }
        },
        DataModel::SeqOf(inner) => {
            if let JsonValue::Array(items) = v {
                lemma_then(Ok(varint(items@.len())), enc_items(inner.ty, items@, path, depth + 1, 0));
                lemma_varint_nonempty(items@.len());
            }
        },
        DataModel::MapOf { key, val } => {
            match v {
                JsonValue::Object(members) => {
                    lemma_then(
                        Ok(varint(members@.len())),
                        enc_str_map(val.ty, members@, path, depth + 1, 0),
                    );
                    lemma_varint_nonempty(members@.len());
                },
                JsonValue::Array(pairs) => {
                    lemma_then(
                        Ok(varint(pairs@.len())),
                        enc_pairs(key.ty, val.ty, pairs@, path, depth + 1, 0),
                    );
                    lemma_varint_nonempty(pairs@.len());
                },
                _ => {},
            }
        },
        DataModel::Enum(variants) => {
            broadcast use lemma_varint_nonempty;

            if let JsonValue::Object(members) = v {
                if members@.len() == 1 {
                    if let Some(i) = variant_index(variants@, members@[0].0@) {
                        lemma_then(
                            Ok(varint(i as nat)),
                            enc_variant(variants@[i as int].ty, members@[0].1, path, depth + 1),
                        );
                    }
                }
            }
        },
        _ => {
            broadcast use lemma_varint_nonempty;

        },
    }
}

/// `count` little-endian bytes.
proof fn lemma_le_len(n: nat, count: nat)
    ensures
        crate::postcard_wire::le_bytes(n, count).len() == count,
    decreases count,
{
    if count > 0 {
        lemma_le_len(n / 256, (count - 1) as nat);
    }
}

/// An encoding of a value of a tuple type with a sized element takes at
/// least one byte.
proof fn lemma_sized_tuple(elems: Seq<NamedType>, v: JsonValue, path: Seq<char>, depth: nat)
    requires
        sized_elems(elems, depth, 0),
        enc_tuple(elems, v, path, depth) is Ok,
    ensures
        enc_tuple(elems, v, path, depth)->Ok_0.len() >= 1,
    decreases budget(depth), 2nat, 0nat,
{
    if elems.len() == 1 && !(v is Array) {
        assert(sized_elems(elems, depth, 1) == false);
        lemma_sized(elems[0].ty, v, crate::json_encode::position_path(path, 0), depth);
    } else if let JsonValue::Array(items) = v {
        lemma_sized_elems(elems, items@, path, depth, 0);
    }
}

/// Tuple elements from `i` on, one of them sized, take at least one byte.
proof fn lemma_sized_elems(
    elems: Seq<NamedType>,
    items: Seq<JsonValue>,
    path: Seq<char>,
    depth: nat,
    i: nat,
)
    requires
        sized_elems(elems, depth, i),
        items.len() == elems.len(),
        enc_elems(elems, items, path, depth, i) is Ok,
    ensures
        enc_elems(elems, items, path, depth, i)->Ok_0.len() >= 1,
    decreases budget(depth), 1nat, items.len() - i,
{
    let first = enc(
        elems[i as int].ty,
        items[i as int],
        crate::json_encode::position_path(path, i),
        depth,
    );
    lemma_then(first, enc_elems(elems, items, path, depth, i + 1));
    if sized(elems[i as int].ty, depth) {
        lemma_sized(elems[i as int].ty, items[i as int], crate::json_encode::position_path(path, i), depth);
    } else {
        lemma_sized_elems(elems, items, path, depth, i + 1);
    }
}

/// Struct fields from `i` on, one of them sized, take at least one byte.
proof fn lemma_sized_fields(
    fields: Seq<NamedValue>,
    members: Seq<(String, JsonValue)>,
    path: Seq<char>,
    depth: nat,
    i: nat,
)
    requires
        sized_fields(fields, depth, i),
        enc_fields(fields, members, path, depth, i) is Ok,
    ensures
        enc_fields(fields, members, path, depth, i)->Ok_0.len() >= 1,
    decreases budget(depth), 1nat, fields.len() - i,
{
    let f = fields[i as int];
    if let Some(m) = member(members, f.name@) {
        let first = enc(f.ty.ty, members[m].1, crate::json_encode::member_path(path, f.name@), depth);
        lemma_then(first, enc_fields(fields, members, path, depth, i + 1));
        if sized(f.ty.ty, depth) {
            lemma_sized(f.ty.ty, members[m].1, crate::json_encode::member_path(path, f.name@), depth);
        } else {
            lemma_sized_fields(fields, members, path, depth, i + 1);
        }
    }
}

/// Items of a sequence of a sized type from `i` on take at least a byte each.
proof fn lemma_items_len(ty: DataModel, items: Seq<JsonValue>, path: Seq<char>, depth: nat, i: nat)
    requires
        sized(ty, depth),
        i <= items.len(),
        enc_items(ty, items, path, depth, i) is Ok,
    ensures
        enc_items(ty, items, path, depth, i)->Ok_0.len() >= items.len() - i,
    decreases items.len() - i,
{
    if i < items.len() {
        let first = enc(ty, items[i as int], index_path(path, i), depth);
        lemma_then(first, enc_items(ty, items, path, depth, i + 1));
        lemma_sized(ty, items[i as int], index_path(path, i), depth);
        lemma_items_len(ty, items, path, depth, i + 1);
    }
}

/// Entries of a map with string keys from `i` on take at least a byte each.
proof fn lemma_str_map_len(
    val: DataModel,
    members: Seq<(String, JsonValue)>,
    path: Seq<char>,
    depth: nat,
    i: nat,
)
    requires
        i <= members.len(),
        enc_str_map(val, members, path, depth, i) is Ok,
    ensures
        enc_str_map(val, members, path, depth, i)->Ok_0.len() >= members.len() - i,
    decreases members.len() - i,
{
    if i < members.len() {
        let (k, item) = members[i as int];
        let head = then(Ok(str_encoding(k@)), enc(val, item, member_path(path, k@), depth));
        lemma_then(head, enc_str_map(val, members, path, depth, i + 1));
        lemma_then(Ok(str_encoding(k@)), enc(val, item, member_path(path, k@), depth));
        lemma_varint_nonempty(encode_utf8(k@).len());
        lemma_str_map_len(val, members, path, depth, i + 1);
    }
}

/// Pairs of a map whose key or value type is sized, from `i` on, take at
/// least a byte each.
proof fn lemma_pairs_len(
    key: DataModel,
    val: DataModel,
    pairs: Seq<JsonValue>,
    path: Seq<char>,
    depth: nat,
    i: nat,
)
    requires
        sized(key, depth) || sized(val, depth),
        i <= pairs.len(),
        enc_pairs(key, val, pairs, path, depth, i) is Ok,
    ensures
        enc_pairs(key, val, pairs, path, depth, i)->Ok_0.len() >= pairs.len() - i,
    decreases pairs.len() - i,
{
    if i < pairs.len() {
        if let JsonValue::Array(pair) = pairs[i as int] {
            let ek = enc(key, pair@[0], key_path(path, i), depth);
            let ev = enc(val, pair@[1], val_path(path, i), depth);
            lemma_then(then(ek, ev), enc_pairs(key, val, pairs, path, depth, i + 1));
            lemma_then(ek, ev);
            if sized(key, depth) {
                lemma_sized(key, pair@[0], key_path(path, i), depth);
            } else {
                lemma_sized(val, pair@[1], val_path(path, i), depth);
            }
            lemma_pairs_len(key, val, pairs, path, depth, i + 1);
        }
    }
}

/// The variant an index names has that name.
proof fn lemma_variant_index_name(variants: Seq<NamedVariant>, name: Seq<char>)
    ensures
        variant_index(variants, name) matches Some(i) ==> i < variants.len()
            && variants[i as int].name@ == name,
    decreases variants.len(),
{
    if variants.len() > 0 {
        lemma_variant_index_name(variants.drop_last(), name);
    }
}

/// The readable variants include each of them.
proof fn lemma_readable_variant(variants: Seq<NamedVariant>, depth: nat, j: nat, i: int)
    requires
        readable_variants(variants, depth, j),
        j <= i < variants.len(),
    ensures
        variant_readable(variants[i], depth),
    decreases i - j,
{
    if j < i {
        lemma_readable_variant(variants, depth, j + 1, i);
    }
}

/// Zigzag decoding undoes zigzag encoding.
proof fn lemma_unzigzag(n: int)
    ensures
        unzigzag(zigzag(n)) == n,
{
}

/// The byte of an `i8` read back as an `i8`.
proof fn lemma_i8_byte(n: i64)
    requires
        -128 <= n <= 127,
    ensures
        byte_i8(((n as i8) as u8) as nat) == n,
{
    if n >= 0 {
        assert(0 <= n <= 127 ==> ((n as i8) as u8) as i64 == n) by (bit_vector);
    } else {
        assert(-128 <= n < 0 ==> ((n as i8) as u8) as i64 == n + 256) by (bit_vector);
    }
}

/// A one-character string is at most four bytes of UTF-8.
proof fn lemma_char_len(s: Seq<char>)
    requires
        s.len() == 1,
    ensures
        encode_utf8(s).len() <= 4,
        encode_utf8(s).len() >= 1,
{
    assert(s.drop_first().len() == 0);
    assert(encode_utf8(s.drop_first()) =~= Seq::<u8>::empty());
}

// ---------------------------------------------------------------------------
// Reading back an encoded value
// ---------------------------------------------------------------------------

/// The result of reading back `b` between `before` and `after`.
pub open spec fn read_back(v: JsonView, before: Seq<u8>, b: Seq<u8>) -> Result<(JsonView, nat), ConvertErr> {
    Ok((v, before.len() + b.len()))
}

/// A list read back from `b` between `before` and `after`.
pub open spec fn list_back<T>(vs: Seq<T>, before: Seq<u8>, b: Seq<u8>) -> Result<(Seq<T>, nat), ConvertErr> {
    Ok((vs, before.len() + b.len()))
}

/// Decoding the encoding of a boolean, a byte, a character or a string gives its canonical form.
#[verifier::spinoff_prover]
#[verifier::rlimit(100)]
proof fn lemma_rt_small(
    ty: DataModel,
    v: JsonValue,
    path: Seq<char>,
    dpath: Seq<char>,
    depth: nat,
    before: Seq<u8>,
    after: Seq<u8>,
)
    requires
        enc(ty, v, path, depth) is Ok,
        lengths_fit(v),
        ty is Bool || ty is U8 || ty is I8 || ty is Char || ty is String,
    ensures
        dec(
            ty,
            before + enc(ty, v, path, depth)->Ok_0 + after,
            before.len(),
            dpath,
            depth,
        ) == read_back(canon(ty, v, depth), before, enc(ty, v, path, depth)->Ok_0),
{
    let b = enc(ty, v, path, depth)->Ok_0;
    let bytes = before + b + after;
    let pos = before.len();
    if depth >= MAX_DEPTH {
        assert(enc(ty, v, path, depth) is Err);
        return;
    }
    lemma_varint_bounds();
    lemma2_to64();
    match ty {
        DataModel::Bool => {
            assert(bytes[pos as int] == b[0]);
        },
        DataModel::U8 => {
            assert(bytes[pos as int] == b[0]);
        },
        DataModel::I8 => {
            assert(bytes[pos as int] == b[0]);
            if let JsonValue::Number(n) = v {
                lemma_i8_byte(n.as_i64->0);
            }
        },
        DataModel::Char => {
            if let JsonValue::String(s) = v {
                let body = encode_utf8(s@);
                lemma_char_len(s@);
                assert(bytes =~= before + varint(body.len()) + (body + after));
                lemma_varint_roundtrip(body.len(), 10, 1, before, body + after);
                let p = pos + varint(body.len()).len();
                assert(bytes.subrange(p as int, (p + body.len()) as int) =~= body);
                encode_utf8_valid_utf8(s@);
                encode_utf8_decode_utf8(s@);
                assert(seq![s@[0]] =~= s@);
            }
        },
        DataModel::String => {
            if let JsonValue::String(s) = v {
                lemma_string_roundtrip(s@, before, after);
            }
        },
        _ => {},
    }
}

/// Decoding the encoding of an unsigned varint gives its canonical form.
#[verifier::spinoff_prover]
#[verifier::rlimit(100)]
proof fn lemma_rt_unsigned(
    ty: DataModel,
    v: JsonValue,
    path: Seq<char>,
    dpath: Seq<char>,
    depth: nat,
    before: Seq<u8>,
    after: Seq<u8>,
)
    requires
        enc(ty, v, path, depth) is Ok,
        lengths_fit(v),
        ty is U16 || ty is U32 || ty is U64 || ty is Usize || ty is U128,
    ensures
        dec(
            ty,
            before + enc(ty, v, path, depth)->Ok_0 + after,
            before.len(),
            dpath,
            depth,
        ) == read_back(canon(ty, v, depth), before, enc(ty, v, path, depth)->Ok_0),
{
    let b = enc(ty, v, path, depth)->Ok_0;
    let bytes = before + b + after;
    let pos = before.len();
    if depth >= MAX_DEPTH {
        assert(enc(ty, v, path, depth) is Err);
        return;
    }
    lemma_varint_bounds();
    lemma2_to64();
    match ty {
        DataModel::U16 => {
            if let JsonValue::Number(n) = v {
                lemma_varint_roundtrip(n.as_u64->0 as nat, 3, 3, before, after);
            }
        },
        DataModel::U32 => {
            if let JsonValue::Number(n) = v {
                lemma_varint_roundtrip(n.as_u64->0 as nat, 5, 15, before, after);
            }
        },
        DataModel::U64 => {
            if let JsonValue::Number(n) = v {
                lemma_varint_roundtrip(n.as_u64->0 as nat, 10, 1, before, after);
            }
        },
        DataModel::Usize => {
            if let JsonValue::Number(n) = v {
                let x = ((n.as_u64->0) as usize) as nat;
                assert(x <= 0xFFFF_FFFF_FFFF_FFFF);
                lemma_varint_roundtrip(x, 10, 1, before, after);
            }
        },
        DataModel::U128 => {
            if let JsonValue::String(s) = v {
                lemma_varint_roundtrip(parsed_u128(s@)->0 as nat, 19, 3, before, after);
            }
        },
        _ => {},
    }
}

/// Decoding the encoding of a zigzag varint gives its canonical form.
#[verifier::spinoff_prover]
#[verifier::rlimit(100)]
proof fn lemma_rt_signed(
    ty: DataModel,
    v: JsonValue,
    path: Seq<char>,
    dpath: Seq<char>,
    depth: nat,
    before: Seq<u8>,
    after: Seq<u8>,
)
    requires
        enc(ty, v, path, depth) is Ok,
        lengths_fit(v),
        ty is I16 || ty is I32 || ty is I64 || ty is Isize || ty is I128,
    ensures
        dec(
            ty,
            before + enc(ty, v, path, depth)->Ok_0 + after,
            before.len(),
            dpath,
            depth,
        ) == read_back(canon(ty, v, depth), before, enc(ty, v, path, depth)->Ok_0),
{
    let b = enc(ty, v, path, depth)->Ok_0;
    let bytes = before + b + after;
    let pos = before.len();
    if depth >= MAX_DEPTH {
        assert(enc(ty, v, path, depth) is Err);
        return;
    }
    lemma_varint_bounds();
    lemma2_to64();
    match ty {
        DataModel::I16 => {
            if let JsonValue::Number(n) = v {
                lemma_varint_roundtrip(zigzag(n.as_i64->0 as int), 3, 3, before, after);
                lemma_unzigzag(n.as_i64->0 as int);
            }
        },
        DataModel::I32 => {
            if let JsonValue::Number(n) = v {
                lemma_varint_roundtrip(zigzag(n.as_i64->0 as int), 5, 15, before, after);
                lemma_unzigzag(n.as_i64->0 as int);
            }
        },
        DataModel::I64 => {
            if let JsonValue::Number(n) = v {
                lemma_varint_roundtrip(zigzag(n.as_i64->0 as int), 10, 1, before, after);
                lemma_unzigzag(n.as_i64->0 as int);
            }
        },
        DataModel::Isize => {
            if let JsonValue::Number(n) = v {
                let x = ((n.as_i64->0) as isize) as int;
                assert(-0x8000_0000_0000_0000 <= x <= 0x7FFF_FFFF_FFFF_FFFF);
                lemma_varint_roundtrip(zigzag(x), 10, 1, before, after);
                lemma_unzigzag(x);
            }
        },
        DataModel::I128 => {
            if let JsonValue::String(s) = v {
                let x = parsed_i128(s@)->0 as int;
                lemma_varint_roundtrip(zigzag(x), 19, 3, before, after);
                lemma_unzigzag(x);
            }
        },
        _ => {},
    }
}

/// Decoding the encoding of a float's bits or a byte array gives its canonical form.
#[verifier::spinoff_prover]
#[verifier::rlimit(100)]
proof fn lemma_rt_raw(
    ty: DataModel,
    v: JsonValue,
    path: Seq<char>,
    dpath: Seq<char>,
    depth: nat,
    before: Seq<u8>,
    after: Seq<u8>,
)
    requires
        enc(ty, v, path, depth) is Ok,
        lengths_fit(v),
        ty is F32 || ty is F64 || ty is ByteArray,
    ensures
        dec(
            ty,
            before + enc(ty, v, path, depth)->Ok_0 + after,
            before.len(),
            dpath,
            depth,
        ) == read_back(canon(ty, v, depth), before, enc(ty, v, path, depth)->Ok_0),
{
    let b = enc(ty, v, path, depth)->Ok_0;
    let bytes = before + b + after;
    let pos = before.len();
    if depth >= MAX_DEPTH {
        assert(enc(ty, v, path, depth) is Err);
        return;
    }
    lemma_varint_bounds();
    lemma2_to64();
    match ty {
        DataModel::F32 => {
            if let JsonValue::Number(n) = v {
                let x = n.f32_bits as nat;
                assert(pow2(8 * 4) == 0x1_0000_0000);
                lemma_le_roundtrip(x, 4, before, after);
                lemma_le_len(x, 4);
                assert(take_le(bytes, pos, 4) == Ok::<(nat, nat), DecodeFault>((x, pos + 4)));
                assert(dec(ty, bytes, pos, dpath, depth) == read_back(canon(ty, v, depth), before, b));
            }
        },
        DataModel::F64 => {
            if let JsonValue::Number(n) = v {
                let x = n.f64_bits as nat;
                assert(pow2(8 * 8) == 0x1_0000_0000_0000_0000);
                lemma_le_roundtrip(x, 8, before, after);
                lemma_le_len(x, 8);
                assert(take_le(bytes, pos, 8) == Ok::<(nat, nat), DecodeFault>((x, pos + 8)));
                assert(dec(ty, bytes, pos, dpath, depth) == read_back(canon(ty, v, depth), before, b));
            }
        },
        DataModel::ByteArray => {
            if let JsonValue::Array(items) = v {
                let n = items@.len();
                assert(items.len() == items@.len());
                lemma_then(Ok(varint(n)), enc_bytes(items@, path, 0));
                let body = enc_bytes(items@, path, 0)->Ok_0;
                lemma_bytes(items@, path, 0);
                assert(bytes =~= before + varint(n) + (body + after));
                lemma_varint_roundtrip(n, 10, 1, before, body + after);
                let p = pos + varint(n).len();
                assert(bytes.subrange(p as int, (p + n) as int) =~= body);
                assert(byte_items(body) =~= Seq::new(n, |i: int| unsigned_view(items@[i])));
            }
        },
        _ => {},
    }
}

/// Decoding the encoding of a primitive value gives its canonical form.
proof fn lemma_rt_prim(
    ty: DataModel,
    v: JsonValue,
    path: Seq<char>,
    dpath: Seq<char>,
    depth: nat,
    before: Seq<u8>,
    after: Seq<u8>,
)
    requires
        enc(ty, v, path, depth) is Ok,
        lengths_fit(v),
        crate::json_decode::is_primitive(ty),
    ensures
        dec(
            ty,
            before + enc(ty, v, path, depth)->Ok_0 + after,
            before.len(),
            dpath,
            depth,
        ) == read_back(canon(ty, v, depth), before, enc(ty, v, path, depth)->Ok_0),
{
    match ty {
        DataModel::Bool | DataModel::U8 | DataModel::I8 | DataModel::Char | DataModel::String => {
            lemma_rt_small(ty, v, path, dpath, depth, before, after);
        },
        DataModel::U16 | DataModel::U32 | DataModel::U64 | DataModel::Usize | DataModel::U128 => {
            lemma_rt_unsigned(ty, v, path, dpath, depth, before, after);
        },
        DataModel::I16 | DataModel::I32 | DataModel::I64 | DataModel::Isize | DataModel::I128 => {
            lemma_rt_signed(ty, v, path, dpath, depth, before, after);
        },
        _ => {
            lemma_rt_raw(ty, v, path, dpath, depth, before, after);
        },
    }
}

#[verifier::rlimit(100)]
proof fn lemma_rt(
    ty: DataModel,
    v: JsonValue,
    path: Seq<char>,
    dpath: Seq<char>,
    depth: nat,
    before: Seq<u8>,
    after: Seq<u8>,
)
    requires
        enc(ty, v, path, depth) is Ok,
        readable(ty, depth),
        lengths_fit(v),
    ensures
        dec(
            ty,
            before + enc(ty, v, path, depth)->Ok_0 + after,
            before.len(),
            dpath,
            depth,
        ) == read_back(canon(ty, v, depth), before, enc(ty, v, path, depth)->Ok_0),
    decreases budget(depth), 1nat, 0nat,
{
    let b = enc(ty, v, path, depth)->Ok_0;
    let bytes = before + b + after;
    let pos = before.len();
    if depth >= MAX_DEPTH {
        assert(enc(ty, v, path, depth) is Err);
        return;
    }
    lemma_varint_bounds();
    lemma2_to64();
    match ty {
        DataModel::Option(inner) => {
            if v is Null {
                assert(bytes[pos as int] == b[0]);
            } else {
                let inner_b = enc(inner.ty, v, path, depth + 1)->Ok_0;
                lemma_then(Ok(seq![1u8]), enc(inner.ty, v, path, depth + 1));
                assert(bytes[pos as int] == b[0]);
                assert(bytes =~= (before + seq![1u8]) + inner_b + after);
                lemma_rt(inner.ty, v, path, dpath, depth + 1, before + seq![1u8], after);
            }
        },
        DataModel::Unit => {},
        DataModel::UnitStruct => {},
        DataModel::NewtypeStruct(inner) => {
            lemma_rt(inner.ty, v, path, dpath, depth + 1, before, after);
        },
        DataModel::Tuple(elems) => {
            lemma_rt_tuple(elems@, v, path, dpath, depth + 1, before, after);
        },
        DataModel::TupleStruct(elems) => {
            lemma_rt_tuple(elems@, v, path, dpath, depth + 1, before, after);
        },
        DataModel::SeqOf(_) => {
            lemma_rt_seq(ty, v, path, dpath, depth, before, after);
        },
        DataModel::MapOf { .. } => {
            lemma_rt_map(ty, v, path, dpath, depth, before, after);
        },
        DataModel::Struct(_) => {
            lemma_rt_struct(ty, v, path, dpath, depth, before, after);
        },
        DataModel::Enum(_) => {
            lemma_rt_enum(ty, v, path, dpath, depth, before, after);
        },
        DataModel::Schema => {},
        _ => {
            lemma_rt_prim(ty, v, path, dpath, depth, before, after);
        },
    }
}

/// Decoding the encoding of a sequence gives its canonical form.
#[verifier::rlimit(100)]
proof fn lemma_rt_seq(
    ty: DataModel,
    v: JsonValue,
    path: Seq<char>,
    dpath: Seq<char>,
    depth: nat,
    before: Seq<u8>,
    after: Seq<u8>,
)
    requires
        enc(ty, v, path, depth) is Ok,
        readable(ty, depth),
        lengths_fit(v),
        ty is SeqOf,
    ensures
        dec(
            ty,
            before + enc(ty, v, path, depth)->Ok_0 + after,
            before.len(),
            dpath,
            depth,
        ) == read_back(canon(ty, v, depth), before, enc(ty, v, path, depth)->Ok_0),
    decreases budget(depth), 0nat, 0nat,
{
    let b = enc(ty, v, path, depth)->Ok_0;
    let bytes = before + b + after;
    let pos = before.len();
    if depth >= MAX_DEPTH {
        assert(enc(ty, v, path, depth) is Err);
        return;
    }
    lemma_varint_bounds();
    lemma2_to64();
    match ty {
        DataModel::SeqOf(inner) => {
            if let JsonValue::Array(items) = v {
                let n = items@.len();
                assert(items.len() == items@.len());
                let rest = enc_items(inner.ty, items@, path, depth + 1, 0);
                lemma_then(Ok(varint(n)), rest);
                let body = rest->Ok_0;
                lemma_items_len(inner.ty, items@, path, depth + 1, 0);
                assert(bytes =~= before + varint(n) + (body + after));
                lemma_varint_roundtrip(n, 10, 1, before, body + after);
                let p = before + varint(n);
                assert(bytes =~= p + body + after);
                lemma_rt_items(inner.ty, items@, path, dpath, depth + 1, 0, p, after);
                assert(canon_items(inner.ty, items@, depth + 1).skip(0) =~= canon_items(
                    inner.ty,
                    items@,
                    depth + 1,
                ));
            }
        },
        _ => {},
    }
}

/// Decoding the encoding of a map gives its canonical form.
#[verifier::rlimit(100)]
proof fn lemma_rt_map(
    ty: DataModel,
    v: JsonValue,
    path: Seq<char>,
    dpath: Seq<char>,
    depth: nat,
    before: Seq<u8>,
    after: Seq<u8>,
)
    requires
        enc(ty, v, path, depth) is Ok,
        readable(ty, depth),
        lengths_fit(v),
        ty is MapOf,
    ensures
        dec(
            ty,
            before + enc(ty, v, path, depth)->Ok_0 + after,
            before.len(),
            dpath,
            depth,
        ) == read_back(canon(ty, v, depth), before, enc(ty, v, path, depth)->Ok_0),
    decreases budget(depth), 0nat, 0nat,
{
    let b = enc(ty, v, path, depth)->Ok_0;
    let bytes = before + b + after;
    let pos = before.len();
    if depth >= MAX_DEPTH {
        assert(enc(ty, v, path, depth) is Err);
        return;
    }
    lemma_varint_bounds();
    lemma2_to64();
    match ty {
        DataModel::MapOf { key, val } => {
            match key.ty {
                DataModel::String => {
                    if let JsonValue::Object(members) = v {
                        let n = members@.len();
                        assert(members.len() == members@.len());
                        let rest = enc_str_map(val.ty, members@, path, depth + 1, 0);
                        lemma_then(Ok(varint(n)), rest);
                        let body = rest->Ok_0;
                        lemma_str_map_len(val.ty, members@, path, depth + 1, 0);
                        assert(bytes =~= before + varint(n) + (body + after));
                        lemma_varint_roundtrip(n, 10, 1, before, body + after);
                        let p = before + varint(n);
                        assert(bytes =~= p + body + after);
                        lemma_rt_str_map(val.ty, members@, path, dpath, depth + 1, 0, p, after);
                        assert(canon_str_map(val.ty, members@, depth + 1).skip(0) =~= canon_str_map(
                            val.ty,
                            members@,
                            depth + 1,
                        ));
                    }
                },
                _ => {
                    if let JsonValue::Array(pairs) = v {
                        let n = pairs@.len();
                        assert(pairs.len() == pairs@.len());
                        let rest = enc_pairs(key.ty, val.ty, pairs@, path, depth + 1, 0);
                        lemma_then(Ok(varint(n)), rest);
                        let body = rest->Ok_0;
                        lemma_pairs_len(key.ty, val.ty, pairs@, path, depth + 1, 0);
                        assert(bytes =~= before + varint(n) + (body + after));
                        lemma_varint_roundtrip(n, 10, 1, before, body + after);
                        let p = before + varint(n);
                        assert(bytes =~= p + body + after);
                        lemma_rt_pairs(key.ty, val.ty, pairs@, path, dpath, depth + 1, 0, p, after);
                        assert(canon_pairs(key.ty, val.ty, pairs@, depth + 1).skip(0) =~= canon_pairs(
                            key.ty,
                            val.ty,
                            pairs@,
                            depth + 1,
                        ));
                    }
                },
            }
        },
        _ => {},
    }
}

/// Decoding the encoding of a struct gives its canonical form.
#[verifier::rlimit(100)]
proof fn lemma_rt_struct(
    ty: DataModel,
    v: JsonValue,
    path: Seq<char>,
    dpath: Seq<char>,
    depth: nat,
    before: Seq<u8>,
    after: Seq<u8>,
)
    requires
        enc(ty, v, path, depth) is Ok,
        readable(ty, depth),
        lengths_fit(v),
        ty is Struct,
    ensures
        dec(
            ty,
            before + enc(ty, v, path, depth)->Ok_0 + after,
            before.len(),
            dpath,
            depth,
        ) == read_back(canon(ty, v, depth), before, enc(ty, v, path, depth)->Ok_0),
    decreases budget(depth), 0nat, 0nat,
{
    let b = enc(ty, v, path, depth)->Ok_0;
    let bytes = before + b + after;
    let pos = before.len();
    if depth >= MAX_DEPTH {
        assert(enc(ty, v, path, depth) is Err);
        return;
    }
    lemma_varint_bounds();
    lemma2_to64();
    match ty {
        DataModel::Struct(fields) => {
            if fields@.len() == 0 {
                assert(b =~= Seq::<u8>::empty());
                assert(dec_fields(fields@, bytes, pos, dpath, depth + 1, 0) == list_back(
                    Seq::<(Seq<char>, JsonView)>::empty(),
                    before,
                    b,
                ));
                if let JsonValue::Object(members) = v {
                    assert(canon_fields(fields@, members@, depth + 1) =~= Seq::<(Seq<char>, JsonView)>::empty());
                }
            } else if let JsonValue::Object(members) = v {
                assert(b == enc_fields(fields@, members@, path, depth + 1, 0)->Ok_0);
                lemma_rt_fields(fields@, members@, path, dpath, depth + 1, 0, before, after);
                assert(canon_fields(fields@, members@, depth + 1).skip(0) =~= canon_fields(
                    fields@,
                    members@,
                    depth + 1,
                ));
                assert(dec_fields(fields@, bytes, pos, dpath, depth + 1, 0) == list_back(
                    canon_fields(fields@, members@, depth + 1),
                    before,
                    b,
                ));
                assert(canon(ty, v, depth) == JsonView::Object(canon_fields(fields@, members@, depth + 1)));
            }
        },
        _ => {},
    }
}

/// Decoding the encoding of an enum value gives its canonical form.
#[verifier::rlimit(100)]
proof fn lemma_rt_enum(
    ty: DataModel,
    v: JsonValue,
    path: Seq<char>,
    dpath: Seq<char>,
    depth: nat,
    before: Seq<u8>,
    after: Seq<u8>,
)
    requires
        enc(ty, v, path, depth) is Ok,
        readable(ty, depth),
        lengths_fit(v),
        ty is Enum,
    ensures
        dec(
            ty,
            before + enc(ty, v, path, depth)->Ok_0 + after,
            before.len(),
            dpath,
            depth,
        ) == read_back(canon(ty, v, depth), before, enc(ty, v, path, depth)->Ok_0),
    decreases budget(depth), 0nat, 0nat,
{
    let b = enc(ty, v, path, depth)->Ok_0;
    let bytes = before + b + after;
    let pos = before.len();
    if depth >= MAX_DEPTH {
        assert(enc(ty, v, path, depth) is Err);
        return;
    }
    lemma_varint_bounds();
    lemma2_to64();
    match ty {
        DataModel::Enum(variants) => {
            assert(variants.len() == variants@.len());
            match v {
                JsonValue::String(s) => {
                    lemma_variant_index_name(variants@, s@);
                    let i = variant_index(variants@, s@)->0;
                    assert(variants@[i as int].ty is UnitVariant);
                    assert(b == varint(i as nat));
                    assert(i < varint_bound(5, 15));
                    lemma_varint_roundtrip(i as nat, 5, 15, before, after);
                    let q = pos + b.len();
                    assert(take_varint(bytes, pos, 5, 15) == Ok::<(nat, nat), DecodeFault>((i as nat, q)));
                    assert(dec_variant(variants@[i as int], bytes, q, dpath, depth + 1) == Ok::<
                        (JsonView, nat),
                        ConvertErr,
                    >((JsonView::Str(s@), q)));
                },
                JsonValue::Object(members) => {
                    lemma_variant_index_name(variants@, members@[0].0@);
                    let i = variant_index(variants@, members@[0].0@)->0;
                    let payload = members@[0].1;
                    lemma_members_fit(members@, 0, 0);
                    let rest = enc_variant(variants@[i as int].ty, payload, path, depth + 1);
                    lemma_then(Ok(varint(i as nat)), rest);
                    let body = rest->Ok_0;
                    assert(bytes =~= before + varint(i as nat) + (body + after));
                    lemma_varint_roundtrip(i as nat, 5, 15, before, body + after);
                    let p = before + varint(i as nat);
                    assert(bytes =~= p + body + after);
                    lemma_readable_variant(variants@, depth + 1, 0, i as int);
                    lemma_rt_variant(variants@[i as int], payload, path, dpath, depth + 1, p, after);
                    assert(take_varint(bytes, pos, 5, 15) == Ok::<(nat, nat), DecodeFault>((i as nat, p.len())));
                    assert(canon(ty, v, depth) == canon_variant(variants@[i as int], payload, depth + 1));
                },
                _ => {},
            }
        },
        _ => {},
    }
}

/// The bytes of a byte array, one per item, each the item's value.
proof fn lemma_bytes(items: Seq<JsonValue>, path: Seq<char>, i: nat)
    requires
        i <= items.len(),
        enc_bytes(items, path, i) is Ok,
    ensures
        enc_bytes(items, path, i)->Ok_0.len() == items.len() - i,
        forall|k: int|
            0 <= k < items.len() - i ==> JsonView::Unsigned(
                #[trigger] enc_bytes(items, path, i)->Ok_0[k] as u64,
            ) == unsigned_view(items[i + k]),
    decreases items.len() - i,
{
    if i < items.len() {
        let n = match items[i as int] {
            JsonValue::Number(num) => num.as_u64->0,
            _ => 0,
        };
        lemma_then(Ok(seq![n as u8]), enc_bytes(items, path, i + 1));
        lemma_bytes(items, path, i + 1);
        let whole = enc_bytes(items, path, i)->Ok_0;
        let rest = enc_bytes(items, path, i + 1)->Ok_0;
        assert forall|k: int| 0 <= k < items.len() - i implies JsonView::Unsigned(
            #[trigger] whole[k] as u64,
        ) == unsigned_view(items[i + k]) by {
            if k > 0 {
                assert(whole[k] == rest[k - 1]);
                assert(i + k == (i + 1) + (k - 1));
            }
        }
    }
}

/// Decoding the encodings of sequence items `i..` gives their canonical
/// forms.
proof fn lemma_rt_items(
    ty: DataModel,
    items: Seq<JsonValue>,
    path: Seq<char>,
    dpath: Seq<char>,
    depth: nat,
    i: nat,
    before: Seq<u8>,
    after: Seq<u8>,
)
    requires
        i <= items.len(),
        enc_items(ty, items, path, depth, i) is Ok,
        readable(ty, depth),
        items_fit(items, i),
    ensures
        dec_list(
            ty,
            before + enc_items(ty, items, path, depth, i)->Ok_0 + after,
            before.len(),
            dpath,
            depth,
            i,
            items.len(),
        ) == list_back(
            canon_items(ty, items, depth).skip(i as int),
            before,
            enc_items(ty, items, path, depth, i)->Ok_0,
        ),
    decreases budget(depth), 1nat, items.len() - i,
{
    let b = enc_items(ty, items, path, depth, i)->Ok_0;
    if i == items.len() {
        assert(canon_items(ty, items, depth).skip(i as int) =~= Seq::<JsonView>::empty());
        assert(b =~= Seq::<u8>::empty());
    } else {
        let first = enc(ty, items[i as int], index_path(path, i), depth);
        let rest = enc_items(ty, items, path, depth, i + 1);
        lemma_then(first, rest);
        let b1 = first->Ok_0;
        let b2 = rest->Ok_0;
        assert(before + b + after =~= before + b1 + (b2 + after));
        lemma_rt(ty, items[i as int], index_path(path, i), index_path(dpath, i), depth, before, b2 + after);
        assert(before + b + after =~= (before + b1) + b2 + after);
        lemma_rt_items(ty, items, path, dpath, depth, i + 1, before + b1, after);
        assert(seq![canon(ty, items[i as int], depth)] + canon_items(ty, items, depth).skip(i + 1int)
            =~= canon_items(ty, items, depth).skip(i as int));
    }
}

/// Decoding the encoding of a value of a tuple type gives its canonical form.
proof fn lemma_rt_tuple(
    elems: Seq<NamedType>,
    v: JsonValue,
    path: Seq<char>,
    dpath: Seq<char>,
    depth: nat,
    before: Seq<u8>,
    after: Seq<u8>,
)
    requires
        enc_tuple(elems, v, path, depth) is Ok,
        readable_elems(elems, depth, 0),
        lengths_fit(v),
    ensures
        dec_elems(
            elems,
            before + enc_tuple(elems, v, path, depth)->Ok_0 + after,
            before.len(),
            dpath,
            depth,
            0,
        ) matches Ok((items, q)) && q == before.len() + enc_tuple(elems, v, path, depth)->Ok_0.len()
            && JsonView::Array(items) == canon_tuple(elems, v, depth),
        dec_elems(
            elems,
            before + enc_tuple(elems, v, path, depth)->Ok_0 + after,
            before.len(),
            dpath,
            depth,
            0,
        ) is Ok,
    decreases budget(depth), 2nat, 0nat,
{
    let b = enc_tuple(elems, v, path, depth)->Ok_0;
    if elems.len() == 1 && !(v is Array) {
        lemma_rt(elems[0].ty, v, position_path(path, 0), position_path(dpath, 0), depth, before, after);
        let bytes = before + b + after;
        let c = canon(elems[0].ty, v, depth);
        assert(dec_elems(elems, bytes, before.len() + b.len(), dpath, depth, 1) == list_back(
            Seq::<JsonView>::empty(),
            before,
            b,
        ));
        assert(seq![c] + Seq::<JsonView>::empty() =~= seq![c]);
    } else if let JsonValue::Array(items) = v {
        lemma_rt_elems(elems, items@, path, dpath, depth, 0, before, after);
        assert(canon_elems(elems, items@, depth).skip(0) =~= canon_elems(elems, items@, depth));
    }
}

/// Decoding the encodings of tuple elements `i..` gives their canonical
/// forms.
proof fn lemma_rt_elems(
    elems: Seq<NamedType>,
    items: Seq<JsonValue>,
    path: Seq<char>,
    dpath: Seq<char>,
    depth: nat,
    i: nat,
    before: Seq<u8>,
    after: Seq<u8>,
)
    requires
        i <= elems.len(),
        items.len() == elems.len(),
        enc_elems(elems, items, path, depth, i) is Ok,
        readable_elems(elems, depth, i),
        items_fit(items, i),
    ensures
        dec_elems(
            elems,
            before + enc_elems(elems, items, path, depth, i)->Ok_0 + after,
            before.len(),
            dpath,
            depth,
            i,
        ) == list_back(
            canon_elems(elems, items, depth).skip(i as int),
            before,
            enc_elems(elems, items, path, depth, i)->Ok_0,
        ),
    decreases budget(depth), 1nat, elems.len() - i,
{
    let b = enc_elems(elems, items, path, depth, i)->Ok_0;
    if i == elems.len() {
        assert(canon_elems(elems, items, depth).skip(i as int) =~= Seq::<JsonView>::empty());
        assert(b =~= Seq::<u8>::empty());
    } else {
        let first = enc(elems[i as int].ty, items[i as int], position_path(path, i), depth);
        let rest = enc_elems(elems, items, path, depth, i + 1);
        lemma_then(first, rest);
        let b1 = first->Ok_0;
        let b2 = rest->Ok_0;
        assert(before + b + after =~= before + b1 + (b2 + after));
        lemma_rt(
            elems[i as int].ty,
            items[i as int],
            position_path(path, i),
            position_path(dpath, i),
            depth,
            before,
            b2 + after,
        );
        assert(before + b + after =~= (before + b1) + b2 + after);
        lemma_rt_elems(elems, items, path, dpath, depth, i + 1, before + b1, after);
        assert(seq![canon(elems[i as int].ty, items[i as int], depth)] + canon_elems(
            elems,
            items,
            depth,
        ).skip(i + 1int) =~= canon_elems(elems, items, depth).skip(i as int));
    }
}

/// Decoding the encodings of struct fields `i..` gives their canonical forms.
proof fn lemma_rt_fields(
    fields: Seq<NamedValue>,
    members: Seq<(String, JsonValue)>,
    path: Seq<char>,
    dpath: Seq<char>,
    depth: nat,
    i: nat,
    before: Seq<u8>,
    after: Seq<u8>,
)
    requires
        i <= fields.len(),
        enc_fields(fields, members, path, depth, i) is Ok,
        readable_fields(fields, depth, i),
        members_fit(members, 0),
    ensures
        dec_fields(
            fields,
            before + enc_fields(fields, members, path, depth, i)->Ok_0 + after,
            before.len(),
            dpath,
            depth,
            i,
        ) == list_back(
            canon_fields(fields, members, depth).skip(i as int),
            before,
            enc_fields(fields, members, path, depth, i)->Ok_0,
        ),
    decreases budget(depth), 1nat, fields.len() - i,
{
    let b = enc_fields(fields, members, path, depth, i)->Ok_0;
    if i == fields.len() {
        assert(canon_fields(fields, members, depth).skip(i as int) =~= Seq::<
            (Seq<char>, JsonView),
        >::empty());
        assert(b =~= Seq::<u8>::empty());
    } else {
        let f = fields[i as int];
        lemma_member(members, f.name@);
        let m = member(members, f.name@)->0;
        lemma_members_fit(members, 0, m);
        let first = enc(f.ty.ty, members[m].1, member_path(path, f.name@), depth);
        let rest = enc_fields(fields, members, path, depth, i + 1);
        lemma_then(first, rest);
        let b1 = first->Ok_0;
        let b2 = rest->Ok_0;
        assert(before + b + after =~= before + b1 + (b2 + after));
        lemma_rt(
            f.ty.ty,
            members[m].1,
            member_path(path, f.name@),
            member_path(dpath, f.name@),
            depth,
            before,
            b2 + after,
        );
        assert(before + b + after =~= (before + b1) + b2 + after);
        lemma_rt_fields(fields, members, path, dpath, depth, i + 1, before + b1, after);
        assert(seq![(f.name@, canon(f.ty.ty, members[m].1, depth))] + canon_fields(
            fields,
            members,
            depth,
        ).skip(i + 1int) =~= canon_fields(fields, members, depth).skip(i as int));
    }
}

/// Decoding the encodings of string-keyed map entries `i..` gives their
/// canonical forms.
#[verifier::rlimit(100)]
proof fn lemma_rt_str_map(
    val: DataModel,
    members: Seq<(String, JsonValue)>,
    path: Seq<char>,
    dpath: Seq<char>,
    depth: nat,
    i: nat,
    before: Seq<u8>,
    after: Seq<u8>,
)
    requires
        i <= members.len(),
        enc_str_map(val, members, path, depth, i) is Ok,
        readable(val, depth),
        members_fit(members, i),
    ensures
        dec_str_map(
            val,
            before + enc_str_map(val, members, path, depth, i)->Ok_0 + after,
            before.len(),
            dpath,
            depth,
            i,
            members.len(),
        ) == list_back(
            canon_str_map(val, members, depth).skip(i as int),
            before,
            enc_str_map(val, members, path, depth, i)->Ok_0,
        ),
    decreases budget(depth), 1nat, members.len() - i,
{
    let b = enc_str_map(val, members, path, depth, i)->Ok_0;
    if i == members.len() {
        assert(canon_str_map(val, members, depth).skip(i as int) =~= Seq::<
            (Seq<char>, JsonView),
        >::empty());
        assert(b =~= Seq::<u8>::empty());
    } else {
        let (k, item) = members[i as int];
        let key_b = str_encoding(k@);
        let ev = enc(val, item, member_path(path, k@), depth);
        let rest = enc_str_map(val, members, path, depth, i + 1);
        lemma_then(then(Ok(key_b), ev), rest);
        lemma_then(Ok(key_b), ev);
        let b1 = ev->Ok_0;
        let b2 = rest->Ok_0;
        assert(before + b + after =~= before + key_b + (b1 + b2 + after));
        lemma_string_roundtrip(k@, before, b1 + b2 + after);
        let p = before + key_b;
        assert(before + b + after =~= p + b1 + (b2 + after));
        lemma_rt(val, item, member_path(path, k@), val_path(dpath, i), depth, p, b2 + after);
        assert(before + b + after =~= (p + b1) + b2 + after);
        lemma_rt_str_map(val, members, path, dpath, depth, i + 1, p + b1, after);
        assert(seq![(k@, canon(val, item, depth))] + canon_str_map(val, members, depth).skip(i + 1int)
            =~= canon_str_map(val, members, depth).skip(i as int));
    }
}

/// Decoding the encodings of map pairs `i..` gives their canonical forms.
#[verifier::rlimit(100)]
proof fn lemma_rt_pairs(
    key: DataModel,
    val: DataModel,
    pairs: Seq<JsonValue>,
    path: Seq<char>,
    dpath: Seq<char>,
    depth: nat,
    i: nat,
    before: Seq<u8>,
    after: Seq<u8>,
)
    requires
        i <= pairs.len(),
        enc_pairs(key, val, pairs, path, depth, i) is Ok,
        readable(key, depth),
        readable(val, depth),
        items_fit(pairs, i),
    ensures
        dec_pairs(
            key,
            val,
            before + enc_pairs(key, val, pairs, path, depth, i)->Ok_0 + after,
            before.len(),
            dpath,
            depth,
            i,
            pairs.len(),
        ) == list_back(
            canon_pairs(key, val, pairs, depth).skip(i as int),
            before,
            enc_pairs(key, val, pairs, path, depth, i)->Ok_0,
        ),
    decreases budget(depth), 1nat, pairs.len() - i,
{
    let b = enc_pairs(key, val, pairs, path, depth, i)->Ok_0;
    if i == pairs.len() {
        assert(canon_pairs(key, val, pairs, depth).skip(i as int) =~= Seq::<JsonView>::empty());
        assert(b =~= Seq::<u8>::empty());
    } else if let JsonValue::Array(pair) = pairs[i as int] {
        assert(lengths_fit(pairs[i as int]));
        assert(items_fit(pair@, 0));
        lemma_items_fit(pair@, 0, 0);
        lemma_items_fit(pair@, 0, 1);
        let ek = enc(key, pair@[0], key_path(path, i), depth);
        let ev = enc(val, pair@[1], val_path(path, i), depth);
        let rest = enc_pairs(key, val, pairs, path, depth, i + 1);
        lemma_then(then(ek, ev), rest);
        lemma_then(ek, ev);
        let bk = ek->Ok_0;
        let bv = ev->Ok_0;
        let b2 = rest->Ok_0;
        assert(before + b + after =~= before + bk + (bv + b2 + after));
        lemma_rt(key, pair@[0], key_path(path, i), key_path(dpath, i), depth, before, bv + b2 + after);
        let p = before + bk;
        assert(before + b + after =~= p + bv + (b2 + after));
        lemma_rt(val, pair@[1], val_path(path, i), val_path(dpath, i), depth, p, b2 + after);
        assert(before + b + after =~= (p + bv) + b2 + after);
        lemma_rt_pairs(key, val, pairs, path, dpath, depth, i + 1, p + bv, after);
        assert(seq![
            JsonView::Array(seq![canon(key, pair@[0], depth), canon(val, pair@[1], depth)]),
        ] + canon_pairs(key, val, pairs, depth).skip(i + 1int) =~= canon_pairs(
            key,
            val,
            pairs,
            depth,
        ).skip(i as int));
    }
}

/// Decoding the encoding of the payload of variant `vt` gives the
/// canonical form of the enum value.
proof fn lemma_rt_variant(
    vt: NamedVariant,
    payload: JsonValue,
    path: Seq<char>,
    dpath: Seq<char>,
    depth: nat,
    before: Seq<u8>,
    after: Seq<u8>,
)
    requires
        enc_variant(vt.ty, payload, path, depth) is Ok,
        variant_readable(vt, depth),
        lengths_fit(payload),
    ensures
        dec_variant(
            vt,
            before + enc_variant(vt.ty, payload, path, depth)->Ok_0 + after,
            before.len(),
            dpath,
            depth,
        ) == read_back(
            canon_variant(vt, payload, depth),
            before,
            enc_variant(vt.ty, payload, path, depth)->Ok_0,
        ),
    decreases budget(depth), 2nat, 0nat,
{
    match vt.ty {
        VariantModel::UnitVariant => {},
        VariantModel::NewtypeVariant(inner) => {
            lemma_rt(inner.ty, payload, path, dpath, depth, before, after);
        },
        VariantModel::TupleVariant(elems) => {
            if let JsonValue::Array(items) = payload {
                lemma_rt_elems(elems@, items@, path, dpath, depth + 1, 0, before, after);
                assert(canon_elems(elems@, items@, depth + 1).skip(0) =~= canon_elems(
                    elems@,
                    items@,
                    depth + 1,
                ));
            }
        },
        VariantModel::StructVariant(fields) => {
            if let JsonValue::Object(members) = payload {
                lemma_rt_fields(fields@, members@, path, dpath, depth + 1, 0, before, after);
                assert(canon_fields(fields@, members@, depth + 1).skip(0) =~= canon_fields(
                    fields@,
                    members@,
                    depth + 1,
                ));
            }
        },
    }
}

/// Decoding what the encoder wrote gives the value back: where `v` encodes
/// as a value of `ty` without error, and `ty` is readable (each item of a
/// sequence and each entry of a map takes up bytes, and an enum has at most
/// 2^32 variants), the decoder reads those bytes, as a whole, as the
/// canonical form of `v`.
pub proof fn lemma_json_roundtrip(ty: DataModel, v: JsonValue)
    requires
        enc(ty, v, "$"@, 0) is Ok,
        readable(ty, 0),
        lengths_fit(v),
    ensures
        postcard_json(ty, enc(ty, v, "$"@, 0)->Ok_0) == Ok::<JsonView, ConvertErr>(
            canon(ty, v, 0),
        ),
{
    let b = enc(ty, v, "$"@, 0)->Ok_0;
    lemma_rt(ty, v, "$"@, "$"@, 0, Seq::empty(), Seq::empty());
    assert(Seq::<u8>::empty() + b + Seq::<u8>::empty() =~= b);
}

/// A byte after what the encoder wrote is refused: where decoding gives the
/// value back (as `lemma_json_roundtrip` states), the same bytes followed by
/// any byte decode to the error for one trailing byte.
pub proof fn lemma_json_trailing_byte(ty: DataModel, v: JsonValue, b: u8)
    requires
        enc(ty, v, "$"@, 0) is Ok,
        readable(ty, 0),
        lengths_fit(v),
    ensures
        postcard_json(ty, enc(ty, v, "$"@, 0)->Ok_0.push(b)) == Err::<JsonView, ConvertErr>(
            ConvertErr::Postcard(decimal_text(1) + " trailing bytes after decoding root value"@),
        ),
{
    let bytes = enc(ty, v, "$"@, 0)->Ok_0;
    lemma_rt(ty, v, "$"@, "$"@, 0, Seq::empty(), seq![b]);
    assert(Seq::<u8>::empty() + bytes + seq![b] =~= bytes.push(b));
}

} // verus!
