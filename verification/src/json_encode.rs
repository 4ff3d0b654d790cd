//! Encoding a JSON value as postcard bytes, directed by the schema of the
//! value's type.
//!
//! Integers take JSON numbers (128-bit ones take decimal strings), `char`
//! takes a one-character string, sequences and tuples take arrays (a tuple of
//! one element also takes that element's value alone), structs
//! take objects, maps with string keys take objects and other maps arrays of
//! `[key, value]` pairs, and enums take the variant's name (unit variants) or
//! an object with the variant's name as its only key. Nesting is limited to
//! [`MAX_DEPTH`] levels, and the `Schema` type has no JSON form. Errors name
//! the offending position as a path from the root `$`.

use vstd::prelude::*;
use vstd::string::*;
use vstd::utf8::encode_utf8;
use crate::data_model::{
    find_member, json_kind, kind_text, member, DataModel, JsonValue, NamedType, NamedValue,
    NamedVariant, VariantModel,
};
use crate::postcard_wire::{
    le_bytes, push_all, push_le, push_str, push_varint_u128, push_varint_u64, str_encoding, varint,
    zigzag, zigzag_i128, zigzag_i64,
};
use crate::text::{decimal_text, push_decimal};

verus! {

/// Deepest nesting of schema types the codec follows.
pub const MAX_DEPTH: usize = 8;

/// Why a value could not be converted.
#[derive(Debug)]
pub enum ConvertError {
    TypeMismatch { expected: String, got: String, path: String },
    OutOfRange { ty: String, value: String, path: String },
    MissingField { name: String, path: String },
    UnknownEnumVariant { variant: String, path: String },
    ArityMismatch { expected: usize, got: usize, path: String },
    Postcard(String),
    DepthExceeded { path: String },
    TypeUnsupported { ty: String, path: String },
}

/// A conversion error with its texts as character sequences.
pub enum ConvertErr {
    TypeMismatch { expected: Seq<char>, got: Seq<char>, path: Seq<char> },
    OutOfRange { ty: Seq<char>, value: Seq<char>, path: Seq<char> },
    MissingField { name: Seq<char>, path: Seq<char> },
    UnknownEnumVariant { variant: Seq<char>, path: Seq<char> },
    ArityMismatch { expected: nat, got: nat, path: Seq<char> },
    Postcard(Seq<char>),
    DepthExceeded { path: Seq<char> },
    TypeUnsupported { ty: Seq<char>, path: Seq<char> },
}

impl View for ConvertError {
    type V = ConvertErr;

    open spec fn view(&self) -> ConvertErr {
        match self {
            ConvertError::TypeMismatch { expected, got, path } => ConvertErr::TypeMismatch {
                expected: expected@,
                got: got@,
                path: path@,
            },
            ConvertError::OutOfRange { ty, value, path } => ConvertErr::OutOfRange {
                ty: ty@,
                value: value@,
                path: path@,
            },
            ConvertError::MissingField { name, path } => ConvertErr::MissingField {
                name: name@,
                path: path@,
            },
            ConvertError::UnknownEnumVariant { variant, path } => ConvertErr::UnknownEnumVariant {
                variant: variant@,
                path: path@,
            },
            ConvertError::ArityMismatch { expected, got, path } => ConvertErr::ArityMismatch {
                expected: *expected as nat,
                got: *got as nat,
                path: path@,
            },
            ConvertError::Postcard(m) => ConvertErr::Postcard(m@),
            ConvertError::DepthExceeded { path } => ConvertErr::DepthExceeded { path: path@ },
            ConvertError::TypeUnsupported { ty, path } => ConvertErr::TypeUnsupported {
                ty: ty@,
                path: path@,
            },
        }
    }
}

// ---------------------------------------------------------------------------
// Paths and texts
// ---------------------------------------------------------------------------

/// `path[i]`.
pub open spec fn index_path(path: Seq<char>, i: nat) -> Seq<char> {
    path + seq!['['] + decimal_text(i) + seq![']']
}

/// `path.i`.
pub open spec fn position_path(path: Seq<char>, i: nat) -> Seq<char> {
    path + seq!['.'] + decimal_text(i)
}

/// `path.name`.
pub open spec fn member_path(path: Seq<char>, name: Seq<char>) -> Seq<char> {
    path + seq!['.'] + name
}

/// `path[i].key`.
pub open spec fn key_path(path: Seq<char>, i: nat) -> Seq<char> {
    index_path(path, i) + seq!['.', 'k', 'e', 'y']
}

/// `path[i].val`.
pub open spec fn val_path(path: Seq<char>, i: nat) -> Seq<char> {
    index_path(path, i) + seq!['.', 'v', 'a', 'l']
}

/// Decimal text of a signed number.
pub open spec fn signed_text(n: int) -> Seq<char> {
    if n >= 0 {
        decimal_text(n as nat)
    } else {
        seq!['-'] + decimal_text((-n) as nat)
    }
}

pub(crate) fn make_index_path(path: &str, i: usize) -> (p: String)
    ensures
        p@ == index_path(path@, i as nat),
{
    let mut p = path.to_owned();
    p.append("[");
    push_decimal(&mut p, i as u64);
    p.append("]");
    proof {
        reveal_strlit("[");
        reveal_strlit("]");
    }
    p
}

pub(crate) fn make_position_path(path: &str, i: usize) -> (p: String)
    ensures
        p@ == position_path(path@, i as nat),
{
    let mut p = path.to_owned();
    p.append(".");
    push_decimal(&mut p, i as u64);
    proof {
        reveal_strlit(".");
    }
    p
}

pub(crate) fn make_member_path(path: &str, name: &str) -> (p: String)
    ensures
        p@ == member_path(path@, name@),
{
    let mut p = path.to_owned();
    p.append(".");
    p.append(name);
    proof {
        reveal_strlit(".");
    }
    p
}

pub(crate) fn make_key_path(path: &str, i: usize, key: bool) -> (p: String)
    ensures
        key ==> p@ == key_path(path@, i as nat),
        !key ==> p@ == val_path(path@, i as nat),
{
    let mut p = make_index_path(path, i);
    if key {
        p.append(".key");
        proof {
            reveal_strlit(".key");
        }
    } else {
        p.append(".val");
        proof {
            reveal_strlit(".val");
        }
    }
    p
}

pub(crate) fn signed_string(n: i64) -> (s: String)
    ensures
        s@ == signed_text(n as int),
{
    if n >= 0 {
        let mut s = String::new();
        push_decimal(&mut s, n as u64);
        s
    } else {
        let mut s = "-".to_owned();
        let magnitude: u64 = if n == i64::MIN {
            0x8000_0000_0000_0000
        } else {
            (-n) as u64
        };
        push_decimal(&mut s, magnitude);
        proof {
            reveal_strlit("-");
        }
        s
    }
}

fn mismatch(expected: &str, got: String, path: &str) -> (e: ConvertError)
    ensures
        e@ == (ConvertErr::TypeMismatch { expected: expected@, got: got@, path: path@ }),
{
    ConvertError::TypeMismatch { expected: expected.to_owned(), got, path: path.to_owned() }
}

// ---------------------------------------------------------------------------
// The encoding, as a function of schema and value
// ---------------------------------------------------------------------------

/// Nesting budget left at `depth`.
pub open spec fn budget(depth: nat) -> int {
    10 - depth
}

/// A type mismatch against the kind of `v`.
pub open spec fn kind_mismatch(expected: Seq<char>, v: JsonValue, path: Seq<char>) -> ConvertErr {
    ConvertErr::TypeMismatch { expected, got: kind_text(v), path }
}

/// The unsigned integer a value gives, or the error for a non-integer.
pub open spec fn unsigned_of(v: JsonValue, path: Seq<char>) -> Result<u64, ConvertErr> {
    match v {
        JsonValue::Number(n) => match n.as_u64 {
            Some(x) => Ok(x),
            None => Err(kind_mismatch("non-negative integer"@, v, path)),
        },
        _ => Err(kind_mismatch("non-negative integer"@, v, path)),
    }
}

/// The signed integer a value gives, or the error for a non-integer.
pub open spec fn signed_of(v: JsonValue, path: Seq<char>) -> Result<i64, ConvertErr> {
    match v {
        JsonValue::Number(n) => match n.as_i64 {
            Some(x) => Ok(x),
            None => Err(kind_mismatch("integer"@, v, path)),
        },
        _ => Err(kind_mismatch("integer"@, v, path)),
    }
}

/// An unsigned integer that must fit `bound`, varint-encoded.
pub open spec fn enc_unsigned(
    v: JsonValue,
    path: Seq<char>,
    bound: nat,
    ty: Seq<char>,
) -> Result<Seq<u8>, ConvertErr> {
    match unsigned_of(v, path) {
        Err(e) => Err(e),
        Ok(n) => if n <= bound {
            Ok(varint(n as nat))
        } else {
            Err(ConvertErr::OutOfRange { ty, value: decimal_text(n as nat), path })
        },
    }
}

/// A signed integer that must lie in `lo..=hi`, zigzag varint-encoded.
pub open spec fn enc_signed(
    v: JsonValue,
    path: Seq<char>,
    lo: int,
    hi: int,
    ty: Seq<char>,
) -> Result<Seq<u8>, ConvertErr> {
    match signed_of(v, path) {
        Err(e) => Err(e),
        Ok(n) => if lo <= n <= hi {
            Ok(varint(zigzag(n as int)))
        } else {
            Err(ConvertErr::OutOfRange { ty, value: signed_text(n as int), path })
        },
    }
}

/// Join two encodings, keeping the first error.
pub open spec fn then(a: Result<Seq<u8>, ConvertErr>, b: Result<Seq<u8>, ConvertErr>) -> Result<
    Seq<u8>,
    ConvertErr,
> {
    match a {
        Err(e) => Err(e),
        Ok(x) => match b {
            Err(e) => Err(e),
            Ok(y) => Ok(x + y),
        },
    }
}

/// The encoding of `v` as a value of type `ty` found at `path`, `depth`
/// levels down.
pub open spec fn enc(ty: DataModel, v: JsonValue, path: Seq<char>, depth: nat) -> Result<
    Seq<u8>,
    ConvertErr,
>
    decreases budget(depth), 0nat, 0nat,
{
    if depth >= MAX_DEPTH {
        Err(ConvertErr::DepthExceeded { path })
    } else {
        match ty {
            DataModel::Bool => match v {
                JsonValue::Bool(b) => Ok(seq![if b { 1u8 } else { 0u8 }]),
                _ => Err(kind_mismatch("boolean"@, v, path)),
            },
            DataModel::U8 => match unsigned_of(v, path) {
                Err(e) => Err(e),
                Ok(n) => if n <= 255 {
                    Ok(seq![n as u8])
                } else {
                    Err(ConvertErr::OutOfRange { ty: "u8"@, value: decimal_text(n as nat), path })
                },
            },
            DataModel::U16 => enc_unsigned(v, path, 0xFFFF, "u16"@),
            DataModel::U32 => enc_unsigned(v, path, 0xFFFF_FFFF, "u32"@),
            DataModel::U64 => enc_unsigned(v, path, 0xFFFF_FFFF_FFFF_FFFF, "u64"@),
            DataModel::Usize => match unsigned_of(v, path) {
                Err(e) => Err(e),
                Ok(n) => Ok(varint((n as usize) as nat)),
            },
            DataModel::I8 => match signed_of(v, path) {
                Err(e) => Err(e),
                Ok(n) => if -128 <= n <= 127 {
                    Ok(seq![(n as i8) as u8])
                } else {
                    Err(ConvertErr::OutOfRange { ty: "i8"@, value: signed_text(n as int), path })
                },
            },
            DataModel::I16 => enc_signed(v, path, -0x8000, 0x7FFF, "i16"@),
            DataModel::I32 => enc_signed(v, path, -0x8000_0000, 0x7FFF_FFFF, "i32"@),
            DataModel::I64 => enc_signed(
                v,
                path,
                -0x8000_0000_0000_0000,
                0x7FFF_FFFF_FFFF_FFFF,
                "i64"@,
            ),
            DataModel::Isize => match signed_of(v, path) {
                Err(e) => Err(e),
                Ok(n) => Ok(varint(zigzag((n as isize) as int))),
            },
            DataModel::U128 => match v {
                JsonValue::String(s) => match parsed_u128(s@) {
                    Some(x) => Ok(varint(x as nat)),
                    None => Err(
                        ConvertErr::TypeMismatch {
                            expected: "decimal string for u128"@,
                            got: s@,
                            path,
                        },
                    ),
                },
                _ => Err(kind_mismatch("string"@, v, path)),
            },
            DataModel::I128 => match v {
                JsonValue::String(s) => match parsed_i128(s@) {
                    Some(x) => Ok(varint(zigzag(x as int))),
                    None => Err(
                        ConvertErr::TypeMismatch {
                            expected: "decimal string for i128"@,
                            got: s@,
                            path,
                        },
                    ),
                },
                _ => Err(kind_mismatch("string"@, v, path)),
            },
            DataModel::F32 => match v {
                JsonValue::Number(n) => Ok(le_bytes(n.f32_bits as nat, 4)),
                _ => Err(kind_mismatch("number"@, v, path)),
            },
            DataModel::F64 => match v {
                JsonValue::Number(n) => Ok(le_bytes(n.f64_bits as nat, 8)),
                _ => Err(kind_mismatch("number"@, v, path)),
            },
            DataModel::Char => match v {
                JsonValue::String(s) => if s@.len() == 0 {
                    Err(
                        ConvertErr::TypeMismatch {
                            expected: "single-char string"@,
                            got: "empty string"@,
                            path,
                        },
                    )
                } else if s@.len() > 1 {
                    Err(
                        ConvertErr::TypeMismatch {
                            expected: "single-char string"@,
                            got: "string of length "@ + decimal_text(encode_utf8(s@).len()),
                            path,
                        },
                    )
                } else {
                    Ok(str_encoding(s@))
                },
                _ => Err(kind_mismatch("string"@, v, path)),
            },
            DataModel::String => match v {
                JsonValue::String(s) => Ok(str_encoding(s@)),
                _ => Err(kind_mismatch("string"@, v, path)),
            },
            DataModel::ByteArray => match v {
                JsonValue::Array(items) => then(
                    Ok(varint(items@.len())),
                    enc_bytes(items@, path, 0),
                ),
                _ => Err(kind_mismatch("array"@, v, path)),
            },
            DataModel::Option(inner) => match v {
                JsonValue::Null => Ok(seq![0u8]),
                _ => then(Ok(seq![1u8]), enc(inner.ty, v, path, depth + 1)),
            },
            DataModel::Unit => Ok(Seq::empty()),
            DataModel::UnitStruct => Ok(Seq::empty()),
            DataModel::NewtypeStruct(inner) => enc(inner.ty, v, path, depth + 1),
            DataModel::SeqOf(inner) => match v {
                JsonValue::Array(items) => then(
                    Ok(varint(items@.len())),
                    enc_items(inner.ty, items@, path, depth + 1, 0),
                ),
                _ => Err(kind_mismatch("array"@, v, path)),
            },
            DataModel::Tuple(elems) => enc_tuple(elems@, v, path, depth + 1),
            DataModel::TupleStruct(elems) => enc_tuple(elems@, v, path, depth + 1),
            DataModel::MapOf { key, val } => match key.ty {
                DataModel::String => match v {
                    JsonValue::Object(members) => then(
                        Ok(varint(members@.len())),
                        enc_str_map(val.ty, members@, path, depth + 1, 0),
                    ),
                    _ => Err(kind_mismatch("object"@, v, path)),
                },
                _ => match v {
                    JsonValue::Array(pairs) => then(
                        Ok(varint(pairs@.len())),
                        enc_pairs(key.ty, val.ty, pairs@, path, depth + 1, 0),
                    ),
                    _ => Err(kind_mismatch("array"@, v, path)),
                },
            },
            DataModel::Struct(fields) => if fields@.len() == 0 {
                Ok(Seq::empty())
            } else {
                match v {
                    JsonValue::Object(members) => enc_fields(
                        fields@,
                        members@,
                        path,
                        depth + 1,
                        0,
                    ),
                    _ => Err(kind_mismatch("object"@, v, path)),
                }
            },
            DataModel::Enum(variants) => match v {
                JsonValue::String(s) => match variant_index(variants@, s@) {
                    None => Err(ConvertErr::UnknownEnumVariant { variant: s@, path }),
                    Some(i) => match variants@[i as int].ty {
                        VariantModel::UnitVariant => Ok(varint(i as nat)),
                        _ => Err(
                            ConvertErr::TypeMismatch {
                                expected: "object with key '"@ + s@
                                    + "' and payload (string is only valid for unit variants)"@,
                                got: "string"@,
                                path,
                            },
                        ),
                    },
                },
                JsonValue::Object(members) => if members@.len() != 1 {
                    Err(
                        ConvertErr::TypeMismatch {
                            expected: "object with exactly one key (enum variant)"@,
                            got: "object with "@ + decimal_text(members@.len()) + " keys"@,
                            path,
                        },
                    )
                } else {
                    match variant_index(variants@, members@[0].0@) {
                        None => Err(
                            ConvertErr::UnknownEnumVariant { variant: members@[0].0@, path },
                        ),
                        Some(i) => then(
                            Ok(varint(i as nat)),
                            enc_variant(variants@[i as int].ty, members@[0].1, path, depth + 1),
                        ),
                    }
                },
                _ => Err(kind_mismatch("string or object for enum"@, v, path)),
            },
            DataModel::Schema => Err(ConvertErr::TypeUnsupported { ty: "Schema"@, path }),
        }
    }
}

/// The bytes of a byte-array value, from item `i` on.
pub open spec fn enc_bytes(items: Seq<JsonValue>, path: Seq<char>, i: nat) -> Result<
    Seq<u8>,
    ConvertErr,
>
    decreases items.len() - i,
{
    if i >= items.len() {
        Ok(Seq::empty())
    } else {
        let p = index_path(path, i);
        match unsigned_of(items[i as int], p) {
            Err(e) => Err(e),
            Ok(n) => if n <= 255 {
                then(Ok(seq![n as u8]), enc_bytes(items, path, i + 1))
            } else {
                Err(ConvertErr::OutOfRange { ty: "u8"@, value: decimal_text(n as nat), path: p })
            },
        }
    }
}

/// The items of a sequence, from item `i` on.
pub open spec fn enc_items(
    ty: DataModel,
    items: Seq<JsonValue>,
    path: Seq<char>,
    depth: nat,
    i: nat,
) -> Result<Seq<u8>, ConvertErr>
    decreases budget(depth), 1nat, items.len() - i,
{
    if i >= items.len() {
        Ok(Seq::empty())
    } else {
        then(
            enc(ty, items[i as int], index_path(path, i), depth),
            enc_items(ty, items, path, depth, i + 1),
        )
    }
}

/// The elements of a tuple, from element `i` on.
pub open spec fn enc_elems(
    elems: Seq<NamedType>,
    items: Seq<JsonValue>,
    path: Seq<char>,
    depth: nat,
    i: nat,
) -> Result<Seq<u8>, ConvertErr>
    decreases budget(depth), 1nat, items.len() - i,
{
    if i >= items.len() || i >= elems.len() {
        Ok(Seq::empty())
    } else {
        then(
            enc(elems[i as int].ty, items[i as int], position_path(path, i), depth),
            enc_elems(elems, items, path, depth, i + 1),
        )
    }
}

/// A value of a tuple type: a tuple value, or, for a tuple of one element,
/// also that element's value alone.
pub open spec fn enc_tuple(elems: Seq<NamedType>, v: JsonValue, path: Seq<char>, depth: nat) -> Result<
    Seq<u8>,
    ConvertErr,
>
    decreases budget(depth), 2nat, 1nat,
{
    if elems.len() == 1 && !(v is Array) {
        enc(elems[0].ty, v, position_path(path, 0), depth)
    } else {
        enc_tuple_value(elems, v, path, depth)
    }
}

/// A tuple value: an array with one item per element.
pub open spec fn enc_tuple_value(
    elems: Seq<NamedType>,
    v: JsonValue,
    path: Seq<char>,
    depth: nat,
) -> Result<Seq<u8>, ConvertErr>
    decreases budget(depth), 2nat, 0nat,
{
    match v {
        JsonValue::Array(items) => if items@.len() != elems.len() {
            Err(
                ConvertErr::ArityMismatch { expected: elems.len(), got: items@.len(), path },
            )
        } else {
            enc_elems(elems, items@, path, depth, 0)
        },
        _ => Err(kind_mismatch("array"@, v, path)),
    }
}

/// The members of a map with string keys, from member `i` on.
pub open spec fn enc_str_map(
    val: DataModel,
    members: Seq<(String, JsonValue)>,
    path: Seq<char>,
    depth: nat,
    i: nat,
) -> Result<Seq<u8>, ConvertErr>
    decreases budget(depth), 1nat, members.len() - i,
{
    if i >= members.len() {
        Ok(Seq::empty())
    } else {
        let (k, item) = members[i as int];
        then(
            then(
                Ok(str_encoding(k@)),
                enc(val, item, member_path(path, k@), depth),
            ),
            enc_str_map(val, members, path, depth, i + 1),
        )
    }
}

/// The `[key, value]` pairs of a map, from pair `i` on.
pub open spec fn enc_pairs(
    key: DataModel,
    val: DataModel,
    pairs: Seq<JsonValue>,
    path: Seq<char>,
    depth: nat,
    i: nat,
) -> Result<Seq<u8>, ConvertErr>
    decreases budget(depth), 1nat, pairs.len() - i,
{
    if i >= pairs.len() {
        Ok(Seq::empty())
    } else {
        let p = index_path(path, i);
        match pairs[i as int] {
            JsonValue::Array(pair) => if pair@.len() != 2 {
                Err(ConvertErr::ArityMismatch { expected: 2, got: pair@.len(), path: p })
            } else {
                then(
                    then(
                        enc(key, pair@[0], key_path(path, i), depth),
                        enc(val, pair@[1], val_path(path, i), depth),
                    ),
                    enc_pairs(key, val, pairs, path, depth, i + 1),
                )
            },
            _ => Err(kind_mismatch("array"@, pairs[i as int], p)),
        }
    }
}

/// The fields of a struct, from field `i` on, each looked up by name.
pub open spec fn enc_fields(
    fields: Seq<NamedValue>,
    members: Seq<(String, JsonValue)>,
    path: Seq<char>,
    depth: nat,
    i: nat,
) -> Result<Seq<u8>, ConvertErr>
    decreases budget(depth), 1nat, fields.len() - i,
{
    if i >= fields.len() {
        Ok(Seq::empty())
    } else {
        let f = fields[i as int];
        match member(members, f.name@) {
            None => Err(ConvertErr::MissingField { name: f.name@, path }),
            Some(m) => then(
                enc(f.ty.ty, members[m].1, member_path(path, f.name@), depth),
                enc_fields(fields, members, path, depth, i + 1),
            ),
        }
    }
}

/// The payload of an enum variant.
pub open spec fn enc_variant(
    ty: VariantModel,
    v: JsonValue,
    path: Seq<char>,
    depth: nat,
) -> Result<Seq<u8>, ConvertErr>
    decreases budget(depth), 3nat, 0nat,
{
    if depth > MAX_DEPTH {
        Err(ConvertErr::DepthExceeded { path })
    } else {
        match ty {
            VariantModel::UnitVariant => Ok(Seq::empty()),
            VariantModel::NewtypeVariant(inner) => enc(inner.ty, v, path, depth),
            VariantModel::TupleVariant(elems) => enc_tuple_value(elems@, v, path, depth + 1),
            VariantModel::StructVariant(fields) => match v {
                JsonValue::Object(members) => enc_fields(fields@, members@, path, depth + 1, 0),
                _ => Err(kind_mismatch("object"@, v, path)),
            },
        }
    }
}

/// Index of the first variant named `name`.
pub open spec fn variant_index(variants: Seq<NamedVariant>, name: Seq<char>) -> Option<nat>
    decreases variants.len(),
{
    if variants.len() == 0 {
        None
    } else {
        match variant_index(variants.drop_last(), name) {
            Some(i) => Some(i),
            None => if variants.last().name@ == name {
                Some((variants.len() - 1) as nat)
            } else {
                None
            },
        }
    }
}

/// What `str::parse::<u128>` accepts: an optional `+` and decimal digits.
pub open spec fn parsed_u128(s: Seq<char>) -> Option<u128> {
    let body = if s.len() > 0 && s[0] == '+' {
        s.drop_first()
    } else {
        s
    };
    if body.len() == 0 {
        None
    } else {
        match crate::cli::digits_value(body, 10) {
            Some(v) => if v <= u128::MAX {
                Some(v as u128)
            } else {
                None
            },
            None => None,
        }
    }
}

/// What `str::parse::<i128>` accepts: an optional sign and decimal digits,
/// with a value in range.
pub open spec fn parsed_i128(s: Seq<char>) -> Option<i128> {
    let negative = s.len() > 0 && s[0] == '-';
    let body = if s.len() > 0 && (s[0] == '+' || s[0] == '-') {
        s.drop_first()
    } else {
        s
    };
    if body.len() == 0 {
        None
    } else {
        match crate::cli::digits_value(body, 10) {
            Some(v) => {
                let x: int = if negative {
                    -v
                } else {
                    v as int
                };
                if i128::MIN <= x <= i128::MAX {
                    Some(x as i128)
                } else {
                    None
                }
            },
            None => None,
        }
    }
}


// ---------------------------------------------------------------------------
// The encoder
// ---------------------------------------------------------------------------

/// `r` is what the encoding `s` prescribes: on success the bytes were
/// appended to `before`, giving `after`; on failure the error is `s`'s.
pub open spec fn outcome(
    r: Result<(), ConvertError>,
    before: Seq<u8>,
    after: Seq<u8>,
    s: Result<Seq<u8>, ConvertErr>,
) -> bool {
    match s {
        Ok(b) => r is Ok && after == before + b,
        Err(e) => r matches Err(x) && x@ == e,
    }
}

/// A successful step appended exactly the bytes its encoding prescribes.
proof fn lemma_ok_piece(
    r: Result<(), ConvertError>,
    before: Seq<u8>,
    after: Seq<u8>,
    s: Result<Seq<u8>, ConvertErr>,
)
    requires
        outcome(r, before, after, s),
        r is Ok,
    ensures
        before.len() <= after.len(),
        s == Ok::<Seq<u8>, ConvertErr>(after.subrange(before.len() as int, after.len() as int)),
        after == before + after.subrange(before.len() as int, after.len() as int),
{
    if let Ok(b) = s {
        assert(b =~= after.subrange(before.len() as int, after.len() as int));
        assert(after =~= before + after.subrange(before.len() as int, after.len() as int));
    }
}

/// Joining is associative.
proof fn lemma_then_assoc(
    a: Result<Seq<u8>, ConvertErr>,
    b: Result<Seq<u8>, ConvertErr>,
    c: Result<Seq<u8>, ConvertErr>,
)
    ensures
        then(then(a, b), c) == then(a, then(b, c)),
{
    if let (Ok(x), Ok(y), Ok(z)) = (a, b, c) {
        assert((x + y) + z =~= x + (y + z));
    }
}

fn decimal_string(n: u64) -> (s: String)
    ensures
        s@ == decimal_text(n as nat),
{
    let mut s = String::new();
    push_decimal(&mut s, n);
    assert(s@ =~= decimal_text(n as nat));
    s
}

fn unsigned_value(v: &JsonValue, path: &str) -> (r: Result<u64, ConvertError>)
    ensures
        match unsigned_of(*v, path@) {
            Ok(n) => r == Ok::<u64, ConvertError>(n),
            Err(e) => r matches Err(x) && x@ == e,
        },
{
    match v {
        JsonValue::Number(n) => match n.as_u64 {
            Some(x) => Ok(x),
            None => Err(mismatch("non-negative integer", json_kind(v), path)),
        },
        _ => Err(mismatch("non-negative integer", json_kind(v), path)),
    }
}

fn signed_value(v: &JsonValue, path: &str) -> (r: Result<i64, ConvertError>)
    ensures
        match signed_of(*v, path@) {
            Ok(n) => r == Ok::<i64, ConvertError>(n),
            Err(e) => r matches Err(x) && x@ == e,
        },
{
    match v {
        JsonValue::Number(n) => match n.as_i64 {
            Some(x) => Ok(x),
            None => Err(mismatch("integer", json_kind(v), path)),
        },
        _ => Err(mismatch("integer", json_kind(v), path)),
    }
}

fn encode_unsigned(v: &JsonValue, out: &mut Vec<u8>, path: &str, bound: u64, ty: &str) -> (r:
    Result<(), ConvertError>)
    ensures
        outcome(r, old(out)@, final(out)@, enc_unsigned(*v, path@, bound as nat, ty@)),
        r is Err ==> final(out)@ == old(out)@,
{
    let n = unsigned_value(v, path)?;
    if n <= bound {
        push_varint_u64(out, n);
        Ok(())
    } else {
        Err(
            ConvertError::OutOfRange {
                ty: ty.to_owned(),
                value: decimal_string(n),
                path: path.to_owned(),
            },
        )
    }
}

fn encode_signed(
    v: &JsonValue,
    out: &mut Vec<u8>,
    path: &str,
    lo: i64,
    hi: i64,
    ty: &str,
) -> (r: Result<(), ConvertError>)
    ensures
        outcome(r, old(out)@, final(out)@, enc_signed(*v, path@, lo as int, hi as int, ty@)),
        r is Err ==> final(out)@ == old(out)@,
{
    let n = signed_value(v, path)?;
    if lo <= n && n <= hi {
        push_varint_u64(out, zigzag_i64(n));
        Ok(())
    } else {
        Err(
            ConvertError::OutOfRange {
                ty: ty.to_owned(),
                value: signed_string(n),
                path: path.to_owned(),
            },
        )
    }
}

/// `str::parse::<u128>`: an optional `+` followed by decimal digits, with a
/// value that fits; anything else is an error.
#[verifier::external_body]
fn u128_from_str(s: &str) -> (r: Result<u128, core::num::ParseIntError>)
    ensures
        r is Ok <==> parsed_u128(s@) is Some,
        r matches Ok(v) ==> parsed_u128(s@) == Some(v),
{
    s.parse::<u128>()
}

/// `str::parse::<i128>`: an optional `+` or `-` followed by decimal digits,
/// with a value in range; anything else is an error.
#[verifier::external_body]
fn i128_from_str(s: &str) -> (r: Result<i128, core::num::ParseIntError>)
    ensures
        r is Ok <==> parsed_i128(s@) is Some,
        r matches Ok(v) ==> parsed_i128(s@) == Some(v),
{
    s.parse::<i128>()
}

/// The index of the first variant named `name`.
fn find_variant(variants: &Vec<NamedVariant>, name: &str) -> (r: Option<usize>)
    ensures
        r matches Some(i) ==> variant_index(variants@, name@) == Some(i as nat),
        r is None ==> variant_index(variants@, name@) is None,
{
    let wanted = name.to_owned();
    let mut i: usize = 0;
    while i < variants.len()
        invariant
            i <= variants@.len(),
            wanted@ == name@,
            variant_index(variants@.take(i as int), name@) is None,
        decreases variants@.len() - i,
    {
        proof {
            assert(variants@.take(i + 1).drop_last() =~= variants@.take(i as int));
        }
        if variants[i].name == wanted {
            proof {
                assert(variants@.take(i + 1).last() == variants@[i as int]);
                assert(variant_index(variants@.take(i + 1), name@) == Some(i as nat));
                lemma_variant_index_prefix(variants@, i + 1);
            }
            return Some(i);
        }
        i += 1;
    }
    assert(variants@.take(variants@.len() as int) =~= variants@);
    None
}

/// A variant index lies within the list.
proof fn lemma_variant_index_bound(variants: Seq<NamedVariant>, name: Seq<char>)
    ensures
        variant_index(variants, name) matches Some(i) ==> i < variants.len(),
    decreases variants.len(),
{
    if variants.len() > 0 {
        lemma_variant_index_bound(variants.drop_last(), name);
    }
}

/// A variant found in a prefix is the first of the whole list.
proof fn lemma_variant_index_prefix(variants: Seq<NamedVariant>, n: int)
    requires
        0 <= n <= variants.len(),
    ensures
        forall|name: Seq<char>|
            #![trigger variant_index(variants.take(n), name)]
            variant_index(variants.take(n), name) is Some ==> variant_index(variants, name)
                == variant_index(variants.take(n), name),
    decreases variants.len(),
{
    if n == variants.len() {
        assert(variants.take(n) =~= variants);
    } else {
        let init = variants.drop_last();
        assert(init.take(n) =~= variants.take(n));
        lemma_variant_index_prefix(init, n);
    }
}

/// Encode `v` as a value of the primitive type `ty` found at `path`,
/// `depth` levels down, appending the bytes to `out`; on an error nothing is
/// appended.
#[verifier::spinoff_prover]
#[verifier::rlimit(100)]
fn encode_primitive(ty: &DataModel, v: &JsonValue, out: &mut Vec<u8>, path: &str, depth: usize) -> (r:
    Result<(), ConvertError>)
    requires
        depth < MAX_DEPTH,
        crate::json_decode::is_primitive(*ty),
    ensures
        outcome(r, old(out)@, final(out)@, enc(*ty, *v, path@, depth as nat)),
        r is Err ==> final(out)@ == old(out)@,
{
    match ty {
        DataModel::Bool => match v {
            JsonValue::Bool(b) => {
                out.push(if *b {
                    1
                } else {
                    0
                });
                assert(out@ =~= old(out)@ + seq![if *b { 1u8 } else { 0u8 }]);
                Ok(())
            },
            _ => Err(mismatch("boolean", json_kind(v), path)),
        },
        DataModel::U8 => {
            let n = unsigned_value(v, path)?;
            if n <= 255 {
                out.push(n as u8);
                assert(out@ =~= old(out)@ + seq![n as u8]);
                Ok(())
            } else {
                Err(
                    ConvertError::OutOfRange {
                        ty: "u8".to_owned(),
                        value: decimal_string(n),
                        path: path.to_owned(),
                    },
                )
            }
        },
        DataModel::U16 => encode_unsigned(v, out, path, 0xFFFF, "u16"),
        DataModel::U32 => encode_unsigned(v, out, path, 0xFFFF_FFFF, "u32"),
        DataModel::U64 => encode_unsigned(v, out, path, 0xFFFF_FFFF_FFFF_FFFF, "u64"),
        DataModel::Usize => {
            let n = unsigned_value(v, path)?;
            push_varint_u64(out, (n as usize) as u64);
            Ok(())
        },
        DataModel::I8 => {
            let n = signed_value(v, path)?;
            if -128 <= n && n <= 127 {
                out.push((n as i8) as u8);
                assert(out@ =~= old(out)@ + seq![(n as i8) as u8]);
                Ok(())
            } else {
                Err(
                    ConvertError::OutOfRange {
                        ty: "i8".to_owned(),
                        value: signed_string(n),
                        path: path.to_owned(),
                    },
                )
            }
        },
        DataModel::I16 => encode_signed(v, out, path, -0x8000, 0x7FFF, "i16"),
        DataModel::I32 => encode_signed(v, out, path, -0x8000_0000, 0x7FFF_FFFF, "i32"),
        DataModel::I64 => encode_signed(
            v,
            out,
            path,
            -0x8000_0000_0000_0000,
            0x7FFF_FFFF_FFFF_FFFF,
            "i64",
        ),
        DataModel::Isize => {
            let n = signed_value(v, path)?;
            push_varint_u64(out, zigzag_i64((n as isize) as i64));
            Ok(())
        },
        DataModel::U128 => match v {
            JsonValue::String(s) => match u128_from_str(s.as_str()) {
                Ok(x) => {
                    push_varint_u128(out, x);
                    Ok(())
                },
                Err(_) => Err(
                    ConvertError::TypeMismatch {
                        expected: "decimal string for u128".to_owned(),
                        got: s.clone(),
                        path: path.to_owned(),
                    },
                ),
            },
            _ => Err(mismatch("string", json_kind(v), path)),
        },
        DataModel::I128 => match v {
            JsonValue::String(s) => match i128_from_str(s.as_str()) {
                Ok(x) => {
                    push_varint_u128(out, zigzag_i128(x));
                    Ok(())
                },
                Err(_) => Err(
                    ConvertError::TypeMismatch {
                        expected: "decimal string for i128".to_owned(),
                        got: s.clone(),
                        path: path.to_owned(),
                    },
                ),
            },
            _ => Err(mismatch("string", json_kind(v), path)),
        },
        DataModel::F32 => match v {
            JsonValue::Number(n) => {
                push_le(out, n.f32_bits as u64, 4);
                Ok(())
            },
            _ => Err(mismatch("number", json_kind(v), path)),
        },
        DataModel::F64 => match v {
            JsonValue::Number(n) => {
                push_le(out, n.f64_bits, 8);
                Ok(())
            },
            _ => Err(mismatch("number", json_kind(v), path)),
        },
        DataModel::Char => match v {
            JsonValue::String(s) => {
                let chars = s.as_str().unicode_len();
                if chars == 0 {
                    Err(
                        ConvertError::TypeMismatch {
                            expected: "single-char string".to_owned(),
                            got: "empty string".to_owned(),
                            path: path.to_owned(),
                        },
                    )
                } else if chars > 1 {
                    let mut got = "string of length ".to_owned();
                    push_decimal(&mut got, s.as_str().as_bytes().len() as u64);
                    Err(
                        ConvertError::TypeMismatch {
                            expected: "single-char string".to_owned(),
                            got,
                            path: path.to_owned(),
                        },
                    )
                } else {
                    push_str(out, s.as_str());
                    Ok(())
                }
            },
            _ => Err(mismatch("string", json_kind(v), path)),
        },
        DataModel::String => match v {
            JsonValue::String(s) => {
                push_str(out, s.as_str());
                Ok(())
            },
            _ => Err(mismatch("string", json_kind(v), path)),
        },
        DataModel::ByteArray => match v {
            JsonValue::Array(items) => {
                let mut bytes: Vec<u8> = Vec::new();
                push_varint_u64(&mut bytes, items.len() as u64);
                let ghost mid = bytes@;
                let res = encode_bytes(items, &mut bytes, path);
                match res {
                    Ok(()) => {
                        proof {
                            lemma_ok_piece(res, mid, bytes@, enc_bytes(items@, path@, 0));
                        }
                        push_all(out, bytes.as_slice());
                        proof {
                            assert(bytes@ =~= varint(items@.len()) + bytes@.subrange(
                                mid.len() as int,
                                bytes@.len() as int,
                            ));
                        }
                        Ok(())
                    },
                    Err(e) => Err(e),
                }
            },
            _ => Err(mismatch("array", json_kind(v), path)),
        },
        _ => {
            proof {
                assert(false);
            }
            Err(ConvertError::Postcard(String::new()))
        },
    }
}

/// Encode `v` as a value of type `ty` found at `path`, `depth` levels down,
/// appending the bytes to `out`. A value of a primitive type that cannot be
/// encoded appends nothing.
#[verifier::spinoff_prover]
#[verifier::rlimit(100)]
pub fn encode_value(ty: &DataModel, v: &JsonValue, out: &mut Vec<u8>, path: &str, depth: usize) -> (r:
    Result<(), ConvertError>)
    ensures
        outcome(r, old(out)@, final(out)@, enc(*ty, *v, path@, depth as nat)),
        r is Err && crate::json_decode::is_primitive(*ty) ==> final(out)@ == old(out)@,
    decreases budget(depth as nat), 0nat, 0nat,
{
    if depth >= MAX_DEPTH {
        return Err(ConvertError::DepthExceeded { path: path.to_owned() });
    }
    match ty {
        DataModel::Bool | DataModel::U8 | DataModel::U16 | DataModel::U32 | DataModel::U64
        | DataModel::Usize | DataModel::I8 | DataModel::I16 | DataModel::I32 | DataModel::I64
        | DataModel::Isize | DataModel::U128 | DataModel::I128 | DataModel::F32 | DataModel::F64
        | DataModel::Char | DataModel::String | DataModel::ByteArray => encode_primitive(
            ty,
            v,
            out,
            path,
            depth,
        ),
        DataModel::Option(inner) => match v {
            JsonValue::Null => {
                out.push(0);
                assert(out@ =~= old(out)@ + seq![0u8]);
                Ok(())
            },
            _ => {
                out.push(1);
                let ghost mid = out@;
                let res = encode_value(&inner.ty, v, out, path, depth + 1);
                proof {
                    if res is Ok {
                        lemma_ok_piece(res, mid, out@, enc(inner.ty, *v, path@, (depth + 1) as nat));
                        assert(out@ =~= old(out)@ + (seq![1u8] + out@.subrange(
                            mid.len() as int,
                            out@.len() as int,
                        )));
                    }
                }
                res
            },
        },
        DataModel::Unit => {
            assert(out@ =~= old(out)@ + Seq::<u8>::empty());
            Ok(())
        },
        DataModel::UnitStruct => {
            assert(out@ =~= old(out)@ + Seq::<u8>::empty());
            Ok(())
        },
        DataModel::NewtypeStruct(inner) => encode_value(&inner.ty, v, out, path, depth + 1),
        DataModel::SeqOf(inner) => match v {
            JsonValue::Array(items) => {
                push_varint_u64(out, items.len() as u64);
                let ghost mid = out@;
                let res = encode_items(&inner.ty, items, out, path, depth + 1);
                proof {
                    if res is Ok {
                        lemma_ok_piece(
                            res,
                            mid,
                            out@,
                            enc_items(inner.ty, items@, path@, (depth + 1) as nat, 0),
                        );
                        assert(out@ =~= old(out)@ + (varint(items@.len()) + out@.subrange(
                            mid.len() as int,
                            out@.len() as int,
                        )));
                    }
                }
                res
            },
            _ => Err(mismatch("array", json_kind(v), path)),
        },
        DataModel::Tuple(elems) => encode_tuple(elems, v, out, path, depth + 1),
        DataModel::TupleStruct(elems) => encode_tuple(elems, v, out, path, depth + 1),
        DataModel::MapOf { key, val } => match &key.ty {
            DataModel::String => match v {
                JsonValue::Object(members) => {
                    push_varint_u64(out, members.len() as u64);
                    let ghost mid = out@;
                    let res = encode_str_map(&val.ty, members, out, path, depth + 1);
                    proof {
                        if res is Ok {
                            lemma_ok_piece(
                                res,
                                mid,
                                out@,
                                enc_str_map(val.ty, members@, path@, (depth + 1) as nat, 0),
                            );
                            assert(out@ =~= old(out)@ + (varint(members@.len()) + out@.subrange(
                                mid.len() as int,
                                out@.len() as int,
                            )));
                        }
                    }
                    res
                },
                _ => Err(mismatch("object", json_kind(v), path)),
            },
            _ => match v {
                JsonValue::Array(pairs) => {
                    push_varint_u64(out, pairs.len() as u64);
                    let ghost mid = out@;
                    let res = encode_pairs(&key.ty, &val.ty, pairs, out, path, depth + 1);
                    proof {
                        if res is Ok {
                            lemma_ok_piece(
                                res,
                                mid,
                                out@,
                                enc_pairs(key.ty, val.ty, pairs@, path@, (depth + 1) as nat, 0),
                            );
                            assert(out@ =~= old(out)@ + (varint(pairs@.len()) + out@.subrange(
                                mid.len() as int,
                                out@.len() as int,
                            )));
                        }
                    }
                    res
                },
                _ => Err(mismatch("array", json_kind(v), path)),
            },
        },
        DataModel::Struct(fields) => {
            if fields.len() == 0 {
                assert(out@ =~= old(out)@ + Seq::<u8>::empty());
                return Ok(());
            }
            match v {
                JsonValue::Object(members) => encode_fields(fields, members, out, path, depth + 1),
                _ => Err(mismatch("object", json_kind(v), path)),
            }
        },
        DataModel::Enum(variants) => match v {
            JsonValue::String(s) => {
                proof {
                    lemma_variant_index_bound(variants@, s@);
                }
                match find_variant(variants, s.as_str()) {
                None => Err(
                    ConvertError::UnknownEnumVariant { variant: s.clone(), path: path.to_owned() },
                ),
                Some(i) => match &variants[i].ty {
                    VariantModel::UnitVariant => {
                        push_varint_u64(out, i as u64);
                        Ok(())
                    },
                    _ => {
                        let mut expected = "object with key '".to_owned();
                        expected.append(s.as_str());
                        expected.append(
                            "' and payload (string is only valid for unit variants)",
                        );
                        Err(
                            ConvertError::TypeMismatch {
                                expected,
                                got: "string".to_owned(),
                                path: path.to_owned(),
                            },
                        )
                    },
                },
                }
            },
            JsonValue::Object(members) => {
                if members.len() != 1 {
                    let mut got = "object with ".to_owned();
                    push_decimal(&mut got, members.len() as u64);
                    got.append(" keys");
                    return Err(
                        ConvertError::TypeMismatch {
                            expected: "object with exactly one key (enum variant)".to_owned(),
                            got,
                            path: path.to_owned(),
                        },
                    );
                }
                let (name, payload) = &members[0];
                proof {
                    lemma_variant_index_bound(variants@, name@);
                }
                match find_variant(variants, name.as_str()) {
                    None => Err(
                        ConvertError::UnknownEnumVariant {
                            variant: name.clone(),
                            path: path.to_owned(),
                        },
                    ),
                    Some(i) => {
                        push_varint_u64(out, i as u64);
                        let ghost mid = out@;
                        let res = encode_variant(&variants[i].ty, payload, out, path, depth + 1);
                        proof {
                            if res is Ok {
                                lemma_ok_piece(
                                    res,
                                    mid,
                                    out@,
                                    enc_variant(
                                        variants@[i as int].ty,
                                        members@[0].1,
                                        path@,
                                        (depth + 1) as nat,
                                    ),
                                );
                                assert(out@ =~= old(out)@ + (varint(i as nat) + out@.subrange(
                                    mid.len() as int,
                                    out@.len() as int,
                                )));
                            }
                        }
                        res
                    },
                }
            },
            _ => Err(mismatch("string or object for enum", json_kind(v), path)),
        },
        DataModel::Schema => Err(
            ConvertError::TypeUnsupported { ty: "Schema".to_owned(), path: path.to_owned() },
        ),
    }
}

/// Append the bytes of a byte-array value.
fn encode_bytes(items: &Vec<JsonValue>, out: &mut Vec<u8>, path: &str) -> (r: Result<
    (),
    ConvertError,
>)
    ensures
        outcome(r, old(out)@, final(out)@, enc_bytes(items@, path@, 0)),
{
    let ghost start = out@;
    let mut i: usize = 0;
    while i < items.len()
        invariant
            i <= items@.len(),
            start.len() <= out@.len(),
            out@.subrange(0, start.len() as int) == start,
            enc_bytes(items@, path@, 0) == then(
                Ok(out@.subrange(start.len() as int, out@.len() as int)),
                enc_bytes(items@, path@, i as nat),
            ),
        decreases items@.len() - i,
    {
        let p = make_index_path(path, i);
        let n = unsigned_value(&items[i], p.as_str())?;
        if n > 255 {
            return Err(
                ConvertError::OutOfRange { ty: "u8".to_owned(), value: decimal_string(n), path: p },
            );
        }
        let ghost before = out@;
        out.push(n as u8);
        proof {
            lemma_then_assoc(
                Ok(before.subrange(start.len() as int, before.len() as int)),
                Ok(seq![n as u8]),
                enc_bytes(items@, path@, (i + 1) as nat),
            );
            assert(out@.subrange(start.len() as int, out@.len() as int) =~= before.subrange(
                start.len() as int,
                before.len() as int,
            ) + seq![n as u8]);
            assert(out@.subrange(0, start.len() as int) =~= before.subrange(
                0,
                start.len() as int,
            ));
        }
        i += 1;
    }
    proof {
        assert(out@ =~= start + out@.subrange(start.len() as int, out@.len() as int));
    }
    Ok(())
}

/// Append the items of a sequence.
fn encode_items(ty: &DataModel, items: &Vec<JsonValue>, out: &mut Vec<u8>, path: &str, depth: usize) -> (r:
    Result<(), ConvertError>)
    requires
        depth <= MAX_DEPTH + 1,
    ensures
        outcome(r, old(out)@, final(out)@, enc_items(*ty, items@, path@, depth as nat, 0)),
    decreases budget(depth as nat), 1nat, items@.len(),
{
    let ghost start = out@;
    let mut i: usize = 0;
    while i < items.len()
        invariant
            i <= items@.len(),
            depth <= MAX_DEPTH + 1,
            start.len() <= out@.len(),
            out@.subrange(0, start.len() as int) == start,
            enc_items(*ty, items@, path@, depth as nat, 0) == then(
                Ok(out@.subrange(start.len() as int, out@.len() as int)),
                enc_items(*ty, items@, path@, depth as nat, i as nat),
            ),
        decreases items@.len() - i,
    {
        let p = make_index_path(path, i);
        let ghost before = out@;
        assert(enc_items(*ty, items@, path@, depth as nat, i as nat) == then(
            enc(*ty, items@[i as int], index_path(path@, i as nat), depth as nat),
            enc_items(*ty, items@, path@, depth as nat, (i + 1) as nat),
        ));
        let res = encode_value(ty, &items[i], out, p.as_str(), depth);
        if let Err(e) = res {
            return Err(e);
        }
        proof {
            lemma_ok_piece(res, before, out@, enc(*ty, items@[i as int], index_path(path@, i as nat), depth as nat));
            let piece = out@.subrange(before.len() as int, out@.len() as int);
            assert(out@ =~= before + piece);
            lemma_then_assoc(
                Ok(before.subrange(start.len() as int, before.len() as int)),
                Ok(piece),
                enc_items(*ty, items@, path@, depth as nat, (i + 1) as nat),
            );
            assert(out@.subrange(start.len() as int, out@.len() as int) =~= before.subrange(
                start.len() as int,
                before.len() as int,
            ) + piece);
            assert(out@.subrange(0, start.len() as int) =~= before.subrange(
                0,
                start.len() as int,
            ));
        }
        i += 1;
    }
    proof {
        assert(out@ =~= start + out@.subrange(start.len() as int, out@.len() as int));
    }
    Ok(())
}

/// Append a value of a tuple type.
fn encode_tuple(
    elems: &Vec<NamedType>,
    v: &JsonValue,
    out: &mut Vec<u8>,
    path: &str,
    depth: usize,
) -> (r: Result<(), ConvertError>)
    requires
        depth <= MAX_DEPTH + 1,
    ensures
        outcome(r, old(out)@, final(out)@, enc_tuple(elems@, *v, path@, depth as nat)),
    decreases budget(depth as nat), 2nat, 1nat,
{
    let bare = match v {
        JsonValue::Array(_) => false,
        _ => true,
    };
    if elems.len() == 1 && bare {
        let p = make_position_path(path, 0);
        encode_value(&elems[0].ty, v, out, p.as_str(), depth)
    } else {
        encode_tuple_value(elems, v, out, path, depth)
    }
}

/// Append the elements of a tuple value.
fn encode_tuple_value(
    elems: &Vec<NamedType>,
    v: &JsonValue,
    out: &mut Vec<u8>,
    path: &str,
    depth: usize,
) -> (r: Result<(), ConvertError>)
    requires
        depth <= MAX_DEPTH + 1,
    ensures
        outcome(r, old(out)@, final(out)@, enc_tuple_value(elems@, *v, path@, depth as nat)),
    decreases budget(depth as nat), 2nat, 0nat,
{
    let items = match v {
        JsonValue::Array(items) => items,
        _ => {
            return Err(mismatch("array", json_kind(v), path));
        },
    };
    if items.len() != elems.len() {
        return Err(
            ConvertError::ArityMismatch {
                expected: elems.len(),
                got: items.len(),
                path: path.to_owned(),
            },
        );
    }
    let ghost start = out@;
    let mut i: usize = 0;
    while i < items.len()
        invariant
            i <= items@.len(),
            items@.len() == elems@.len(),
            depth <= MAX_DEPTH + 1,
            *v == JsonValue::Array(*items),
            enc_tuple_value(elems@, *v, path@, depth as nat) == enc_elems(
                elems@,
                items@,
                path@,
                depth as nat,
                0,
            ),
            start.len() <= out@.len(),
            out@.subrange(0, start.len() as int) == start,
            enc_elems(elems@, items@, path@, depth as nat, 0) == then(
                Ok(out@.subrange(start.len() as int, out@.len() as int)),
                enc_elems(elems@, items@, path@, depth as nat, i as nat),
            ),
        decreases items@.len() - i,
    {
        let p = make_position_path(path, i);
        let ghost before = out@;
        assert(enc_elems(elems@, items@, path@, depth as nat, i as nat) == then(
            enc(elems@[i as int].ty, items@[i as int], position_path(path@, i as nat), depth as nat),
            enc_elems(elems@, items@, path@, depth as nat, (i + 1) as nat),
        ));
        let res = encode_value(&elems[i].ty, &items[i], out, p.as_str(), depth);
        if let Err(e) = res {
            return Err(e);
        }
        proof {
            lemma_ok_piece(res, before, out@, enc(elems@[i as int].ty, items@[i as int], position_path(path@, i as nat), depth as nat));
            let piece = out@.subrange(before.len() as int, out@.len() as int);
            assert(out@ =~= before + piece);
            lemma_then_assoc(
                Ok(before.subrange(start.len() as int, before.len() as int)),
                Ok(piece),
                enc_elems(elems@, items@, path@, depth as nat, (i + 1) as nat),
            );
            assert(out@.subrange(start.len() as int, out@.len() as int) =~= before.subrange(
                start.len() as int,
                before.len() as int,
            ) + piece);
            assert(out@.subrange(0, start.len() as int) =~= before.subrange(
                0,
                start.len() as int,
            ));
        }
        i += 1;
    }
    proof {
        assert(out@ =~= start + out@.subrange(start.len() as int, out@.len() as int));
    }
    Ok(())
}

/// Append the members of a map with string keys.
fn encode_str_map(
    val: &DataModel,
    members: &Vec<(String, JsonValue)>,
    out: &mut Vec<u8>,
    path: &str,
    depth: usize,
) -> (r: Result<(), ConvertError>)
    requires
        depth <= MAX_DEPTH + 1,
    ensures
        outcome(r, old(out)@, final(out)@, enc_str_map(*val, members@, path@, depth as nat, 0)),
    decreases budget(depth as nat), 1nat, members@.len(),
{
    let ghost start = out@;
    let mut i: usize = 0;
    while i < members.len()
        invariant
            i <= members@.len(),
            depth <= MAX_DEPTH + 1,
            start.len() <= out@.len(),
            out@.subrange(0, start.len() as int) == start,
            enc_str_map(*val, members@, path@, depth as nat, 0) == then(
                Ok(out@.subrange(start.len() as int, out@.len() as int)),
                enc_str_map(*val, members@, path@, depth as nat, i as nat),
            ),
        decreases members@.len() - i,
    {
        let (k, item) = &members[i];
        let p = make_member_path(path, k.as_str());
        let ghost before = out@;
        assert(enc_str_map(*val, members@, path@, depth as nat, i as nat) == then(
            then(Ok(str_encoding(k@)), enc(*val, *item, member_path(path@, k@), depth as nat)),
            enc_str_map(*val, members@, path@, depth as nat, (i + 1) as nat),
        ));
        push_str(out, k.as_str());
        let ghost mid = out@;
        let res = encode_value(val, item, out, p.as_str(), depth);
        if let Err(e) = res {
            return Err(e);
        }
        proof {
            lemma_ok_piece(res, mid, out@, enc(*val, *item, member_path(path@, k@), depth as nat));
            let piece = out@.subrange(before.len() as int, out@.len() as int);
            let value_bytes = out@.subrange(mid.len() as int, out@.len() as int);
            assert(out@ =~= mid + value_bytes);
            assert(piece =~= str_encoding(k@) + value_bytes);
            lemma_then_assoc(
                Ok(before.subrange(start.len() as int, before.len() as int)),
                Ok(piece),
                enc_str_map(*val, members@, path@, depth as nat, (i + 1) as nat),
            );
            assert(out@.subrange(start.len() as int, out@.len() as int) =~= before.subrange(
                start.len() as int,
                before.len() as int,
            ) + piece);
            assert(out@.subrange(0, start.len() as int) =~= before.subrange(
                0,
                start.len() as int,
            ));
        }
        i += 1;
    }
    proof {
        assert(out@ =~= start + out@.subrange(start.len() as int, out@.len() as int));
    }
    Ok(())
}

/// Append the `[key, value]` pairs of a map.
fn encode_pairs(
    key: &DataModel,
    val: &DataModel,
    pairs: &Vec<JsonValue>,
    out: &mut Vec<u8>,
    path: &str,
    depth: usize,
) -> (r: Result<(), ConvertError>)
    requires
        depth <= MAX_DEPTH + 1,
    ensures
        outcome(r, old(out)@, final(out)@, enc_pairs(*key, *val, pairs@, path@, depth as nat, 0)),
    decreases budget(depth as nat), 1nat, pairs@.len(),
{
    let ghost start = out@;
    let mut i: usize = 0;
    while i < pairs.len()
        invariant
            i <= pairs@.len(),
            depth <= MAX_DEPTH + 1,
            start.len() <= out@.len(),
            out@.subrange(0, start.len() as int) == start,
            enc_pairs(*key, *val, pairs@, path@, depth as nat, 0) == then(
                Ok(out@.subrange(start.len() as int, out@.len() as int)),
                enc_pairs(*key, *val, pairs@, path@, depth as nat, i as nat),
            ),
        decreases pairs@.len() - i,
    {
        let p = make_index_path(path, i);
        let pair = match &pairs[i] {
            JsonValue::Array(pair) => pair,
            _ => {
                return Err(mismatch("array", json_kind(&pairs[i]), p.as_str()));
            },
        };
        if pair.len() != 2 {
            return Err(ConvertError::ArityMismatch { expected: 2, got: pair.len(), path: p });
        }
        let kp = make_key_path(path, i, true);
        let vp = make_key_path(path, i, false);
        let ghost before = out@;
        assert(enc_pairs(*key, *val, pairs@, path@, depth as nat, i as nat) == then(
            then(
                enc(*key, pair@[0], key_path(path@, i as nat), depth as nat),
                enc(*val, pair@[1], val_path(path@, i as nat), depth as nat),
            ),
            enc_pairs(*key, *val, pairs@, path@, depth as nat, (i + 1) as nat),
        ));
        let res = encode_value(key, &pair[0], out, kp.as_str(), depth);
        if let Err(e) = res {
            return Err(e);
        }
        proof {
            lemma_ok_piece(res, before, out@, enc(*key, pair@[0], key_path(path@, i as nat), depth as nat));
        }
        let ghost mid = out@;
        let res2 = encode_value(val, &pair[1], out, vp.as_str(), depth);
        if let Err(e) = res2 {
            return Err(e);
        }
        proof {
            lemma_ok_piece(res2, mid, out@, enc(*val, pair@[1], val_path(path@, i as nat), depth as nat));
            let piece = out@.subrange(before.len() as int, out@.len() as int);
            let key_bytes = mid.subrange(before.len() as int, mid.len() as int);
            let value_bytes = out@.subrange(mid.len() as int, out@.len() as int);
            assert(mid =~= before + key_bytes);
            assert(out@ =~= mid + value_bytes);
            assert(piece =~= key_bytes + value_bytes);
            lemma_then_assoc(
                Ok(before.subrange(start.len() as int, before.len() as int)),
                Ok(piece),
                enc_pairs(*key, *val, pairs@, path@, depth as nat, (i + 1) as nat),
            );
            assert(out@.subrange(start.len() as int, out@.len() as int) =~= before.subrange(
                start.len() as int,
                before.len() as int,
            ) + piece);
            assert(out@.subrange(0, start.len() as int) =~= before.subrange(
                0,
                start.len() as int,
            ));
        }
        i += 1;
    }
    proof {
        assert(out@ =~= start + out@.subrange(start.len() as int, out@.len() as int));
    }
    Ok(())
}

/// Append the fields of a struct, each looked up by name.
fn encode_fields(
    fields: &Vec<NamedValue>,
    members: &Vec<(String, JsonValue)>,
    out: &mut Vec<u8>,
    path: &str,
    depth: usize,
) -> (r: Result<(), ConvertError>)
    requires
        depth <= MAX_DEPTH + 1,
    ensures
        outcome(r, old(out)@, final(out)@, enc_fields(fields@, members@, path@, depth as nat, 0)),
    decreases budget(depth as nat), 1nat, fields@.len(),
{
    let ghost start = out@;
    let mut i: usize = 0;
    while i < fields.len()
        invariant
            i <= fields@.len(),
            depth <= MAX_DEPTH + 1,
            start.len() <= out@.len(),
            out@.subrange(0, start.len() as int) == start,
            enc_fields(fields@, members@, path@, depth as nat, 0) == then(
                Ok(out@.subrange(start.len() as int, out@.len() as int)),
                enc_fields(fields@, members@, path@, depth as nat, i as nat),
            ),
        decreases fields@.len() - i,
    {
        let f = &fields[i];
        proof {
            crate::data_model::lemma_member(members@, f.name@);
        }
        let m = match find_member(members, f.name.as_str()) {
            Some(m) => m,
            None => {
                return Err(
                    ConvertError::MissingField { name: f.name.clone(), path: path.to_owned() },
                );
            },
        };
        let p = make_member_path(path, f.name.as_str());
        let ghost before = out@;
        assert(enc_fields(fields@, members@, path@, depth as nat, i as nat) == then(
            enc(f.ty.ty, members@[m as int].1, member_path(path@, f.name@), depth as nat),
            enc_fields(fields@, members@, path@, depth as nat, (i + 1) as nat),
        ));
        let res = encode_value(&f.ty.ty, &members[m].1, out, p.as_str(), depth);
        if let Err(e) = res {
            return Err(e);
        }
        proof {
            lemma_ok_piece(res, before, out@, enc(f.ty.ty, members@[m as int].1, member_path(path@, f.name@), depth as nat));
            let piece = out@.subrange(before.len() as int, out@.len() as int);
            assert(out@ =~= before + piece);
            lemma_then_assoc(
                Ok(before.subrange(start.len() as int, before.len() as int)),
                Ok(piece),
                enc_fields(fields@, members@, path@, depth as nat, (i + 1) as nat),
            );
            assert(out@.subrange(start.len() as int, out@.len() as int) =~= before.subrange(
                start.len() as int,
                before.len() as int,
            ) + piece);
            assert(out@.subrange(0, start.len() as int) =~= before.subrange(
                0,
                start.len() as int,
            ));
        }
        i += 1;
    }
    proof {
        assert(out@ =~= start + out@.subrange(start.len() as int, out@.len() as int));
    }
    Ok(())
}

/// Append the payload of an enum variant.
fn encode_variant(
    ty: &VariantModel,
    v: &JsonValue,
    out: &mut Vec<u8>,
    path: &str,
    depth: usize,
) -> (r: Result<(), ConvertError>)
    requires
        depth <= MAX_DEPTH,
    ensures
        outcome(r, old(out)@, final(out)@, enc_variant(*ty, *v, path@, depth as nat)),
    decreases budget(depth as nat), 3nat, 0nat,
{
    match ty {
        VariantModel::UnitVariant => {
            assert(out@ =~= old(out)@ + Seq::<u8>::empty());
            Ok(())
        },
        VariantModel::NewtypeVariant(inner) => encode_value(&inner.ty, v, out, path, depth),
        VariantModel::TupleVariant(elems) => encode_tuple_value(elems, v, out, path, depth + 1),
        VariantModel::StructVariant(fields) => match v {
            JsonValue::Object(members) => encode_fields(fields, members, out, path, depth + 1),
            _ => Err(mismatch("object", json_kind(v), path)),
        },
    }
}

/// Encode `json` as postcard bytes of the type `schema` describes.
pub fn json_to_postcard(schema: &NamedType, json: &JsonValue) -> (r: Result<Vec<u8>, ConvertError>)
    ensures
        match enc(schema.ty, *json, "$"@, 0) {
            Ok(b) => r matches Ok(out) && out@ == b,
            Err(e) => r matches Err(x) && x@ == e,
        },
{
    let mut out: Vec<u8> = Vec::new();
    match encode_value(&schema.ty, json, &mut out, "$", 0) {
        Ok(()) => {
            assert(out@ =~= Seq::<u8>::empty() + out@);
            Ok(out)
        },
        Err(e) => Err(e),
    }
}

} // verus!
