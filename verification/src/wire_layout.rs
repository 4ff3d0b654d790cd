//! The postcard wire layout of each primitive value, stated on its own.
//!
//! The codec between JSON and postcard (`enc` and `dec`) must agree with
//! postcard's documented format, not merely with itself. This module says
//! what the bytes of each primitive are in plain arithmetic, with no use of
//! the codec's own helpers: a little-endian number is its base-256 digits,
//! a varint is its base-128 digits with a continuation bit, and the laws
//! below hold the encoder and the decoder to those layouts.

use vstd::prelude::*;
use vstd::utf8::encode_utf8;
use vstd::arithmetic::div_mod::{lemma_div_denominator, lemma_multiply_divide_lt};
use vstd::arithmetic::power2::{lemma2_to64, lemma2_to64_rest, pow2};
use crate::data_model::{DataModel, JsonNumber, JsonValue, JsonView};
use crate::json_encode::{enc, parsed_i128, parsed_u128, signed_text, ConvertErr, MAX_DEPTH};
use crate::json_decode::{
    dec, lemma_le_roundtrip, lemma_string_roundtrip, lemma_varint_bounds, lemma_varint_roundtrip,
};
use crate::postcard_wire::{le_bytes, varint};
use crate::text::decimal_text;

verus! {

// ---------------------------------------------------------------------------
// The layouts
// ---------------------------------------------------------------------------

/// `radix` to the power `i`: the weight of digit `i`.
pub open spec fn place(radix: nat, i: nat) -> nat
    decreases i,
{
    if i == 0 {
        1
    } else {
        radix * place(radix, (i - 1) as nat)
    }
}

/// `b` holds `x` in `count` bytes, least significant byte first: byte `i`
/// is base-256 digit `i` of `x`, and `x` has no digit beyond them.
pub open spec fn is_little_endian(b: Seq<u8>, x: nat, count: nat) -> bool {
    &&& b.len() == count
    &&& x < place(256, count)
    &&& forall|i: int| 0 <= i < count ==> #[trigger] b[i] as nat == (x / place(256, i as nat)) % 256
}

/// `b` is the LEB128 varint of `x`: byte `i` carries base-128 digit `i` of
/// `x` in its low seven bits, every byte but the last has its high bit set,
/// `x` has no digit beyond the bytes, and the last byte is zero only when
/// it is the only one.
pub open spec fn is_leb128(b: Seq<u8>, x: nat) -> bool {
    &&& b.len() >= 1
    &&& x < place(128, b.len())
    &&& forall|i: int| 0 <= i < b.len() ==> #[trigger] b[i] as nat % 128 == (x / place(128, i as nat)) % 128
    &&& forall|i: int| 0 <= i < b.len() - 1 ==> #[trigger] b[i] >= 128
    &&& b[b.len() - 1] < 128
    &&& b.len() > 1 ==> b[b.len() - 1] != 0
}

/// Zigzag code of a signed integer: twice a non-negative one, and one less
/// than twice the magnitude of a negative one.
pub open spec fn zigzag_code(k: int) -> nat {
    if k >= 0 {
        (2 * k) as nat
    } else {
        (2 * (-k) - 1) as nat
    }
}

/// The largest value of an unsigned varint type.
pub open spec fn unsigned_limit(ty: DataModel) -> nat {
    match ty {
        DataModel::U16 => 0xFFFF,
        DataModel::U32 => 0xFFFF_FFFF,
        DataModel::U64 => 0xFFFF_FFFF_FFFF_FFFF,
        DataModel::Usize => usize::MAX as nat,
        _ => 0,
    }
}

/// Whether `k` lies in the range of a signed varint type.
pub open spec fn signed_in_range(ty: DataModel, k: int) -> bool {
    match ty {
        DataModel::I16 => -0x8000 <= k <= 0x7FFF,
        DataModel::I32 => -0x8000_0000 <= k <= 0x7FFF_FFFF,
        DataModel::I64 => -0x8000_0000_0000_0000 <= k <= 0x7FFF_FFFF_FFFF_FFFF,
        DataModel::Isize => isize::MIN <= k <= isize::MAX,
        _ => false,
    }
}

// ---------------------------------------------------------------------------
// The codec's helpers meet the layouts
// ---------------------------------------------------------------------------

proof fn lemma_place_positive(radix: nat, i: nat)
    requires
        radix > 0,
    ensures
        place(radix, i) > 0,
        i > 0 ==> place(radix, i) >= radix,
    decreases i,
{
    if i > 0 {
        lemma_place_positive(radix, (i - 1) as nat);
        assert(radix * place(radix, (i - 1) as nat) >= radix) by (nonlinear_arith)
            requires
                radix > 0,
                place(radix, (i - 1) as nat) > 0,
        ;
    }
}

/// Digit `i + 1` of `x` is digit `i` of `x / radix`.
proof fn lemma_next_digit(x: nat, radix: nat, i: nat)
    requires
        radix > 0,
    ensures
        (x / radix) / place(radix, i) == x / place(radix, i + 1),
{
    lemma_place_positive(radix, i);
    lemma_div_denominator(x as int, radix as int, place(radix, i) as int);
    assert(place(radix, i + 1) == radix * place(radix, i));
}

/// `x < radix * p` puts `x / radix` below `p`.
proof fn lemma_shift_bound(x: nat, radix: nat, p: nat)
    requires
        radix > 0,
        x < radix * p,
    ensures
        x / radix < p,
{
    lemma_multiply_divide_lt(x as int, radix as int, p as int);
}

/// The codec's little-endian bytes of `x` are its base-256 digits.
proof fn lemma_le_bytes_layout(x: nat, count: nat)
    requires
        x < place(256, count),
    ensures
        is_little_endian(le_bytes(x, count), x, count),
    decreases count,
{
    if count > 0 {
        let c1 = (count - 1) as nat;
        lemma_shift_bound(x, 256, place(256, c1));
        lemma_le_bytes_layout(x / 256, c1);
        let b = le_bytes(x, count);
        let r = le_bytes(x / 256, c1);
        assert(b =~= seq![(x % 256) as u8] + r);
        assert forall|i: int| 0 <= i < count implies #[trigger] b[i] as nat == (x / place(
            256,
            i as nat,
        )) % 256 by {
            if i > 0 {
                let j = i - 1;
                assert(b[i] == r[j]);
                assert(r[j] as nat == ((x / 256) / place(256, j as nat)) % 256);
                lemma_next_digit(x, 256, j as nat);
                assert(j as nat + 1 == i as nat);
            } else {
                assert(place(256, 0) == 1);
                assert(x / 1 == x);
                assert(b[0] == (x % 256) as u8);
            }
        }
    }
}

/// Bytes that hold `x` little-endian are the codec's bytes of `x`.
proof fn lemma_le_unique(b: Seq<u8>, x: nat, count: nat)
    requires
        is_little_endian(b, x, count),
    ensures
        b == le_bytes(x, count),
{
    lemma_le_bytes_layout(x, count);
    assert(b =~= le_bytes(x, count));
}

/// The codec's varint of `x` is the LEB128 varint of `x`.
proof fn lemma_varint_layout(x: nat)
    ensures
        is_leb128(varint(x), x),
    decreases x,
{
    if x >= 128 {
        let q = x / 128;
        lemma_varint_layout(q);
        let r = varint(q);
        let b = varint(x);
        assert(b =~= seq![(x % 128 + 128) as u8] + r);
        assert(x < 128 * place(128, r.len())) by (nonlinear_arith)
            requires
                q < place(128, r.len()),
                q == x / 128,
        ;
        assert(place(128, b.len()) == 128 * place(128, r.len()));
        assert forall|i: int| 0 <= i < b.len() implies #[trigger] b[i] as nat % 128 == (x / place(
            128,
            i as nat,
        )) % 128 by {
            if i > 0 {
                let j = i - 1;
                assert(b[i] == r[j]);
                assert(r[j] as nat % 128 == (q / place(128, j as nat)) % 128);
                lemma_next_digit(x, 128, j as nat);
                assert(j as nat + 1 == i as nat);
            } else {
                assert(place(128, 0) == 1);
                assert(x / 1 == x);
                assert(b[0] == (x % 128 + 128) as u8);
                assert(((x % 128 + 128) as u8) as nat % 128 == x % 128);
            }
        }
        assert forall|i: int| 0 <= i < b.len() - 1 implies #[trigger] b[i] >= 128 by {
            if i > 0 {
                assert(b[i] == r[i - 1]);
            }
        }
        assert(b[b.len() - 1] == r[r.len() - 1]);
        if r.len() == 1 {
            assert(q >= 1);
        }
        assert(is_leb128(b, x));
    } else {
        let b = varint(x);
        assert(b =~= seq![x as u8]);
        assert(place(128, 0) == 1);
        assert(place(128, 1) == 128);
        assert(x / 1 == x);
        assert(x % 128 == x);
        assert(is_leb128(b, x));
    }
}

/// The LEB128 varint of `x` is unique: it is the codec's varint of `x`.
proof fn lemma_leb128_unique(b: Seq<u8>, x: nat)
    requires
        is_leb128(b, x),
    ensures
        b == varint(x),
    decreases b.len(),
{
    let n = b.len();
    assert(b[0] as nat % 128 == (x / place(128, 0)) % 128);
    if n == 1 {
        assert(x < 128);
        assert(place(128, 0) == 1);
        assert(x / 1 == x);
        assert(x % 128 == x);
        assert(b[0] < 128);
        assert(b[0] as nat % 128 == b[0] as nat);
        assert(b =~= seq![x as u8]);
    } else {
        let last = (n - 1) as nat;
        lemma_place_positive(128, last);
        if x < 128 {
            assert(x / place(128, last) == 0) by (nonlinear_arith)
                requires
                    x < 128,
                    place(128, last) >= 128,
            ;
            assert(b[last as int] as nat % 128 == 0);
            assert(false);
        }
        let q = x / 128;
        let r = b.subrange(1, n as int);
        assert(place(128, n) == 128 * place(128, last));
        lemma_shift_bound(x, 128, place(128, last));
        assert forall|i: int| 0 <= i < r.len() implies #[trigger] r[i] as nat % 128 == (q / place(
            128,
            i as nat,
        )) % 128 by {
            assert(r[i] == b[i + 1]);
            lemma_next_digit(x, 128, i as nat);
        }
        assert forall|i: int| 0 <= i < r.len() - 1 implies #[trigger] r[i] >= 128 by {
            assert(r[i] == b[i + 1]);
        }
        assert(r[r.len() - 1] == b[n - 1]);
        lemma_leb128_unique(r, q);
        assert(b[0] >= 128);
        assert(place(128, 0) == 1);
        assert(x / 1 == x);
        assert(b[0] as nat % 128 == x % 128);
        assert(b[0] as nat == b[0] as nat % 128 + 128);
        assert(b[0] == (x % 128 + 128) as u8);
        assert(b =~= seq![(x % 128 + 128) as u8] + r);
    }
}

proof fn lemma_place_values()
    ensures
        place(256, 4) == 0x1_0000_0000,
        place(256, 8) == 0x1_0000_0000_0000_0000,
        pow2(32) == 0x1_0000_0000,
        pow2(64) == 0x1_0000_0000_0000_0000,
{
    reveal_with_fuel(place, 9);
    lemma2_to64();
    lemma2_to64_rest();
}

// ---------------------------------------------------------------------------
// Floats: the IEEE-754 bits, little-endian
// ---------------------------------------------------------------------------

/// A JSON number under an `f32` or `f64` schema is written as the 4 or 8
/// little-endian bytes of its IEEE-754 bits.
pub proof fn lemma_float_encoding(ty: DataModel, n: JsonNumber, path: Seq<char>, depth: nat)
    requires
        depth < MAX_DEPTH,
        ty is F32 || ty is F64,
    ensures
        ty is F32 ==> (enc(ty, JsonValue::Number(n), path, depth) matches Ok(b)
            && is_little_endian(b, n.f32_bits as nat, 4)),
        ty is F64 ==> (enc(ty, JsonValue::Number(n), path, depth) matches Ok(b)
            && is_little_endian(b, n.f64_bits as nat, 8)),
{
    lemma_place_values();
    lemma_le_bytes_layout(n.f32_bits as nat, 4);
    lemma_le_bytes_layout(n.f64_bits as nat, 8);
}

/// Under an `f32` schema the 4 bytes at the read position are the
/// little-endian IEEE-754 bits of the value read, whatever comes before or
/// after them.
pub proof fn lemma_f32_decoding(
    x: u32,
    b: Seq<u8>,
    before: Seq<u8>,
    after: Seq<u8>,
    path: Seq<char>,
    depth: nat,
)
    requires
        depth < MAX_DEPTH,
        is_little_endian(b, x as nat, 4),
    ensures
        dec(DataModel::F32, before + b + after, before.len(), path, depth) == Ok::<
            (JsonView, nat),
            ConvertErr,
        >((JsonView::F32Bits(x), before.len() + 4)),
{
    lemma_place_values();
    lemma_le_unique(b, x as nat, 4);
    lemma_le_roundtrip(x as nat, 4, before, after);
}

/// Under an `f64` schema the 8 bytes at the read position are the
/// little-endian IEEE-754 bits of the value read, whatever comes before or
/// after them.
pub proof fn lemma_f64_decoding(
    x: u64,
    b: Seq<u8>,
    before: Seq<u8>,
    after: Seq<u8>,
    path: Seq<char>,
    depth: nat,
)
    requires
        depth < MAX_DEPTH,
        is_little_endian(b, x as nat, 8),
    ensures
        dec(DataModel::F64, before + b + after, before.len(), path, depth) == Ok::<
            (JsonView, nat),
            ConvertErr,
        >((JsonView::F64Bits(x), before.len() + 8)),
{
    lemma_place_values();
    lemma_le_unique(b, x as nat, 8);
    lemma_le_roundtrip(x as nat, 8, before, after);
}

/// A float needs all of its bytes: with fewer than 4 (`f32`) or 8 (`f64`)
/// bytes left at the read position, reading fails.
pub proof fn lemma_float_short(ty: DataModel, bytes: Seq<u8>, pos: nat, path: Seq<char>, depth: nat)
    requires
        depth < MAX_DEPTH,
        (ty is F32 && pos + 4 > bytes.len()) || (ty is F64 && pos + 8 > bytes.len()),
    ensures
        dec(ty, bytes, pos, path, depth) is Err,
{
}

// ---------------------------------------------------------------------------
// Integers: LEB128 varints, zigzag for signed types
// ---------------------------------------------------------------------------

/// An unsigned integer under a `u16`, `u32`, `u64` or `usize` schema is
/// written as its LEB128 varint; one above the type's range is refused.
pub proof fn lemma_unsigned_encoding(ty: DataModel, n: JsonNumber, path: Seq<char>, depth: nat)
    requires
        depth < MAX_DEPTH,
        ty is U16 || ty is U32 || ty is U64 || ty is Usize,
        n.as_u64 is Some,
    ensures
        n.as_u64->0 <= unsigned_limit(ty) ==> (enc(ty, JsonValue::Number(n), path, depth) matches Ok(
            b,
        ) && is_leb128(b, n.as_u64->0 as nat)),
        !(ty is Usize) && n.as_u64->0 > unsigned_limit(ty) ==> enc(
            ty,
            JsonValue::Number(n),
            path,
            depth,
        ) is Err,
{
    lemma_varint_layout(n.as_u64->0 as nat);
}

/// Under a `u16`, `u32`, `u64` or `usize` schema, the LEB128 varint of a
/// value in the type's range reads as that value, whatever comes before or
/// after it.
pub proof fn lemma_unsigned_decoding(
    ty: DataModel,
    x: nat,
    b: Seq<u8>,
    before: Seq<u8>,
    after: Seq<u8>,
    path: Seq<char>,
    depth: nat,
)
    requires
        depth < MAX_DEPTH,
        ty is U16 || ty is U32 || ty is U64 || ty is Usize,
        x <= unsigned_limit(ty),
        is_leb128(b, x),
    ensures
        dec(ty, before + b + after, before.len(), path, depth) == Ok::<
            (JsonView, nat),
            ConvertErr,
        >((JsonView::Unsigned(x as u64), before.len() + b.len())),
{
    lemma_leb128_unique(b, x);
    lemma_varint_bounds();
    match ty {
        DataModel::U16 => lemma_varint_roundtrip(x, 3, 3, before, after),
        DataModel::U32 => lemma_varint_roundtrip(x, 5, 15, before, after),
        _ => lemma_varint_roundtrip(x, 10, 1, before, after),
    }
}

/// A signed integer under an `i16`, `i32`, `i64` or `isize` schema is
/// written as the LEB128 varint of its zigzag code; one outside the type's
/// range is refused.
pub proof fn lemma_signed_encoding(ty: DataModel, n: JsonNumber, path: Seq<char>, depth: nat)
    requires
        depth < MAX_DEPTH,
        ty is I16 || ty is I32 || ty is I64 || ty is Isize,
        n.as_i64 is Some,
    ensures
        signed_in_range(ty, n.as_i64->0 as int) ==> (enc(ty, JsonValue::Number(n), path, depth) matches Ok(
            b,
        ) && is_leb128(b, zigzag_code(n.as_i64->0 as int))),
        !(ty is Isize) && !signed_in_range(ty, n.as_i64->0 as int) ==> enc(
            ty,
            JsonValue::Number(n),
            path,
            depth,
        ) is Err,
{
    let k = n.as_i64->0;
    if ty is Isize && signed_in_range(ty, k as int) {
        assert((k as isize) as int == k);
    }
    lemma_varint_layout(zigzag_code(k as int));
}

/// Under an `i16`, `i32`, `i64` or `isize` schema, the LEB128 varint of the
/// zigzag code of a value in the type's range reads as that value, whatever
/// comes before or after it.
pub proof fn lemma_signed_decoding(
    ty: DataModel,
    k: int,
    b: Seq<u8>,
    before: Seq<u8>,
    after: Seq<u8>,
    path: Seq<char>,
    depth: nat,
)
    requires
        depth < MAX_DEPTH,
        ty is I16 || ty is I32 || ty is I64 || ty is Isize,
        signed_in_range(ty, k),
        is_leb128(b, zigzag_code(k)),
    ensures
        dec(ty, before + b + after, before.len(), path, depth) == Ok::<
            (JsonView, nat),
            ConvertErr,
        >((JsonView::Signed(k as i64), before.len() + b.len())),
{
    let z = zigzag_code(k);
    lemma_leb128_unique(b, z);
    lemma_varint_bounds();
    assert(crate::json_decode::unzigzag(z) == k);
    match ty {
        DataModel::I16 => lemma_varint_roundtrip(z, 3, 3, before, after),
        DataModel::I32 => lemma_varint_roundtrip(z, 5, 15, before, after),
        _ => lemma_varint_roundtrip(z, 10, 1, before, after),
    }
}

// ---------------------------------------------------------------------------
// Single bytes: bool, u8, i8
// ---------------------------------------------------------------------------

/// A `bool` is the byte 1 or 0, a `u8` in range is its own byte, and an
/// `i8` in range is its two's complement byte (the value, plus 256 when
/// negative); a `u8` or `i8` out of range is refused.
pub proof fn lemma_byte_encoding(flag: bool, n: JsonNumber, path: Seq<char>, depth: nat)
    requires
        depth < MAX_DEPTH,
    ensures
        enc(DataModel::Bool, JsonValue::Bool(flag), path, depth) == Ok::<Seq<u8>, ConvertErr>(
            seq![if flag { 1u8 } else { 0u8 }],
        ),
        n.as_u64 is Some && n.as_u64->0 <= 255 ==> (enc(DataModel::U8, JsonValue::Number(n), path, depth) matches Ok(b)
            && b.len() == 1 && b[0] as nat == n.as_u64->0 as nat),
        n.as_u64 is Some && n.as_u64->0 > 255 ==> enc(DataModel::U8, JsonValue::Number(n), path, depth) is Err,
        n.as_i64 is Some && -128 <= n.as_i64->0 <= 127 ==> (enc(DataModel::I8, JsonValue::Number(n), path, depth) matches Ok(b)
            && b.len() == 1 && b[0] as int == (if n.as_i64->0 >= 0 { n.as_i64->0 as int } else { n.as_i64->0 + 256 })),
        n.as_i64 is Some && !(-128 <= n.as_i64->0 <= 127) ==> enc(DataModel::I8, JsonValue::Number(n), path, depth) is Err,
{
    if let Some(k) = n.as_i64 {
        if 0 <= k <= 127 {
            assert(0 <= k <= 127 ==> ((k as i8) as u8) as i64 == k) by (bit_vector);
        } else if -128 <= k < 0 {
            assert(-128 <= k < 0 ==> ((k as i8) as u8) as i64 == k + 256) by (bit_vector);
        }
    }
}

/// Under a `u8` schema a byte reads as itself, under `i8` as its two's
/// complement value, and under `bool` the bytes 0 and 1 read as false and
/// true while any other byte is refused.
pub proof fn lemma_byte_decoding(c: u8, before: Seq<u8>, after: Seq<u8>, path: Seq<char>, depth: nat)
    requires
        depth < MAX_DEPTH,
    ensures
        dec(DataModel::U8, before + seq![c] + after, before.len(), path, depth) == Ok::<
            (JsonView, nat),
            ConvertErr,
        >((JsonView::Unsigned(c as u64), before.len() + 1)),
        dec(DataModel::I8, before + seq![c] + after, before.len(), path, depth) == Ok::<
            (JsonView, nat),
            ConvertErr,
        >((JsonView::Signed((if c < 128 { c as int } else { c - 256 }) as i64), before.len() + 1)),
        c == 0 ==> dec(DataModel::Bool, before + seq![c] + after, before.len(), path, depth) == Ok::<
            (JsonView, nat),
            ConvertErr,
        >((JsonView::Bool(false), before.len() + 1)),
        c == 1 ==> dec(DataModel::Bool, before + seq![c] + after, before.len(), path, depth) == Ok::<
            (JsonView, nat),
            ConvertErr,
        >((JsonView::Bool(true), before.len() + 1)),
        c > 1 ==> dec(DataModel::Bool, before + seq![c] + after, before.len(), path, depth) is Err,
{
    let bytes = before + seq![c] + after;
    assert(bytes[before.len() as int] == c);
}

// ---------------------------------------------------------------------------
// 128-bit integers: decimal text in JSON, varints on the wire
// ---------------------------------------------------------------------------

/// A `u128` given as decimal text is written as the LEB128 varint of its
/// value, and an `i128` as the LEB128 varint of its zigzag code.
pub proof fn lemma_wide_encoding(s: String, path: Seq<char>, depth: nat)
    requires
        depth < MAX_DEPTH,
    ensures
        parsed_u128(s@) matches Some(x) ==> (enc(DataModel::U128, JsonValue::String(s), path, depth) matches Ok(b)
            && is_leb128(b, x as nat)),
        parsed_i128(s@) matches Some(k) ==> (enc(DataModel::I128, JsonValue::String(s), path, depth) matches Ok(b)
            && is_leb128(b, zigzag_code(k as int))),
{
    if let Some(x) = parsed_u128(s@) {
        lemma_varint_layout(x as nat);
    }
    if let Some(k) = parsed_i128(s@) {
        lemma_varint_layout(zigzag_code(k as int));
    }
}

/// Under a `u128` schema the LEB128 varint of `x` reads as the decimal text
/// of `x`, whatever comes before or after it.
pub proof fn lemma_u128_decoding(
    x: u128,
    b: Seq<u8>,
    before: Seq<u8>,
    after: Seq<u8>,
    path: Seq<char>,
    depth: nat,
)
    requires
        depth < MAX_DEPTH,
        is_leb128(b, x as nat),
    ensures
        dec(DataModel::U128, before + b + after, before.len(), path, depth) == Ok::<
            (JsonView, nat),
            ConvertErr,
        >((JsonView::Str(decimal_text(x as nat)), before.len() + b.len())),
{
    lemma_leb128_unique(b, x as nat);
    lemma_varint_bounds();
    lemma_varint_roundtrip(x as nat, 19, 3, before, after);
}

/// Under an `i128` schema the LEB128 varint of the zigzag code of `k` reads
/// as the decimal text of `k`, whatever comes before or after it.
pub proof fn lemma_i128_decoding(
    k: i128,
    b: Seq<u8>,
    before: Seq<u8>,
    after: Seq<u8>,
    path: Seq<char>,
    depth: nat,
)
    requires
        depth < MAX_DEPTH,
        is_leb128(b, zigzag_code(k as int)),
    ensures
        dec(DataModel::I128, before + b + after, before.len(), path, depth) == Ok::<
            (JsonView, nat),
            ConvertErr,
        >((JsonView::Str(signed_text(k as int)), before.len() + b.len())),
{
    let z = zigzag_code(k as int);
    lemma_leb128_unique(b, z);
    lemma_varint_bounds();
    assert(crate::json_decode::unzigzag(z) == k);
    lemma_varint_roundtrip(z, 19, 3, before, after);
}

// ---------------------------------------------------------------------------
// Text: a varint length, then UTF-8
// ---------------------------------------------------------------------------

/// A string is written as the LEB128 varint of its UTF-8 length followed by
/// its UTF-8 bytes; so is a `char`, given as a one-character string, while
/// any other string under a `char` schema is refused.
pub proof fn lemma_text_encoding(s: String, path: Seq<char>, depth: nat)
    requires
        depth < MAX_DEPTH,
    ensures
        ({
            let u = encode_utf8(s@);
            &&& enc(DataModel::String, JsonValue::String(s), path, depth) matches Ok(b)
            &&& b.len() > u.len()
            &&& is_leb128(b.subrange(0, b.len() - u.len()), u.len())
            &&& b.subrange(b.len() - u.len(), b.len() as int) == u
        }),
        s@.len() == 1 ==> ({
            let u = encode_utf8(s@);
            &&& enc(DataModel::Char, JsonValue::String(s), path, depth) matches Ok(b)
            &&& b.len() > u.len()
            &&& is_leb128(b.subrange(0, b.len() - u.len()), u.len())
            &&& b.subrange(b.len() - u.len(), b.len() as int) == u
        }),
        s@.len() != 1 ==> enc(DataModel::Char, JsonValue::String(s), path, depth) is Err,
{
    let u = encode_utf8(s@);
    let h = varint(u.len());
    lemma_varint_layout(u.len());
    let b = h + u;
    assert(b.subrange(0, b.len() - u.len()) =~= h);
    assert(b.subrange(b.len() - u.len(), b.len() as int) =~= u);
}

#[verifier::spinoff_prover]
#[verifier::rlimit(40)]
/// Under a `string` schema, the LEB128 varint of a text's UTF-8 length
/// followed by its UTF-8 bytes reads as the text, and under a `char`
/// schema so does a one-character text, whatever comes before or after.
pub proof fn lemma_text_decoding(
    s: Seq<char>,
    h: Seq<u8>,
    before: Seq<u8>,
    after: Seq<u8>,
    path: Seq<char>,
    depth: nat,
)
    requires
        depth < MAX_DEPTH,
        encode_utf8(s).len() < 0x1_0000_0000_0000_0000,
        is_leb128(h, encode_utf8(s).len()),
    ensures
        dec(DataModel::String, before + h + encode_utf8(s) + after, before.len(), path, depth)
            == Ok::<(JsonView, nat), ConvertErr>(
            (JsonView::Str(s), before.len() + h.len() + encode_utf8(s).len()),
        ),
        s.len() == 1 ==> dec(DataModel::Char, before + h + encode_utf8(s) + after, before.len(), path, depth)
            == Ok::<(JsonView, nat), ConvertErr>(
            (JsonView::Str(s), before.len() + h.len() + encode_utf8(s).len()),
        ),
{
    let u = encode_utf8(s);
    lemma_leb128_unique(h, u.len());
    let bytes = before + h + u + after;
    assert(bytes =~= before + crate::postcard_wire::str_encoding(s) + after);
    lemma_string_roundtrip(s, before, after);
    if s.len() == 1 {
        assert(s.drop_first().len() == 0);
        assert(encode_utf8(s.drop_first()) =~= Seq::<u8>::empty());
        lemma_varint_bounds();
        assert(bytes =~= before + varint(u.len()) + (u + after));
        lemma_varint_roundtrip(u.len(), 10, 1, before, u + after);
        let p = before.len() + h.len();
        assert(bytes.subrange(p as int, (p + u.len()) as int) =~= u);
        vstd::utf8::encode_utf8_valid_utf8(s);
        vstd::utf8::encode_utf8_decode_utf8(s);
        assert(seq![s[0]] =~= s);
    }
}

// ---------------------------------------------------------------------------
// Byte arrays: a varint count, then the bytes
// ---------------------------------------------------------------------------

/// Whether every item is a JSON number that is a byte.
pub open spec fn all_bytes(items: Seq<JsonValue>) -> bool {
    forall|i: int| 0 <= i < items.len() ==> (#[trigger] items[i] matches JsonValue::Number(n) && n.as_u64 matches Some(x) && x <= 255)
}

/// The byte value of item `i`, where it is one.
pub open spec fn item_byte(items: Seq<JsonValue>, i: int) -> nat {
    match items[i] {
        JsonValue::Number(n) => match n.as_u64 {
            Some(x) => x as nat,
            None => 0,
        },
        _ => 0,
    }
}

proof fn lemma_enc_bytes_layout(items: Seq<JsonValue>, path: Seq<char>, i: nat)
    requires
        all_bytes(items),
        i <= items.len(),
    ensures
        crate::json_encode::enc_bytes(items, path, i) matches Ok(b) && b.len() == items.len() - i
            && forall|j: int| 0 <= j < b.len() ==> #[trigger] b[j] as nat == item_byte(items, i + j),
    decreases items.len() - i,
{
    if i < items.len() {
        lemma_enc_bytes_layout(items, path, i + 1);
        let r = crate::json_encode::enc_bytes(items, path, i + 1)->Ok_0;
        assert(items[i as int] matches JsonValue::Number(n) && n.as_u64 matches Some(x) && x <= 255);
        let b = crate::json_encode::enc_bytes(items, path, i)->Ok_0;
        assert forall|j: int| 0 <= j < b.len() implies #[trigger] b[j] as nat == item_byte(items, i + j) by {
            if j > 0 {
                assert(b[j] == r[j - 1]);
                assert(i + 1 + (j - 1) == i + j);
            }
        }
    } else {
        assert(crate::json_encode::enc_bytes(items, path, i) == Ok::<Seq<u8>, ConvertErr>(Seq::empty()));
    }
}

/// An array of byte values under a byte-array schema is written as the
/// LEB128 varint of its length followed by the bytes in order.
pub proof fn lemma_byte_array_encoding(items: Vec<JsonValue>, path: Seq<char>, depth: nat)
    requires
        depth < MAX_DEPTH,
        all_bytes(items@),
    ensures
        ({
            let n = items@.len();
            &&& enc(DataModel::ByteArray, JsonValue::Array(items), path, depth) matches Ok(b)
            &&& b.len() > n
            &&& is_leb128(b.subrange(0, b.len() - n), n)
            &&& forall|i: int| 0 <= i < n ==> #[trigger] b[b.len() - n + i] as nat == item_byte(items@, i)
        }),
{
    let n = items@.len();
    assert(items.len() == n);
    lemma_enc_bytes_layout(items@, path, 0);
    lemma_varint_layout(n);
    let h = varint(n);
    let body = crate::json_encode::enc_bytes(items@, path, 0)->Ok_0;
    let b = h + body;
    assert(b.subrange(0, b.len() - n) =~= h);
    assert forall|i: int| 0 <= i < n implies #[trigger] b[b.len() - n + i] as nat == item_byte(items@, i) by {
        assert(b[b.len() - n + i] == body[i]);
    }
}

/// Under a byte-array schema, the LEB128 varint of a count followed by that
/// many bytes reads as the array of those bytes, whatever comes before or
/// after.
pub proof fn lemma_byte_array_decoding(
    data: Seq<u8>,
    h: Seq<u8>,
    before: Seq<u8>,
    after: Seq<u8>,
    path: Seq<char>,
    depth: nat,
)
    requires
        depth < MAX_DEPTH,
        data.len() < 0x1_0000_0000_0000_0000,
        is_leb128(h, data.len()),
    ensures
        dec(DataModel::ByteArray, before + h + data + after, before.len(), path, depth) == Ok::<
            (JsonView, nat),
            ConvertErr,
        >(
            (
                JsonView::Array(Seq::new(data.len(), |i: int| JsonView::Unsigned(data[i] as u64))),
                before.len() + h.len() + data.len(),
            ),
        ),
{
    let n = data.len();
    lemma_leb128_unique(h, n);
    lemma_varint_bounds();
    let bytes = before + h + data + after;
    assert(bytes =~= before + varint(n) + (data + after));
    lemma_varint_roundtrip(n, 10, 1, before, data + after);
    let p = before.len() + h.len();
    assert(bytes.subrange(p as int, (p + n) as int) =~= data);
    assert(crate::json_decode::byte_items(data) =~= Seq::new(
        n,
        |i: int| JsonView::Unsigned(data[i] as u64),
    ));
}

// ---------------------------------------------------------------------------
// Varints beyond the type
// ---------------------------------------------------------------------------

/// The largest value a varint of the type carries on the wire.
pub open spec fn varint_limit(ty: DataModel) -> nat {
    match ty {
        DataModel::U16 | DataModel::I16 => 0xFFFF,
        DataModel::U32 | DataModel::I32 => 0xFFFF_FFFF,
        DataModel::U64 | DataModel::I64 | DataModel::Usize | DataModel::Isize => 0xFFFF_FFFF_FFFF_FFFF,
        DataModel::U128 | DataModel::I128 => 0xFFFF_FFFF_FFFF_FFFF_FFFF_FFFF_FFFF_FFFF,
        _ => 0,
    }
}

/// Reading a varint whose bytes from `i` to `k` carry the continuation bit
/// fails when it then runs past `max` bytes, or ends on byte `max - 1`
/// above `last_max`.
proof fn lemma_varint_walk(
    bytes: Seq<u8>,
    pos: nat,
    i: nat,
    acc: nat,
    max: nat,
    last_max: nat,
    k: nat,
)
    requires
        i <= k <= max,
        pos + k <= bytes.len(),
        forall|j: nat| i <= j < k ==> #[trigger] bytes[(pos + j) as int] >= 128,
        k == max || (k + 1 == max && pos + k < bytes.len() && bytes[(pos + k) as int] < 128
            && bytes[(pos + k) as int] > last_max),
    ensures
        crate::json_decode::varint_from(bytes, pos, i, acc, max, last_max) is Err,
    decreases k - i,
{
    if i < k {
        assert(bytes[(pos + i) as int] >= 128);
        let b = bytes[(pos + i) as int] as nat;
        lemma_varint_walk(
            bytes,
            pos,
            i + 1,
            (acc + (b - 128) * crate::json_decode::pow128(i)) as nat,
            max,
            last_max,
            k,
        );
    }
}

/// Under a varint schema, the LEB128 varint of a value the type cannot
/// carry is refused, whatever comes before or after it.
pub proof fn lemma_varint_out_of_range(
    ty: DataModel,
    x: nat,
    b: Seq<u8>,
    before: Seq<u8>,
    after: Seq<u8>,
    path: Seq<char>,
    depth: nat,
)
    requires
        depth < MAX_DEPTH,
        ty is U16 || ty is U32 || ty is U64 || ty is Usize || ty is U128 || ty is I16 || ty is I32
            || ty is I64 || ty is Isize || ty is I128,
        is_leb128(b, x),
        x > varint_limit(ty),
    ensures
        dec(ty, before + b + after, before.len(), path, depth) is Err,
{
    let (max, last_max): (nat, nat) = match ty {
        DataModel::U16 | DataModel::I16 => (3, 3),
        DataModel::U32 | DataModel::I32 => (5, 15),
        DataModel::U128 | DataModel::I128 => (19, 3),
        _ => (10, 1),
    };
    lemma_varint_wire_limit(max, last_max);
    assert(x >= place(128, (max - 1) as nat) * (last_max + 1));
    let bytes = before + b + after;
    let pos = before.len();
    lemma_place_positive(128, (max - 1) as nat);
    // The varint has at least `max` bytes.
    if b.len() < max {
        lemma_place_mono(b.len(), (max - 1) as nat);
        assert(place(128, (max - 1) as nat) * (last_max + 1) >= place(128, (max - 1) as nat)) by (nonlinear_arith)
            requires
                place(128, (max - 1) as nat) > 0,
        ;
        assert(false);
    }
    assert forall|j: nat| 0 <= j < (max - 1) as nat implies #[trigger] bytes[(pos + j) as int] >= 128 by {
        assert(bytes[(pos + j) as int] == b[j as int]);
    }
    if b.len() == max {
        let d = (max - 1) as nat;
        assert(bytes[(pos + d) as int] == b[d as int]);
        assert(b[d as int] < 128);
        assert(x < 128 * place(128, d));
        assert(x / place(128, d) < 128) by {
            lemma_shift_bound_right(x, place(128, d), 128);
        }
        assert(x / place(128, d) >= last_max + 1) by {
            lemma_div_at_least(x, place(128, d), last_max + 1);
        }
        assert((x / place(128, d)) % 128 == x / place(128, d));
        lemma_varint_walk(bytes, pos, 0, 0, max, last_max, d);
    } else {
        assert forall|j: nat| 0 <= j < max implies #[trigger] bytes[(pos + j) as int] >= 128 by {
            assert(bytes[(pos + j) as int] == b[j as int]);
        }
        lemma_varint_walk(bytes, pos, 0, 0, max, last_max, max);
    }
}

/// The wire limits of the varint widths, as the place of their last byte.
proof fn lemma_varint_wire_limit(max: nat, last_max: nat)
    requires
        (max == 3 && last_max == 3) || (max == 5 && last_max == 15) || (max == 10 && last_max == 1)
            || (max == 19 && last_max == 3),
    ensures
        max >= 1,
        max == 3 ==> place(128, 2) * 4 == 0x1_0000,
        max == 5 ==> place(128, 4) * 16 == 0x1_0000_0000,
        max == 10 ==> place(128, 9) * 2 == 0x1_0000_0000_0000_0000,
        max == 19 ==> place(128, 18) * 4 == 0x1_0000_0000_0000_0000_0000_0000_0000_0000,
{
    reveal_with_fuel(place, 19);
}

/// A larger count of digits has a larger place.
proof fn lemma_place_mono(a: nat, b: nat)
    requires
        a <= b,
    ensures
        place(128, a) <= place(128, b),
    decreases b - a,
{
    if a < b {
        lemma_place_mono(a, (b - 1) as nat);
        lemma_place_positive(128, (b - 1) as nat);
    }
}

proof fn lemma_shift_bound_right(x: nat, p: nat, r: nat)
    requires
        p > 0,
        x < r * p,
    ensures
        x / p < r,
{
    vstd::arithmetic::mul::lemma_mul_is_commutative(r as int, p as int);
    lemma_multiply_divide_lt(x as int, p as int, r as int);
}

proof fn lemma_div_at_least(x: nat, p: nat, r: nat)
    requires
        p > 0,
        x >= p * r,
    ensures
        x / p >= r,
{
    vstd::arithmetic::div_mod::lemma_div_multiples_vanish(r as int, p as int);
    vstd::arithmetic::div_mod::lemma_div_is_ordered((p * r) as int, x as int, p as int);
}

} // verus!
