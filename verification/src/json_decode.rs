//! Decoding postcard bytes as a JSON value, directed by the schema of the
//! value's type: the reverse direction of [`crate::json_encode`].
//!
//! Integers come out as JSON numbers (128-bit ones as decimal strings),
//! `char` as a one-character string, sequences and tuples as arrays, structs
//! as objects, maps with string keys as objects and other maps as arrays of
//! `[key, value]` pairs, and enums as the variant's name (unit variants) or
//! an object with the variant's name as its only key. Primitive values are
//! read as postcard reads them, and a failed read reports postcard's error
//! text with the position of the value as a path from the root `$`.

use vstd::prelude::*;
use vstd::string::*;
use vstd::utf8::{decode_utf8, valid_utf8};
use vstd::arithmetic::power2::{lemma2_to64, lemma2_to64_rest, lemma_pow2_adds, pow2};
use crate::data_model::{
    array_of, array_view, json_view, object_of, object_view, push_item, push_member, DataModel,
    JsonOut, JsonView, NamedType, NamedValue, NamedVariant, VariantModel,
};
use crate::json_encode::{
    budget, index_path, key_path, make_index_path, make_key_path, make_member_path,
    make_position_path, member_path, position_path, signed_text, val_path, ConvertErr,
    ConvertError, MAX_DEPTH,
};
use crate::text::{decimal_text, push_decimal, push_decimal_u128};
use crate::postcard_wire::{le_bytes, str_encoding, varint};
use vstd::utf8::{encode_utf8, encode_utf8_decode_utf8, encode_utf8_valid_utf8};

verus! {

/// Why a primitive value could not be read.
#[derive(Debug, Clone, Copy, PartialEq, Eq, Structural)]
pub enum DecodeFault {
    UnexpectedEnd,
    BadVarint,
    BadBool,
    BadChar,
    BadUtf8,
}

/// The text postcard gives for the error that stands for a fault.
pub open spec fn fault_text(f: DecodeFault) -> Seq<char> {
    match f {
        DecodeFault::UnexpectedEnd => "Hit the end of buffer, expected more data"@,
        DecodeFault::BadVarint => "Found a varint that didn't terminate. Is the usize too big for this platform?"@,
        DecodeFault::BadBool => "Found a bool that wasn't 0 or 1"@,
        DecodeFault::BadChar => "Found an invalid unicode char"@,
        DecodeFault::BadUtf8 => "Tried to parse invalid utf-8"@,
    }
}

/// The display text of the `postcard::Error` that `fault` stands for
/// (`DeserializeUnexpectedEnd`, `DeserializeBadVarint`, `DeserializeBadBool`,
/// `DeserializeBadChar`, `DeserializeBadUtf8`); the contract states the texts
/// that postcard's `Display` impl writes for them.
#[verifier::external_body]
fn fault_message(fault: DecodeFault) -> (s: String)
    ensures
        s@ == fault_text(fault),
{
    let e = match fault {
        DecodeFault::UnexpectedEnd => postcard::Error::DeserializeUnexpectedEnd,
        DecodeFault::BadVarint => postcard::Error::DeserializeBadVarint,
        DecodeFault::BadBool => postcard::Error::DeserializeBadBool,
        DecodeFault::BadChar => postcard::Error::DeserializeBadChar,
        DecodeFault::BadUtf8 => postcard::Error::DeserializeBadUtf8,
    };
    e.to_string()
}

/// `std::str::from_utf8`: the text that the bytes encode, where they are
/// valid UTF-8.
#[verifier::external_body]
fn utf8_text(bytes: &[u8]) -> (r: Option<String>)
    ensures
        r is Some <==> valid_utf8(bytes@),
        r matches Some(s) ==> s@ == decode_utf8(bytes@),
{
    match std::str::from_utf8(bytes) {
        Ok(s) => Some(s.to_owned()),
        Err(_) => None,
    }
}

// ---------------------------------------------------------------------------
// Reading primitive values
// ---------------------------------------------------------------------------

/// 128 to the power `i`.
pub open spec fn pow128(i: nat) -> nat
    decreases i,
{
    if i == 0 {
        1
    } else {
        128 * pow128((i - 1) as nat)
    }
}

/// The byte at `pos` and the position after it.
pub open spec fn take_byte(bytes: Seq<u8>, pos: nat) -> Result<(nat, nat), DecodeFault> {
    if pos < bytes.len() {
        Ok((bytes[pos as int] as nat, pos + 1))
    } else {
        Err(DecodeFault::UnexpectedEnd)
    }
}

/// Reading byte `i` onward of a varint that starts at `pos`, where `acc` is
/// the value of the bytes before it: seven bits per byte, least significant
/// first, ended by the first byte below 128. A varint is at most `max` bytes
/// long, and its `max`-th byte is at most `last_max`.
pub open spec fn varint_from(
    bytes: Seq<u8>,
    pos: nat,
    i: nat,
    acc: nat,
    max: nat,
    last_max: nat,
) -> Result<(nat, nat), DecodeFault>
    decreases max - i,
{
    if i >= max {
        Err(DecodeFault::BadVarint)
    } else if pos + i >= bytes.len() {
        Err(DecodeFault::UnexpectedEnd)
    } else {
        let b = bytes[(pos + i) as int] as nat;
        if b < 128 {
            if i + 1 == max && b > last_max {
                Err(DecodeFault::BadVarint)
            } else {
                Ok((acc + b * pow128(i), pos + i + 1))
            }
        } else {
            varint_from(bytes, pos, i + 1, (acc + (b - 128) * pow128(i)) as nat, max, last_max)
        }
    }
}

/// The varint at `pos`, of a type whose varints are at most `max` bytes long
/// with a last byte of at most `last_max`, and the position after it.
pub open spec fn take_varint(bytes: Seq<u8>, pos: nat, max: nat, last_max: nat) -> Result<
    (nat, nat),
    DecodeFault,
> {
    varint_from(bytes, pos, 0, 0, max, last_max)
}

/// The varint lengths of `u16`, `u32`, `u64` and `u128`, with the bound on
/// the last byte of each.
pub open spec fn varint_width(max: nat, last_max: nat) -> bool {
    ||| max == 3 && last_max == 3
    ||| max == 5 && last_max == 15
    ||| max == 10 && last_max == 1
    ||| max == 19 && last_max == 3
}

/// The values a varint of the given width can hold are below this bound.
pub open spec fn varint_bound(max: nat, last_max: nat) -> nat {
    pow128((max - 1) as nat) * (last_max + 1)
}

/// A read with its value as a mathematical integer.
pub open spec fn nat_read(r: Result<(u128, usize), DecodeFault>) -> Result<(nat, nat), DecodeFault> {
    match r {
        Ok((v, p)) => Ok((v as nat, p as nat)),
        Err(f) => Err(f),
    }
}

/// Powers of 128 grow with the exponent.
proof fn lemma_pow128_mono(a: nat, b: nat)
    requires
        a <= b,
    ensures
        pow128(a) <= pow128(b),
        pow128(a) >= 1,
    decreases b,
{
    if a < b {
        lemma_pow128_mono(a, (b - 1) as nat);
    } else if a > 0 {
        lemma_pow128_mono((a - 1) as nat, (a - 1) as nat);
    }
}

/// 128 to the power `k` is 2 to the power `7 * k`.
proof fn lemma_pow128_pow2(k: nat)
    ensures
        pow128(k) == pow2(7 * k),
    decreases k,
{
    if k == 0 {
        lemma2_to64();
    } else {
        lemma_pow128_pow2((k - 1) as nat);
        lemma_pow2_adds(7 * ((k - 1) as nat), 7);
        lemma2_to64();
        assert(7 * ((k - 1) as nat) + 7 == 7 * k);
    }
}

/// The bounds of the four varint widths.
pub(crate) proof fn lemma_varint_bounds()
    ensures
        varint_bound(3, 3) == 0x1_0000,
        varint_bound(5, 15) == 0x1_0000_0000,
        varint_bound(10, 1) == 0x1_0000_0000_0000_0000,
        varint_bound(19, 3) == 0x1_0000_0000_0000_0000_0000_0000_0000_0000,
        pow128(18) == 0x4000_0000_0000_0000_0000_0000_0000_0000,
{
    lemma_pow128_pow2(2);
    lemma_pow128_pow2(4);
    lemma_pow128_pow2(9);
    lemma_pow128_pow2(18);
    lemma_pow2_adds(14, 2);
    lemma_pow2_adds(28, 4);
    lemma_pow2_adds(63, 1);
    lemma_pow2_adds(126, 2);
    lemma2_to64();
    lemma2_to64_rest();
    assert(pow2(128) == 0x1_0000_0000_0000_0000_0000_0000_0000_0000) by {
        lemma_pow2_adds(64, 64);
    }
    assert(pow2(126) == 0x4000_0000_0000_0000_0000_0000_0000_0000) by {
        lemma_pow2_adds(64, 62);
    }
}

/// Read the varint at `pos`.
fn read_varint(bytes: &[u8], pos: usize, max: usize, last_max: u8) -> (r: Result<
    (u128, usize),
    DecodeFault,
>)
    requires
        pos <= bytes@.len(),
        varint_width(max as nat, last_max as nat),
    ensures
        nat_read(r) == take_varint(bytes@, pos as nat, max as nat, last_max as nat),
        r matches Ok((v, p)) ==> pos < p <= bytes@.len() && v < varint_bound(
            max as nat,
            last_max as nat,
        ),
{
    proof {
        lemma_varint_bounds();
        lemma_pow128_mono((max - 1) as nat, 18);
    }
    let mut i: usize = 0;
    let mut acc: u128 = 0;
    let mut scale: u128 = 1;
    loop
        invariant
            pos <= bytes@.len(),
            varint_width(max as nat, last_max as nat),
            i < max,
            scale == pow128(i as nat),
            acc < scale,
            pow128((max - 1) as nat) <= pow128(18),
            pow128(18) == 0x4000_0000_0000_0000_0000_0000_0000_0000,
            varint_bound(max as nat, last_max as nat) <= 0x1_0000_0000_0000_0000_0000_0000_0000_0000,
            take_varint(bytes@, pos as nat, max as nat, last_max as nat) == varint_from(
                bytes@,
                pos as nat,
                i as nat,
                acc as nat,
                max as nat,
                last_max as nat,
            ),
        decreases max - i,
    {
        proof {
            lemma_pow128_mono(i as nat, (max - 1) as nat);
        }
        if i >= bytes.len() - pos {
            return Err(DecodeFault::UnexpectedEnd);
        }
        let b = bytes[pos + i];
        if b < 128 {
            if i + 1 == max && b > last_max {
                return Err(DecodeFault::BadVarint);
            }
            proof {
                if i + 1 < max {
                    assert((b as int) * (scale as int) <= 127 * (scale as int)) by (nonlinear_arith)
                        requires
                            b < 128,
                    ;
                    assert(pow128((i + 1) as nat) == 128 * pow128(i as nat));
                    lemma_pow128_mono((i + 1) as nat, (max - 1) as nat);
                    assert(pow128((max - 1) as nat) * (last_max + 1) >= pow128((max - 1) as nat))
                        by (nonlinear_arith)
                        requires
                            last_max >= 0,
                    ;
                } else {
                    assert((b as int) * (scale as int) <= (last_max as int) * (scale as int))
                        by (nonlinear_arith)
                        requires
                            b <= last_max,
                            scale >= 0,
                    ;
                    assert((scale as int) * (last_max + 1) == (last_max as int) * (scale as int)
                        + scale) by (nonlinear_arith);
                }
            }
            let v = acc + (b as u128) * scale;
            return Ok((v, pos + i + 1));
        }
        if i + 1 == max {
            assert(varint_from(
                bytes@,
                pos as nat,
                (i + 1) as nat,
                (acc + (b - 128) * pow128(i as nat)) as nat,
                max as nat,
                last_max as nat,
            ) == Err::<(nat, nat), DecodeFault>(DecodeFault::BadVarint));
            return Err(DecodeFault::BadVarint);
        }
        proof {
            assert(((b - 128) as int) * (scale as int) <= 127 * (scale as int)) by (nonlinear_arith)
                requires
                    b - 128 < 128,
                    scale >= 0,
            ;
            lemma_pow128_mono((i + 1) as nat, (max - 1) as nat);
        }
        acc = acc + ((b - 128) as u128) * scale;
        scale = scale * 128;
        i = i + 1;
    }
}

/// The little-endian number in `s`.
pub open spec fn le_value(s: Seq<u8>) -> nat
    decreases s.len(),
{
    if s.len() == 0 {
        0
    } else {
        s[0] as nat + 256 * le_value(s.drop_first())
    }
}

/// The `n`-byte little-endian number at `pos` and the position after it.
pub open spec fn take_le(bytes: Seq<u8>, pos: nat, n: nat) -> Result<(nat, nat), DecodeFault> {
    if pos + n <= bytes.len() {
        Ok((le_value(bytes.subrange(pos as int, (pos + n) as int)), pos + n))
    } else {
        Err(DecodeFault::UnexpectedEnd)
    }
}

/// The bounds of the bytes after a length prefix at `pos`: where they start
/// and end.
pub open spec fn take_len_prefixed(bytes: Seq<u8>, pos: nat) -> Result<(nat, nat), DecodeFault> {
    match take_varint(bytes, pos, 10, 1) {
        Ok((n, p)) => if p + n <= bytes.len() {
            Ok((p, p + n))
        } else {
            Err(DecodeFault::UnexpectedEnd)
        },
        Err(f) => Err(f),
    }
}

/// The bool at `pos`: byte 0 or 1.
pub open spec fn take_bool(bytes: Seq<u8>, pos: nat) -> Result<(bool, nat), DecodeFault> {
    match take_byte(bytes, pos) {
        Ok((b, p)) => if b == 0 {
            Ok((false, p))
        } else if b == 1 {
            Ok((true, p))
        } else {
            Err(DecodeFault::BadBool)
        },
        Err(f) => Err(f),
    }
}

/// The string at `pos`: a length prefix, then that many bytes of UTF-8.
pub open spec fn take_string(bytes: Seq<u8>, pos: nat) -> Result<(Seq<char>, nat), DecodeFault> {
    match take_len_prefixed(bytes, pos) {
        Ok((a, b)) => {
            let s = bytes.subrange(a as int, b as int);
            if valid_utf8(s) {
                Ok((decode_utf8(s), b))
            } else {
                Err(DecodeFault::BadUtf8)
            }
        },
        Err(f) => Err(f),
    }
}

/// The char at `pos`: a length prefix of at most 4, then UTF-8 bytes whose
/// first character is the char.
pub open spec fn take_char(bytes: Seq<u8>, pos: nat) -> Result<(char, nat), DecodeFault> {
    match take_varint(bytes, pos, 10, 1) {
        Ok((n, p)) => if n > 4 {
            Err(DecodeFault::BadChar)
        } else if p + n > bytes.len() {
            Err(DecodeFault::UnexpectedEnd)
        } else {
            let s = bytes.subrange(p as int, (p + n) as int);
            if valid_utf8(s) && decode_utf8(s).len() > 0 {
                Ok((decode_utf8(s)[0], p + n))
            } else {
                Err(DecodeFault::BadChar)
            }
        },
        Err(f) => Err(f),
    }
}

/// The signed integer whose zigzag mapping is `n`.
pub open spec fn unzigzag(n: nat) -> int {
    if n % 2 == 0 {
        (n / 2) as int
    } else {
        -((n / 2) as int) - 1
    }
}

/// The `i8` whose two's complement byte is `b`.
pub open spec fn byte_i8(b: nat) -> int {
    if b < 128 {
        b as int
    } else {
        b - 256
    }
}

/// Lowercase hexadecimal digit of `d` (below 16).
pub open spec fn lower_hex_digit(d: nat) -> char {
    if d < 10 {
        ((d + '0' as nat) as u32) as char
    } else {
        ((d - 10 + 'a' as nat) as u32) as char
    }
}

/// `0x` and the lowercase hexadecimal digits of `b`, without leading zeros.
pub open spec fn tag_hex(b: nat) -> Seq<char> {
    if b < 16 {
        seq!['0', 'x', lower_hex_digit(b)]
    } else {
        seq!['0', 'x', lower_hex_digit(b / 16), lower_hex_digit(b % 16)]
    }
}

/// A read of a 64-bit value with its value as a mathematical integer.
pub open spec fn nat_read64(r: Result<(u64, usize), DecodeFault>) -> Result<(nat, nat), DecodeFault> {
    match r {
        Ok((v, p)) => Ok((v as nat, p as nat)),
        Err(f) => Err(f),
    }
}

/// Read the `n`-byte little-endian number at `pos`.
fn read_le(bytes: &[u8], pos: usize, n: usize) -> (r: Result<(u64, usize), DecodeFault>)
    requires
        pos <= bytes@.len(),
        n == 4 || n == 8,
    ensures
        nat_read64(r) == take_le(bytes@, pos as nat, n as nat),
        r matches Ok((v, p)) ==> pos <= p <= bytes@.len() && (n == 4 ==> v < 0x1_0000_0000),
{
    if n > bytes.len() - pos {
        return Err(DecodeFault::UnexpectedEnd);
    }
    let end = pos + n;
    let mut v: u64 = 0;
    let mut j: usize = n;
    proof {
        lemma2_to64();
        lemma2_to64_rest();
        assert(bytes@.subrange(end as int, end as int) =~= Seq::<u8>::empty());
    }
    while j > 0
        invariant
            pos + n == end,
            end <= bytes@.len(),
            n == 4 || n == 8,
            j <= n,
            v == le_value(bytes@.subrange((pos + j) as int, end as int)),
            v < pow2((8 * (n - j)) as nat),
            pow2(32) == 0x1_0000_0000,
            pow2(64) == 0x1_0000_0000_0000_0000,
        decreases j,
    {
        let ghost before = v;
        let b = bytes[pos + j - 1];
        proof {
            let s = bytes@.subrange((pos + j - 1) as int, end as int);
            assert(s.drop_first() =~= bytes@.subrange((pos + j) as int, end as int));
            lemma_pow2_adds((8 * (n - j)) as nat, 8);
            lemma2_to64();
            assert(8 * (n - j) + 8 == 8 * (n - (j - 1)));
            if 8 * (n - (j - 1)) < 64 {
                vstd::arithmetic::power2::lemma_pow2_strictly_increases(
                    (8 * (n - (j - 1))) as nat,
                    64,
                );
            }
            assert((v as int) * 256 + (b as int) < pow2((8 * (n - j)) as nat) * 256)
                by (nonlinear_arith)
                requires
                    v < pow2((8 * (n - j)) as nat),
                    b < 256,
            ;
        }
        v = v * 256 + b as u64;
        j = j - 1;
    }
    proof {
        assert(8 * (n - 0) == 8 * n);
    }
    Ok((v, end))
}

/// Read the bounds of the bytes after the length prefix at `pos`.
fn read_len_prefixed(bytes: &[u8], pos: usize) -> (r: Result<(usize, usize), DecodeFault>)
    requires
        pos <= bytes@.len(),
    ensures
        match r {
            Ok((a, b)) => take_len_prefixed(bytes@, pos as nat) == Ok::<(nat, nat), DecodeFault>(
                (a as nat, b as nat),
            ) && pos < a <= b <= bytes@.len(),
            Err(f) => take_len_prefixed(bytes@, pos as nat) == Err::<(nat, nat), DecodeFault>(f),
        },
{
    match read_varint(bytes, pos, 10, 1) {
        Ok((n, p)) => {
            if n > (bytes.len() - p) as u128 {
                Err(DecodeFault::UnexpectedEnd)
            } else {
                let end = p + n as usize;
                Ok((p, end))
            }
        },
        Err(f) => Err(f),
    }
}

/// Read the string at `pos`.
fn read_string(bytes: &[u8], pos: usize) -> (r: Result<(String, usize), DecodeFault>)
    requires
        pos <= bytes@.len(),
    ensures
        match r {
            Ok((s, p)) => take_string(bytes@, pos as nat) == Ok::<(Seq<char>, nat), DecodeFault>(
                (s@, p as nat),
            ) && pos < p <= bytes@.len(),
            Err(f) => take_string(bytes@, pos as nat) == Err::<(Seq<char>, nat), DecodeFault>(f),
        },
{
    match read_len_prefixed(bytes, pos) {
        Ok((a, b)) => {
            let slice = &bytes[a..b];
            match utf8_text(slice) {
                Some(s) => Ok((s, b)),
                None => Err(DecodeFault::BadUtf8),
            }
        },
        Err(f) => Err(f),
    }
}

/// Read the char at `pos`, as a one-character string.
fn read_char(bytes: &[u8], pos: usize) -> (r: Result<(String, usize), DecodeFault>)
    requires
        pos <= bytes@.len(),
    ensures
        match r {
            Ok((s, p)) => take_char(bytes@, pos as nat) matches Ok((c, q)) && s@ == seq![c] && q
                == p && pos <= p <= bytes@.len(),
            Err(f) => take_char(bytes@, pos as nat) == Err::<(char, nat), DecodeFault>(f),
        },
{
    match read_varint(bytes, pos, 10, 1) {
        Ok((n, p)) => {
            if n > 4 {
                return Err(DecodeFault::BadChar);
            }
            if n > (bytes.len() - p) as u128 {
                return Err(DecodeFault::UnexpectedEnd);
            }
            let end = p + n as usize;
            let slice = &bytes[p..end];
            match utf8_text(slice) {
                Some(t) => {
                    if t.unicode_len() == 0 {
                        return Err(DecodeFault::BadChar);
                    }
                    let first = t.as_str().substring_char(0, 1).to_owned();
                    assert(first@ =~= seq![t@[0]]);
                    Ok((first, end))
                },
                None => Err(DecodeFault::BadChar),
            }
        },
        Err(f) => Err(f),
    }
}

/// The signed 64-bit integer whose zigzag mapping is `n`.
fn unzigzag_u64(n: u64) -> (r: i64)
    ensures
        r as int == unzigzag(n as nat),
{
    let half = (n / 2) as i64;
    if n % 2 == 0 {
        half
    } else {
        -half - 1
    }
}

/// The signed 128-bit integer whose zigzag mapping is `n`.
fn unzigzag_u128(n: u128) -> (r: i128)
    ensures
        r as int == unzigzag(n as nat),
{
    let half = (n / 2) as i128;
    if n % 2 == 0 {
        half
    } else {
        -half - 1
    }
}

// ---------------------------------------------------------------------------
// The decoding, as a function of schema and bytes
// ---------------------------------------------------------------------------

/// A failed primitive read at `path`, as the decoder reports it.
pub open spec fn read_err(f: DecodeFault, path: Seq<char>) -> ConvertErr {
    ConvertErr::Postcard(fault_text(f) + " at "@ + path)
}

/// A primitive read at `path`, its value shown as JSON by `f`.
pub open spec fn json_read(
    r: Result<(nat, nat), DecodeFault>,
    path: Seq<char>,
    f: spec_fn(nat) -> JsonView,
) -> Result<(JsonView, nat), ConvertErr> {
    match r {
        Ok((v, p)) => Ok((f(v), p)),
        Err(e) => Err(read_err(e, path)),
    }
}

/// A sequence or map count that does not fit in `usize`.
pub open spec fn usize_err(what: Seq<char>, count: nat, path: Seq<char>) -> ConvertErr {
    ConvertErr::Postcard(what + " count "@ + decimal_text(count) + " exceeds usize at "@ + path)
}

/// A sequence or map count larger than the bytes that are left.
pub open spec fn count_err(what: Seq<char>, count: nat, left: nat, path: Seq<char>) -> ConvertErr {
    ConvertErr::Postcard(
        what + " count "@ + decimal_text(count) + " exceeds remaining bytes "@ + decimal_text(left)
            + " at "@ + path,
    )
}

/// An object with the single member `name: v`.
pub open spec fn single(name: Seq<char>, v: JsonView) -> JsonView {
    JsonView::Object(seq![(name, v)])
}

/// The bytes as JSON numbers.
pub open spec fn byte_items(s: Seq<u8>) -> Seq<JsonView> {
    Seq::new(s.len(), |i: int| JsonView::Unsigned(s[i] as u64))
}

/// The value of type `ty` at `pos` of `bytes`, read at `path`, `depth`
/// levels down, and the position after it.
pub open spec fn dec(ty: DataModel, bytes: Seq<u8>, pos: nat, path: Seq<char>, depth: nat) -> Result<
    (JsonView, nat),
    ConvertErr,
>
    decreases budget(depth), 0nat, 0nat,
{
    if depth >= MAX_DEPTH {
        Err(ConvertErr::DepthExceeded { path })
    } else {
        match ty {
            DataModel::Bool => match take_bool(bytes, pos) {
                Ok((b, p)) => Ok((JsonView::Bool(b), p)),
                Err(f) => Err(read_err(f, path)),
            },
            DataModel::U8 => json_read(take_byte(bytes, pos), path, |v: nat| JsonView::Unsigned(v as u64)),
            DataModel::U16 => json_read(
                take_varint(bytes, pos, 3, 3),
                path,
                |v: nat| JsonView::Unsigned(v as u64),
            ),
            DataModel::U32 => json_read(
                take_varint(bytes, pos, 5, 15),
                path,
                |v: nat| JsonView::Unsigned(v as u64),
            ),
            DataModel::U64 => json_read(
                take_varint(bytes, pos, 10, 1),
                path,
                |v: nat| JsonView::Unsigned(v as u64),
            ),
            DataModel::Usize => json_read(
                take_varint(bytes, pos, 10, 1),
                path,
                |v: nat| JsonView::Unsigned(v as u64),
            ),
            DataModel::U128 => json_read(
                take_varint(bytes, pos, 19, 3),
                path,
                |v: nat| JsonView::Str(decimal_text(v)),
            ),
            DataModel::I8 => json_read(take_byte(bytes, pos), path, |v: nat| JsonView::Signed(byte_i8(v) as i64)),
            DataModel::I16 => json_read(
                take_varint(bytes, pos, 3, 3),
                path,
                |v: nat| JsonView::Signed(unzigzag(v) as i64),
            ),
            DataModel::I32 => json_read(
                take_varint(bytes, pos, 5, 15),
                path,
                |v: nat| JsonView::Signed(unzigzag(v) as i64),
            ),
            DataModel::I64 => json_read(
                take_varint(bytes, pos, 10, 1),
                path,
                |v: nat| JsonView::Signed(unzigzag(v) as i64),
            ),
            DataModel::Isize => json_read(
                take_varint(bytes, pos, 10, 1),
                path,
                |v: nat| JsonView::Signed(unzigzag(v) as i64),
            ),
            DataModel::I128 => json_read(
                take_varint(bytes, pos, 19, 3),
                path,
                |v: nat| JsonView::Str(signed_text(unzigzag(v))),
            ),
            DataModel::F32 => json_read(take_le(bytes, pos, 4), path, |v: nat| JsonView::F32Bits(v as u32)),
            DataModel::F64 => json_read(take_le(bytes, pos, 8), path, |v: nat| JsonView::F64Bits(v as u64)),
            DataModel::Char => match take_char(bytes, pos) {
                Ok((c, p)) => Ok((JsonView::Str(seq![c]), p)),
                Err(f) => Err(read_err(f, path)),
            },
            DataModel::String => match take_string(bytes, pos) {
                Ok((s, p)) => Ok((JsonView::Str(s), p)),
                Err(f) => Err(read_err(f, path)),
            },
            DataModel::ByteArray => match take_len_prefixed(bytes, pos) {
                Ok((a, b)) => Ok((JsonView::Array(byte_items(bytes.subrange(a as int, b as int))), b)),
                Err(f) => Err(read_err(f, path)),
            },
            DataModel::Option(inner) => if pos >= bytes.len() {
                Err(ConvertErr::Postcard("unexpected EOF at "@ + path))
            } else if bytes[pos as int] == 0 {
                Ok((JsonView::Null, pos + 1))
            } else if bytes[pos as int] == 1 {
                dec(inner.ty, bytes, pos + 1, path, depth + 1)
            } else {
                Err(
                    ConvertErr::Postcard(
                        "invalid option tag "@ + tag_hex(bytes[pos as int] as nat) + " at "@ + path,
                    ),
                )
            },
            DataModel::Unit => Ok((JsonView::Null, pos)),
            DataModel::UnitStruct => Ok((JsonView::Null, pos)),
            DataModel::NewtypeStruct(inner) => dec(inner.ty, bytes, pos, path, depth + 1),
            DataModel::SeqOf(inner) => match take_varint(bytes, pos, 10, 1) {
                Err(f) => Err(read_err(f, path)),
                Ok((count, p)) => if count > usize::MAX {
                    Err(usize_err("seq"@, count, path))
                } else if p + count > bytes.len() {
                    Err(count_err("seq"@, count, (bytes.len() - p) as nat, path))
                } else {
                    match dec_list(inner.ty, bytes, p, path, depth + 1, 0, count) {
                        Ok((items, q)) => Ok((JsonView::Array(items), q)),
                        Err(e) => Err(e),
                    }
                },
            },
            DataModel::Tuple(elems) => match dec_elems(elems@, bytes, pos, path, depth + 1, 0) {
                Ok((items, q)) => Ok((JsonView::Array(items), q)),
                Err(e) => Err(e),
            },
            DataModel::TupleStruct(elems) => match dec_elems(elems@, bytes, pos, path, depth + 1, 0) {
                Ok((items, q)) => Ok((JsonView::Array(items), q)),
                Err(e) => Err(e),
            },
            DataModel::MapOf { key, val } => match take_varint(bytes, pos, 10, 1) {
                Err(f) => Err(read_err(f, path)),
                Ok((count, p)) => if count > usize::MAX {
                    Err(usize_err("map"@, count, path))
                } else if p + count > bytes.len() {
                    Err(count_err("map"@, count, (bytes.len() - p) as nat, path))
                } else {
                    match key.ty {
                        DataModel::String => match dec_str_map(
                            val.ty,
                            bytes,
                            p,
                            path,
                            depth + 1,
                            0,
                            count,
                        ) {
                            Ok((members, q)) => Ok((JsonView::Object(members), q)),
                            Err(e) => Err(e),
                        },
                        _ => match dec_pairs(key.ty, val.ty, bytes, p, path, depth + 1, 0, count) {
                            Ok((items, q)) => Ok((JsonView::Array(items), q)),
                            Err(e) => Err(e),
                        },
                    }
                },
            },
            DataModel::Struct(fields) => match dec_fields(fields@, bytes, pos, path, depth + 1, 0) {
                Ok((members, q)) => Ok((JsonView::Object(members), q)),
                Err(e) => Err(e),
            },
            DataModel::Enum(variants) => match take_varint(bytes, pos, 5, 15) {
                Err(f) => Err(read_err(f, path)),
                Ok((idx, p)) => if idx >= variants@.len() {
                    Err(
                        ConvertErr::Postcard(
                            "enum discriminant "@ + decimal_text(idx) + " out of range at "@ + path,
                        ),
                    )
                } else {
                    dec_variant(variants@[idx as int], bytes, p, path, depth + 1)
                },
            },
            DataModel::Schema => Err(ConvertErr::TypeUnsupported { ty: "Schema"@, path }),
        }
    }
}

/// Items `i..count` of a sequence of `ty`, from `pos`.
pub open spec fn dec_list(
    ty: DataModel,
    bytes: Seq<u8>,
    pos: nat,
    path: Seq<char>,
    depth: nat,
    i: nat,
    count: nat,
) -> Result<(Seq<JsonView>, nat), ConvertErr>
    decreases budget(depth), 1nat, count - i,
{
    if i >= count {
        Ok((Seq::empty(), pos))
    } else {
        match dec(ty, bytes, pos, index_path(path, i), depth) {
            Err(e) => Err(e),
            Ok((v, p)) => match dec_list(ty, bytes, p, path, depth, i + 1, count) {
                Err(e) => Err(e),
                Ok((vs, q)) => Ok((seq![v] + vs, q)),
            },
        }
    }
}

/// Elements `i..` of a tuple, from `pos`.
pub open spec fn dec_elems(
    elems: Seq<NamedType>,
    bytes: Seq<u8>,
    pos: nat,
    path: Seq<char>,
    depth: nat,
    i: nat,
) -> Result<(Seq<JsonView>, nat), ConvertErr>
    decreases budget(depth), 1nat, elems.len() - i,
{
    if i >= elems.len() {
        Ok((Seq::empty(), pos))
    } else {
        match dec(elems[i as int].ty, bytes, pos, position_path(path, i), depth) {
            Err(e) => Err(e),
            Ok((v, p)) => match dec_elems(elems, bytes, p, path, depth, i + 1) {
                Err(e) => Err(e),
                Ok((vs, q)) => Ok((seq![v] + vs, q)),
            },
        }
    }
}

/// Fields `i..` of a struct, from `pos`.
pub open spec fn dec_fields(
    fields: Seq<NamedValue>,
    bytes: Seq<u8>,
    pos: nat,
    path: Seq<char>,
    depth: nat,
    i: nat,
) -> Result<(Seq<(Seq<char>, JsonView)>, nat), ConvertErr>
    decreases budget(depth), 1nat, fields.len() - i,
{
    if i >= fields.len() {
        Ok((Seq::empty(), pos))
    } else {
        let f = fields[i as int];
        match dec(f.ty.ty, bytes, pos, member_path(path, f.name@), depth) {
            Err(e) => Err(e),
            Ok((v, p)) => match dec_fields(fields, bytes, p, path, depth, i + 1) {
                Err(e) => Err(e),
                Ok((ms, q)) => Ok((seq![(f.name@, v)] + ms, q)),
            },
        }
    }
}

/// Entries `i..count` of a map with string keys, from `pos`.
pub open spec fn dec_str_map(
    val: DataModel,
    bytes: Seq<u8>,
    pos: nat,
    path: Seq<char>,
    depth: nat,
    i: nat,
    count: nat,
) -> Result<(Seq<(Seq<char>, JsonView)>, nat), ConvertErr>
    decreases budget(depth), 1nat, count - i,
{
    if i >= count {
        Ok((Seq::empty(), pos))
    } else {
        match take_string(bytes, pos) {
            Err(f) => Err(read_err(f, key_path(path, i))),
            Ok((k, p)) => match dec(val, bytes, p, val_path(path, i), depth) {
                Err(e) => Err(e),
                Ok((v, p2)) => match dec_str_map(val, bytes, p2, path, depth, i + 1, count) {
                    Err(e) => Err(e),
                    Ok((ms, q)) => Ok((seq![(k, v)] + ms, q)),
                },
            },
        }
    }
}

/// Entries `i..count` of a map with other keys, as `[key, value]` pairs, from `pos`.
pub open spec fn dec_pairs(
    key: DataModel,
    val: DataModel,
    bytes: Seq<u8>,
    pos: nat,
    path: Seq<char>,
    depth: nat,
    i: nat,
    count: nat,
) -> Result<(Seq<JsonView>, nat), ConvertErr>
    decreases budget(depth), 1nat, count - i,
{
    if i >= count {
        Ok((Seq::empty(), pos))
    } else {
        match dec(key, bytes, pos, key_path(path, i), depth) {
            Err(e) => Err(e),
            Ok((k, p)) => match dec(val, bytes, p, val_path(path, i), depth) {
                Err(e) => Err(e),
                Ok((v, p2)) => match dec_pairs(key, val, bytes, p2, path, depth, i + 1, count) {
                    Err(e) => Err(e),
                    Ok((vs, q)) => Ok((seq![JsonView::Array(seq![k, v])] + vs, q)),
                },
            },
        }
    }
}

/// An enum value of variant `v`, whose payload starts at `pos`.
pub open spec fn dec_variant(
    v: NamedVariant,
    bytes: Seq<u8>,
    pos: nat,
    path: Seq<char>,
    depth: nat,
) -> Result<(JsonView, nat), ConvertErr>
    decreases budget(depth), 2nat, 0nat,
{
    if depth > MAX_DEPTH {
        Err(ConvertErr::DepthExceeded { path })
    } else {
        match v.ty {
            VariantModel::UnitVariant => Ok((JsonView::Str(v.name@), pos)),
            VariantModel::NewtypeVariant(inner) => match dec(inner.ty, bytes, pos, path, depth) {
                Ok((x, q)) => Ok((single(v.name@, x), q)),
                Err(e) => Err(e),
            },
            VariantModel::TupleVariant(elems) => match dec_elems(elems@, bytes, pos, path, depth + 1, 0) {
                Ok((items, q)) => Ok((single(v.name@, JsonView::Array(items)), q)),
                Err(e) => Err(e),
            },
            VariantModel::StructVariant(fields) => match dec_fields(
                fields@,
                bytes,
                pos,
                path,
                depth + 1,
                0,
            ) {
                Ok((members, q)) => Ok((single(v.name@, JsonView::Object(members)), q)),
                Err(e) => Err(e),
            },
        }
    }
}

/// The JSON value that `bytes` encode as a whole, for type `ty`.
pub open spec fn postcard_json(ty: DataModel, bytes: Seq<u8>) -> Result<JsonView, ConvertErr> {
    match dec(ty, bytes, 0, "$"@, 0) {
        Err(e) => Err(e),
        Ok((v, p)) => if p < bytes.len() {
            Err(
                ConvertErr::Postcard(
                    decimal_text((bytes.len() - p) as nat)
                        + " trailing bytes after decoding root value"@,
                ),
            )
        } else {
            Ok(v)
        },
    }
}

// ---------------------------------------------------------------------------
// Decoding
// ---------------------------------------------------------------------------

/// A decoding result with its value viewed.
pub open spec fn decoded(r: Result<(JsonOut, usize), ConvertError>) -> Result<
    (JsonView, nat),
    ConvertErr,
> {
    match r {
        Ok((v, p)) => Ok((json_view(v), p as nat)),
        Err(e) => Err(e@),
    }
}

/// Whether `ty` is read as one primitive value.
pub open spec fn is_primitive(ty: DataModel) -> bool {
    match ty {
        DataModel::Bool | DataModel::U8 | DataModel::U16 | DataModel::U32 | DataModel::U64
        | DataModel::Usize | DataModel::U128 | DataModel::I8 | DataModel::I16 | DataModel::I32
        | DataModel::I64 | DataModel::Isize | DataModel::I128 | DataModel::F32 | DataModel::F64
        | DataModel::Char | DataModel::String | DataModel::ByteArray => true,
        _ => false,
    }
}

/// The error for a failed primitive read at `path`.
fn read_error(f: DecodeFault, path: &str) -> (e: ConvertError)
    ensures
        e@ == read_err(f, path@),
{
    let mut m = fault_message(f);
    m.append(" at ");
    m.append(path);
    ConvertError::Postcard(m)
}

/// The error for a sequence or map count beyond what is left.
fn count_error(what: &str, count: u128, left: usize, path: &str) -> (e: ConvertError)
    ensures
        e@ == count_err(what@, count as nat, left as nat, path@),
{
    let mut m = what.to_owned();
    m.append(" count ");
    push_decimal_u128(&mut m, count);
    m.append(" exceeds remaining bytes ");
    push_decimal(&mut m, left as u64);
    m.append(" at ");
    m.append(path);
    ConvertError::Postcard(m)
}

/// The error for a sequence or map count that does not fit in `usize`.
fn usize_error(what: &str, count: u128, path: &str) -> (e: ConvertError)
    ensures
        e@ == usize_err(what@, count as nat, path@),
{
    let mut m = what.to_owned();
    m.append(" count ");
    push_decimal_u128(&mut m, count);
    m.append(" exceeds usize at ");
    m.append(path);
    ConvertError::Postcard(m)
}

/// Decimal text of a signed 128-bit number.
fn signed_string_i128(n: i128) -> (s: String)
    ensures
        s@ == signed_text(n as int),
{
    if n >= 0 {
        let mut s = String::new();
        push_decimal_u128(&mut s, n as u128);
        s
    } else {
        let mut s = "-".to_owned();
        let magnitude: u128 = if n == i128::MIN {
            0x8000_0000_0000_0000_0000_0000_0000_0000
        } else {
            (-n) as u128
        };
        push_decimal_u128(&mut s, magnitude);
        proof {
            reveal_strlit("-");
        }
        s
    }
}

/// Read an unsigned varint of at most 64 bits as a JSON number.
fn read_unsigned(bytes: &[u8], pos: usize, max: usize, last_max: u8, path: &str) -> (r: Result<
    (JsonOut, usize),
    ConvertError,
>)
    requires
        pos <= bytes@.len(),
        varint_width(max as nat, last_max as nat),
        max <= 10,
    ensures
        match take_varint(bytes@, pos as nat, max as nat, last_max as nat) {
            Ok((v, p)) => decoded(r) == Ok::<(JsonView, nat), ConvertErr>(
                (JsonView::Unsigned(v as u64), p),
            ),
            Err(f) => decoded(r) == Err::<(JsonView, nat), ConvertErr>(read_err(f, path@)),
        },
        r matches Ok((_, q)) ==> pos <= q <= bytes@.len(),
{
    proof {
        lemma_varint_bounds();
    }
    match read_varint(bytes, pos, max, last_max) {
        Ok((v, p)) => Ok((JsonOut::Unsigned(v as u64), p)),
        Err(f) => Err(read_error(f, path)),
    }
}

/// Read a zigzag varint of at most 64 bits as a JSON number.
fn read_signed(bytes: &[u8], pos: usize, max: usize, last_max: u8, path: &str) -> (r: Result<
    (JsonOut, usize),
    ConvertError,
>)
    requires
        pos <= bytes@.len(),
        varint_width(max as nat, last_max as nat),
        max <= 10,
    ensures
        match take_varint(bytes@, pos as nat, max as nat, last_max as nat) {
            Ok((v, p)) => decoded(r) == Ok::<(JsonView, nat), ConvertErr>(
                (JsonView::Signed(unzigzag(v) as i64), p),
            ),
            Err(f) => decoded(r) == Err::<(JsonView, nat), ConvertErr>(read_err(f, path@)),
        },
        r matches Ok((_, q)) ==> pos <= q <= bytes@.len(),
{
    proof {
        lemma_varint_bounds();
    }
    match read_varint(bytes, pos, max, last_max) {
        Ok((v, p)) => {
            let n = unzigzag_u64(v as u64);
            Ok((JsonOut::Signed(n), p))
        },
        Err(f) => Err(read_error(f, path)),
    }
}

/// Read a byte string as an array of JSON numbers.
fn read_byte_array(bytes: &[u8], pos: usize, path: &str) -> (r: Result<(JsonOut, usize), ConvertError>)
    requires
        pos <= bytes@.len(),
    ensures
        match take_len_prefixed(bytes@, pos as nat) {
            Ok((a, b)) => decoded(r) == Ok::<(JsonView, nat), ConvertErr>(
                (JsonView::Array(byte_items(bytes@.subrange(a as int, b as int))), b),
            ),
            Err(f) => decoded(r) == Err::<(JsonView, nat), ConvertErr>(read_err(f, path@)),
        },
        r matches Ok((_, q)) ==> pos <= q <= bytes@.len(),
{
    match read_len_prefixed(bytes, pos) {
        Ok((a, b)) => {
            let mut items: Vec<JsonOut> = Vec::new();
            let mut k: usize = a;
            while k < b
                invariant
                    a <= k <= b,
                    b <= bytes@.len(),
                    array_view(items@) == byte_items(bytes@.subrange(a as int, b as int)).take(
                        (k - a) as int,
                    ),
                decreases b - k,
            {
                push_item(&mut items, JsonOut::Unsigned(bytes[k] as u64));
                assert(byte_items(bytes@.subrange(a as int, b as int)).take((k + 1 - a) as int)
                    =~= byte_items(bytes@.subrange(a as int, b as int)).take((k - a) as int).push(
                    JsonView::Unsigned(bytes@[k as int] as u64),
                ));
                k += 1;
            }
            assert(byte_items(bytes@.subrange(a as int, b as int)).take((b - a) as int)
                =~= byte_items(bytes@.subrange(a as int, b as int)));
            Ok((array_of(items), b))
        },
        Err(f) => Err(read_error(f, path)),
    }
}

/// Decode a primitive value.
fn decode_primitive(ty: &DataModel, bytes: &[u8], pos: usize, path: &str, depth: usize) -> (r: Result<
    (JsonOut, usize),
    ConvertError,
>)
    requires
        pos <= bytes@.len(),
        depth < MAX_DEPTH,
        is_primitive(*ty),
    ensures
        decoded(r) == dec(*ty, bytes@, pos as nat, path@, depth as nat),
        r matches Ok((_, q)) ==> pos <= q <= bytes@.len(),
{
    proof {
        lemma_varint_bounds();
    }
    match ty {
        DataModel::Bool => {
            if pos >= bytes.len() {
                return Err(read_error(DecodeFault::UnexpectedEnd, path));
            }
            let b = bytes[pos];
            if b == 0 {
                Ok((JsonOut::Bool(false), pos + 1))
            } else if b == 1 {
                Ok((JsonOut::Bool(true), pos + 1))
            } else {
                Err(read_error(DecodeFault::BadBool, path))
            }
        },
        DataModel::U8 => {
            if pos >= bytes.len() {
                return Err(read_error(DecodeFault::UnexpectedEnd, path));
            }
            Ok((JsonOut::Unsigned(bytes[pos] as u64), pos + 1))
        },
        DataModel::U16 => read_unsigned(bytes, pos, 3, 3, path),
        DataModel::U32 => read_unsigned(bytes, pos, 5, 15, path),
        DataModel::U64 => read_unsigned(bytes, pos, 10, 1, path),
        DataModel::Usize => read_unsigned(bytes, pos, 10, 1, path),
        DataModel::U128 => match read_varint(bytes, pos, 19, 3) {
            Ok((v, p)) => {
                let mut s = String::new();
                push_decimal_u128(&mut s, v);
                Ok((JsonOut::Str(s), p))
            },
            Err(f) => Err(read_error(f, path)),
        },
        DataModel::I8 => {
            if pos >= bytes.len() {
                return Err(read_error(DecodeFault::UnexpectedEnd, path));
            }
            let b = bytes[pos];
            let n: i64 = if b < 128 {
                b as i64
            } else {
                b as i64 - 256
            };
            Ok((JsonOut::Signed(n), pos + 1))
        },
        DataModel::I16 => read_signed(bytes, pos, 3, 3, path),
        DataModel::I32 => read_signed(bytes, pos, 5, 15, path),
        DataModel::I64 => read_signed(bytes, pos, 10, 1, path),
        DataModel::Isize => read_signed(bytes, pos, 10, 1, path),
        DataModel::I128 => match read_varint(bytes, pos, 19, 3) {
            Ok((v, p)) => {
                let n = unzigzag_u128(v);
                Ok((JsonOut::Str(signed_string_i128(n)), p))
            },
            Err(f) => Err(read_error(f, path)),
        },
        DataModel::F32 => match read_le(bytes, pos, 4) {
            Ok((v, p)) => Ok((JsonOut::F32Bits(v as u32), p)),
            Err(f) => Err(read_error(f, path)),
        },
        DataModel::F64 => match read_le(bytes, pos, 8) {
            Ok((v, p)) => Ok((JsonOut::F64Bits(v), p)),
            Err(f) => Err(read_error(f, path)),
        },
        DataModel::Char => match read_char(bytes, pos) {
            Ok((s, p)) => Ok((JsonOut::Str(s), p)),
            Err(f) => Err(read_error(f, path)),
        },
        DataModel::String => match read_string(bytes, pos) {
            Ok((s, p)) => Ok((JsonOut::Str(s), p)),
            Err(f) => Err(read_error(f, path)),
        },
        DataModel::ByteArray => read_byte_array(bytes, pos, path),
        _ => {
            assert(false);
            Err(read_error(DecodeFault::UnexpectedEnd, path))
        },
    }
}

/// A list decoding result with its items viewed.
pub open spec fn items_decoded(r: Result<(Vec<JsonOut>, usize), ConvertError>) -> Result<
    (Seq<JsonView>, nat),
    ConvertErr,
> {
    match r {
        Ok((vs, q)) => Ok((array_view(vs@), q as nat)),
        Err(e) => Err(e@),
    }
}

/// A member list decoding result with its members viewed.
pub open spec fn members_decoded(r: Result<(Vec<(String, JsonOut)>, usize), ConvertError>) -> Result<
    (Seq<(Seq<char>, JsonView)>, nat),
    ConvertErr,
> {
    match r {
        Ok((ms, q)) => Ok((object_view(ms@), q as nat)),
        Err(e) => Err(e@),
    }
}

/// `vs` in front of the items of a list result.
pub open spec fn prepend<T>(vs: Seq<T>, r: Result<(Seq<T>, nat), ConvertErr>) -> Result<
    (Seq<T>, nat),
    ConvertErr,
> {
    match r {
        Ok((ws, q)) => Ok((vs + ws, q)),
        Err(e) => Err(e),
    }
}

/// Putting items in front one after another.
proof fn lemma_prepend<T>(vs: Seq<T>, x: T, r: Result<(Seq<T>, nat), ConvertErr>)
    ensures
        prepend(vs, prepend(seq![x], r)) == prepend(vs.push(x), r),
        prepend(vs, Ok::<(Seq<T>, nat), ConvertErr>((Seq::empty(), 0))) matches Ok((ws, _)) && ws
            == vs,
{
    if let Ok((ws, q)) = r {
        assert(vs + (seq![x] + ws) =~= vs.push(x) + ws);
    }
    assert(vs + Seq::<T>::empty() =~= vs);
}

/// Lowercase hexadecimal digit of `d`.
fn lower_hex(d: u8) -> (s: &'static str)
    requires
        d < 16,
    ensures
        s@ == seq![lower_hex_digit(d as nat)],
{
    proof {
        reveal_strlit("0");
        reveal_strlit("1");
        reveal_strlit("2");
        reveal_strlit("3");
        reveal_strlit("4");
        reveal_strlit("5");
        reveal_strlit("6");
        reveal_strlit("7");
        reveal_strlit("8");
        reveal_strlit("9");
        reveal_strlit("a");
        reveal_strlit("b");
        reveal_strlit("c");
        reveal_strlit("d");
        reveal_strlit("e");
        reveal_strlit("f");
    }
    if d == 0 {
        "0"
    } else if d == 1 {
        "1"
    } else if d == 2 {
        "2"
    } else if d == 3 {
        "3"
    } else if d == 4 {
        "4"
    } else if d == 5 {
        "5"
    } else if d == 6 {
        "6"
    } else if d == 7 {
        "7"
    } else if d == 8 {
        "8"
    } else if d == 9 {
        "9"
    } else if d == 10 {
        "a"
    } else if d == 11 {
        "b"
    } else if d == 12 {
        "c"
    } else if d == 13 {
        "d"
    } else if d == 14 {
        "e"
    } else {
        "f"
    }
}

/// The error for an option tag other than 0 and 1.
fn option_tag_error(tag: u8, path: &str) -> (e: ConvertError)
    ensures
        e@ == ConvertErr::Postcard("invalid option tag "@ + tag_hex(tag as nat) + " at "@ + path@),
{
    proof {
        reveal_strlit("invalid option tag 0x");
        reveal_strlit("invalid option tag ");
        assert("invalid option tag 0x"@ =~= "invalid option tag "@ + seq!['0', 'x']);
    }
    let mut m = "invalid option tag 0x".to_owned();
    if tag >= 16 {
        m.append(lower_hex(tag / 16));
    }
    m.append(lower_hex(tag % 16));
    let ghost digits = m@;
    m.append(" at ");
    m.append(path);
    proof {
        if tag >= 16 {
            assert(digits =~= "invalid option tag "@ + tag_hex(tag as nat));
        } else {
            assert(digits =~= "invalid option tag "@ + tag_hex(tag as nat));
        }
        assert(m@ =~= "invalid option tag "@ + tag_hex(tag as nat) + " at "@ + path@);
    }
    ConvertError::Postcard(m)
}

/// Decode `count` items of a sequence of `ty`.
fn decode_list(
    ty: &DataModel,
    bytes: &[u8],
    pos: usize,
    path: &str,
    depth: usize,
    count: usize,
) -> (r: Result<(Vec<JsonOut>, usize), ConvertError>)
    requires
        pos <= bytes@.len(),
        depth <= MAX_DEPTH + 1,
    ensures
        items_decoded(r) == dec_list(*ty, bytes@, pos as nat, path@, depth as nat, 0, count as nat),
        r matches Ok((_, q)) ==> pos <= q <= bytes@.len(),
    decreases budget(depth as nat), 1nat, 0nat,
{
    let mut items: Vec<JsonOut> = Vec::new();
    let mut cur = pos;
    let mut i: usize = 0;
    while i < count
        invariant
            pos <= cur <= bytes@.len(),
            i <= count,
            depth <= MAX_DEPTH + 1,
            dec_list(*ty, bytes@, pos as nat, path@, depth as nat, 0, count as nat) == prepend(
                array_view(items@),
                dec_list(*ty, bytes@, cur as nat, path@, depth as nat, i as nat, count as nat),
            ),
        decreases count - i,
    {
        let p = make_index_path(path, i);
        match decode_value(ty, bytes, cur, p.as_str(), depth) {
            Err(e) => {
                return Err(e);
            },
            Ok((v, next)) => {
                proof {
                    lemma_prepend(
                        array_view(items@),
                        json_view(v),
                        dec_list(
                            *ty,
                            bytes@,
                            next as nat,
                            path@,
                            depth as nat,
                            (i + 1) as nat,
                            count as nat,
                        ),
                    );
                }
                push_item(&mut items, v);
                cur = next;
            },
        }
        i += 1;
    }
    proof {
        lemma_prepend(array_view(items@), JsonView::Null, Err(ConvertErr::Postcard(Seq::empty())));
        assert(array_view(items@) + Seq::<JsonView>::empty() =~= array_view(items@));
    }
    Ok((items, cur))
}

/// Decode the elements of a tuple.
fn decode_elems(
    elems: &Vec<NamedType>,
    bytes: &[u8],
    pos: usize,
    path: &str,
    depth: usize,
) -> (r: Result<(Vec<JsonOut>, usize), ConvertError>)
    requires
        pos <= bytes@.len(),
        depth <= MAX_DEPTH + 1,
    ensures
        items_decoded(r) == dec_elems(elems@, bytes@, pos as nat, path@, depth as nat, 0),
        r matches Ok((_, q)) ==> pos <= q <= bytes@.len(),
    decreases budget(depth as nat), 1nat, 0nat,
{
    let mut items: Vec<JsonOut> = Vec::new();
    let mut cur = pos;
    let mut i: usize = 0;
    while i < elems.len()
        invariant
            pos <= cur <= bytes@.len(),
            i <= elems@.len(),
            depth <= MAX_DEPTH + 1,
            dec_elems(elems@, bytes@, pos as nat, path@, depth as nat, 0) == prepend(
                array_view(items@),
                dec_elems(elems@, bytes@, cur as nat, path@, depth as nat, i as nat),
            ),
        decreases elems@.len() - i,
    {
        let p = make_position_path(path, i);
        match decode_value(&elems[i].ty, bytes, cur, p.as_str(), depth) {
            Err(e) => {
                return Err(e);
            },
            Ok((v, next)) => {
                proof {
                    lemma_prepend(
                        array_view(items@),
                        json_view(v),
                        dec_elems(elems@, bytes@, next as nat, path@, depth as nat, (i + 1) as nat),
                    );
                }
                push_item(&mut items, v);
                cur = next;
            },
        }
        i += 1;
    }
    proof {
        assert(array_view(items@) + Seq::<JsonView>::empty() =~= array_view(items@));
    }
    Ok((items, cur))
}

/// Decode the fields of a struct.
fn decode_fields(
    fields: &Vec<NamedValue>,
    bytes: &[u8],
    pos: usize,
    path: &str,
    depth: usize,
) -> (r: Result<(Vec<(String, JsonOut)>, usize), ConvertError>)
    requires
        pos <= bytes@.len(),
        depth <= MAX_DEPTH + 1,
    ensures
        members_decoded(r) == dec_fields(fields@, bytes@, pos as nat, path@, depth as nat, 0),
        r matches Ok((_, q)) ==> pos <= q <= bytes@.len(),
    decreases budget(depth as nat), 1nat, 0nat,
{
    let mut members: Vec<(String, JsonOut)> = Vec::new();
    let mut cur = pos;
    let mut i: usize = 0;
    while i < fields.len()
        invariant
            pos <= cur <= bytes@.len(),
            i <= fields@.len(),
            depth <= MAX_DEPTH + 1,
            dec_fields(fields@, bytes@, pos as nat, path@, depth as nat, 0) == prepend(
                object_view(members@),
                dec_fields(fields@, bytes@, cur as nat, path@, depth as nat, i as nat),
            ),
        decreases fields@.len() - i,
    {
        let f = &fields[i];
        let p = make_member_path(path, f.name.as_str());
        match decode_value(&f.ty.ty, bytes, cur, p.as_str(), depth) {
            Err(e) => {
                return Err(e);
            },
            Ok((v, next)) => {
                proof {
                    lemma_prepend(
                        object_view(members@),
                        (f.name@, json_view(v)),
                        dec_fields(fields@, bytes@, next as nat, path@, depth as nat, (i + 1) as nat),
                    );
                }
                push_member(&mut members, f.name.as_str(), v);
                cur = next;
            },
        }
        i += 1;
    }
    proof {
        assert(object_view(members@) + Seq::<(Seq<char>, JsonView)>::empty() =~= object_view(
            members@,
        ));
    }
    Ok((members, cur))
}

/// Decode `count` entries of a map with string keys.
fn decode_str_map(
    val: &DataModel,
    bytes: &[u8],
    pos: usize,
    path: &str,
    depth: usize,
    count: usize,
) -> (r: Result<(Vec<(String, JsonOut)>, usize), ConvertError>)
    requires
        pos <= bytes@.len(),
        depth <= MAX_DEPTH + 1,
    ensures
        members_decoded(r) == dec_str_map(
            *val,
            bytes@,
            pos as nat,
            path@,
            depth as nat,
            0,
            count as nat,
        ),
        r matches Ok((_, q)) ==> pos <= q <= bytes@.len(),
    decreases budget(depth as nat), 1nat, 0nat,
{
    let mut members: Vec<(String, JsonOut)> = Vec::new();
    let mut cur = pos;
    let mut i: usize = 0;
    while i < count
        invariant
            pos <= cur <= bytes@.len(),
            i <= count,
            depth <= MAX_DEPTH + 1,
            dec_str_map(*val, bytes@, pos as nat, path@, depth as nat, 0, count as nat) == prepend(
                object_view(members@),
                dec_str_map(*val, bytes@, cur as nat, path@, depth as nat, i as nat, count as nat),
            ),
        decreases count - i,
    {
        let (k, after_key) = match read_string(bytes, cur) {
            Ok(x) => x,
            Err(f) => {
                let kp = make_key_path(path, i, true);
                return Err(read_error(f, kp.as_str()));
            },
        };
        let vp = make_key_path(path, i, false);
        match decode_value(val, bytes, after_key, vp.as_str(), depth) {
            Err(e) => {
                return Err(e);
            },
            Ok((v, next)) => {
                proof {
                    lemma_prepend(
                        object_view(members@),
                        (k@, json_view(v)),
                        dec_str_map(
                            *val,
                            bytes@,
                            next as nat,
                            path@,
                            depth as nat,
                            (i + 1) as nat,
                            count as nat,
                        ),
                    );
                }
                push_member(&mut members, k.as_str(), v);
                cur = next;
            },
        }
        i += 1;
    }
    proof {
        assert(object_view(members@) + Seq::<(Seq<char>, JsonView)>::empty() =~= object_view(
            members@,
        ));
    }
    Ok((members, cur))
}

/// Decode `count` entries of a map with other keys, as `[key, value]` pairs.
fn decode_pairs(
    key: &DataModel,
    val: &DataModel,
    bytes: &[u8],
    pos: usize,
    path: &str,
    depth: usize,
    count: usize,
) -> (r: Result<(Vec<JsonOut>, usize), ConvertError>)
    requires
        pos <= bytes@.len(),
        depth <= MAX_DEPTH + 1,
    ensures
        items_decoded(r) == dec_pairs(
            *key,
            *val,
            bytes@,
            pos as nat,
            path@,
            depth as nat,
            0,
            count as nat,
        ),
        r matches Ok((_, q)) ==> pos <= q <= bytes@.len(),
    decreases budget(depth as nat), 1nat, 0nat,
{
    let mut items: Vec<JsonOut> = Vec::new();
    let mut cur = pos;
    let mut i: usize = 0;
    while i < count
        invariant
            pos <= cur <= bytes@.len(),
            i <= count,
            depth <= MAX_DEPTH + 1,
            dec_pairs(*key, *val, bytes@, pos as nat, path@, depth as nat, 0, count as nat)
                == prepend(
                array_view(items@),
                dec_pairs(
                    *key,
                    *val,
                    bytes@,
                    cur as nat,
                    path@,
                    depth as nat,
                    i as nat,
                    count as nat,
                ),
            ),
        decreases count - i,
    {
        let kp = make_key_path(path, i, true);
        let (k, after_key) = match decode_value(key, bytes, cur, kp.as_str(), depth) {
            Ok(x) => x,
            Err(e) => {
                return Err(e);
            },
        };
        let vp = make_key_path(path, i, false);
        match decode_value(val, bytes, after_key, vp.as_str(), depth) {
            Err(e) => {
                return Err(e);
            },
            Ok((v, next)) => {
                let ghost (gk, gv) = (json_view(k), json_view(v));
                let mut pair: Vec<JsonOut> = Vec::new();
                push_item(&mut pair, k);
                push_item(&mut pair, v);
                assert(array_view(pair@) =~= seq![gk, gv]);
                let entry = array_of(pair);
                proof {
                    lemma_prepend(
                        array_view(items@),
                        json_view(entry),
                        dec_pairs(
                            *key,
                            *val,
                            bytes@,
                            next as nat,
                            path@,
                            depth as nat,
                            (i + 1) as nat,
                            count as nat,
                        ),
                    );
                }
                push_item(&mut items, entry);
                cur = next;
            },
        }
        i += 1;
    }
    proof {
        assert(array_view(items@) + Seq::<JsonView>::empty() =~= array_view(items@));
    }
    Ok((items, cur))
}

/// An object with the single member `name: v`.
fn single_of(name: &str, v: JsonOut) -> (r: JsonOut)
    ensures
        json_view(r) == single(name@, json_view(v)),
{
    let ghost g = json_view(v);
    let mut m: Vec<(String, JsonOut)> = Vec::new();
    push_member(&mut m, name, v);
    assert(object_view(m@) =~= seq![(name@, g)]);
    object_of(m)
}

/// Decode an enum value of variant `v`, whose payload starts at `pos`.
fn decode_variant(v: &NamedVariant, bytes: &[u8], pos: usize, path: &str, depth: usize) -> (r:
    Result<(JsonOut, usize), ConvertError>)
    requires
        pos <= bytes@.len(),
        depth <= MAX_DEPTH,
    ensures
        decoded(r) == dec_variant(*v, bytes@, pos as nat, path@, depth as nat),
        r matches Ok((_, q)) ==> pos <= q <= bytes@.len(),
    decreases budget(depth as nat), 2nat, 0nat,
{
    let name = v.name.as_str();
    match &v.ty {
        VariantModel::UnitVariant => Ok((JsonOut::Str(v.name.clone()), pos)),
        VariantModel::NewtypeVariant(inner) => match decode_value(&inner.ty, bytes, pos, path, depth) {
            Ok((x, q)) => Ok((single_of(name, x), q)),
            Err(e) => Err(e),
        },
        VariantModel::TupleVariant(elems) => match decode_elems(elems, bytes, pos, path, depth + 1) {
            Ok((items, q)) => Ok((single_of(name, array_of(items)), q)),
            Err(e) => Err(e),
        },
        VariantModel::StructVariant(fields) => match decode_fields(fields, bytes, pos, path, depth + 1) {
            Ok((members, q)) => Ok((single_of(name, object_of(members)), q)),
            Err(e) => Err(e),
        },
    }
}

/// Decode the value of type `ty` at `pos`.
fn decode_value(ty: &DataModel, bytes: &[u8], pos: usize, path: &str, depth: usize) -> (r: Result<
    (JsonOut, usize),
    ConvertError,
>)
    requires
        pos <= bytes@.len(),
        depth <= MAX_DEPTH + 1,
    ensures
        decoded(r) == dec(*ty, bytes@, pos as nat, path@, depth as nat),
        r matches Ok((_, q)) ==> pos <= q <= bytes@.len(),
    decreases budget(depth as nat), 0nat, 0nat,
{
    if depth >= MAX_DEPTH {
        return Err(ConvertError::DepthExceeded { path: path.to_owned() });
    }
    match ty {
        DataModel::Option(inner) => {
            if pos >= bytes.len() {
                let mut m = "unexpected EOF at ".to_owned();
                m.append(path);
                return Err(ConvertError::Postcard(m));
            }
            let tag = bytes[pos];
            if tag == 0 {
                Ok((JsonOut::Null, pos + 1))
            } else if tag == 1 {
                decode_value(&inner.ty, bytes, pos + 1, path, depth + 1)
            } else {
                Err(option_tag_error(tag, path))
            }
        },
        DataModel::Unit => Ok((JsonOut::Null, pos)),
        DataModel::UnitStruct => Ok((JsonOut::Null, pos)),
        DataModel::NewtypeStruct(inner) => decode_value(&inner.ty, bytes, pos, path, depth + 1),
        DataModel::SeqOf(inner) => match read_varint(bytes, pos, 10, 1) {
            Err(f) => Err(read_error(f, path)),
            Ok((count, p)) => {
                if count > usize::MAX as u128 {
                    return Err(usize_error("seq", count, path));
                }
                if count > (bytes.len() - p) as u128 {
                    return Err(count_error("seq", count, bytes.len() - p, path));
                }
                match decode_list(&inner.ty, bytes, p, path, depth + 1, count as usize) {
                    Ok((items, q)) => Ok((array_of(items), q)),
                    Err(e) => Err(e),
                }
            },
        },
        DataModel::Tuple(elems) => match decode_elems(elems, bytes, pos, path, depth + 1) {
            Ok((items, q)) => Ok((array_of(items), q)),
            Err(e) => Err(e),
        },
        DataModel::TupleStruct(elems) => match decode_elems(elems, bytes, pos, path, depth + 1) {
            Ok((items, q)) => Ok((array_of(items), q)),
            Err(e) => Err(e),
        },
        DataModel::MapOf { key, val } => match read_varint(bytes, pos, 10, 1) {
            Err(f) => Err(read_error(f, path)),
            Ok((count, p)) => {
                if count > usize::MAX as u128 {
                    return Err(usize_error("map", count, path));
                }
                if count > (bytes.len() - p) as u128 {
                    return Err(count_error("map", count, bytes.len() - p, path));
                }
                if let DataModel::String = &key.ty {
                    match decode_str_map(&val.ty, bytes, p, path, depth + 1, count as usize) {
                        Ok((members, q)) => Ok((object_of(members), q)),
                        Err(e) => Err(e),
                    }
                } else {
                    match decode_pairs(&key.ty, &val.ty, bytes, p, path, depth + 1, count as usize) {
                        Ok((items, q)) => Ok((array_of(items), q)),
                        Err(e) => Err(e),
                    }
                }
            },
        },
        DataModel::Struct(fields) => match decode_fields(fields, bytes, pos, path, depth + 1) {
            Ok((members, q)) => Ok((object_of(members), q)),
            Err(e) => Err(e),
        },
        DataModel::Enum(variants) => match read_varint(bytes, pos, 5, 15) {
            Err(f) => Err(read_error(f, path)),
            Ok((idx, p)) => {
                if idx >= variants.len() as u128 {
                    let mut m = "enum discriminant ".to_owned();
                    push_decimal_u128(&mut m, idx);
                    m.append(" out of range at ");
                    m.append(path);
                    return Err(ConvertError::Postcard(m));
                }
                decode_variant(&variants[idx as usize], bytes, p, path, depth + 1)
            },
        },
        DataModel::Schema => Err(
            ConvertError::TypeUnsupported { ty: "Schema".to_owned(), path: path.to_owned() },
        ),
        _ => decode_primitive(ty, bytes, pos, path, depth),
    }
}

/// The JSON value that `bytes` encode as a whole, read as a value of
/// `schema`'s type. Bytes left over after the value are an error.
pub fn postcard_to_json(schema: &NamedType, bytes: &[u8]) -> (r: Result<JsonOut, ConvertError>)
    ensures
        match r {
            Ok(v) => postcard_json(schema.ty, bytes@) == Ok::<JsonView, ConvertErr>(json_view(v)),
            Err(e) => postcard_json(schema.ty, bytes@) == Err::<JsonView, ConvertErr>(e@),
        },
{
    match decode_value(&schema.ty, bytes, 0, "$", 0) {
        Err(e) => Err(e),
        Ok((v, p)) => {
            if p < bytes.len() {
                let mut m = String::new();
                push_decimal(&mut m, (bytes.len() - p) as u64);
                m.append(" trailing bytes after decoding root value");
                Err(ConvertError::Postcard(m))
            } else {
                Ok(v)
            }
        },
    }
}

// ---------------------------------------------------------------------------
// Reading back what was written
// ---------------------------------------------------------------------------

/// Reading the varint of `m` that starts at byte `i` of a varint at `pos`.
proof fn lemma_varint_read(
    bytes: Seq<u8>,
    pos: nat,
    i: nat,
    acc: nat,
    m: nat,
    max: nat,
    last_max: nat,
)
    requires
        varint_width(max, last_max),
        i < max,
        pos + i + varint(m).len() <= bytes.len(),
        bytes.subrange((pos + i) as int, (pos + i + varint(m).len()) as int) == varint(m),
        m * pow128(i) < varint_bound(max, last_max),
    ensures
        varint_from(bytes, pos, i, acc, max, last_max) == Ok::<(nat, nat), DecodeFault>(
            (acc + m * pow128(i), pos + i + varint(m).len()),
        ),
    decreases m,
{
    let p = pow128(i);
    lemma_pow128_mono(i, (max - 1) as nat);
    assert(bytes[(pos + i) as int] == varint(m)[0]);
    if m < 128 {
        if i + 1 == max {
            assert(m < last_max + 1) by (nonlinear_arith)
                requires
                    m * p < p * (last_max + 1),
                    p >= 1,
            ;
        }
    } else {
        let rest = varint(m / 128);
        assert(varint(m) == seq![(m % 128 + 128) as u8] + rest);
        assert(pow128(i + 1) == 128 * p);
        if i + 1 == max {
            assert(m * p >= 128 * p) by (nonlinear_arith)
                requires
                    m >= 128,
                    p >= 1,
            ;
            assert(p * (last_max + 1) <= p * 128) by (nonlinear_arith)
                requires
                    last_max + 1 <= 128,
                    p >= 1,
            ;
            assert(false);
        }
        assert((m / 128) * pow128(i + 1) <= m * p) by (nonlinear_arith)
            requires
                pow128(i + 1) == 128 * p,
                p >= 1,
        ;
        assert(bytes.subrange((pos + i + 1) as int, (pos + i + 1 + rest.len()) as int) =~= rest) by {
            let whole = bytes.subrange((pos + i) as int, (pos + i + varint(m).len()) as int);
            assert forall|k: int| 0 <= k < rest.len() implies bytes[pos + i + 1 + k] == rest[k] by {
                assert(whole[k + 1] == varint(m)[k + 1]);
            }
        }
        let acc2 = acc + (m % 128) * p;
        lemma_varint_read(bytes, pos, i + 1, acc2, m / 128, max, last_max);
        assert(acc2 + (m / 128) * pow128(i + 1) == acc + m * p) by (nonlinear_arith)
            requires
                acc2 == acc + (m % 128) * p,
                pow128(i + 1) == 128 * p,
        ;
    }
}

/// Reading a varint gives back the number that was written, and the
/// position after it, for every number that the varint's type can hold.
pub proof fn lemma_varint_roundtrip(n: nat, max: nat, last_max: nat, before: Seq<u8>, after: Seq<u8>)
    requires
        varint_width(max, last_max),
        n < varint_bound(max, last_max),
    ensures
        take_varint(before + varint(n) + after, before.len(), max, last_max) == Ok::<
            (nat, nat),
            DecodeFault,
        >((n, before.len() + varint(n).len())),
{
    let bytes = before + varint(n) + after;
    assert(bytes.subrange(before.len() as int, (before.len() + varint(n).len()) as int) =~= varint(
        n,
    ));
    assert(pow128(0) == 1);
    lemma_varint_read(bytes, before.len(), 0, 0, n, max, last_max);
}

/// The little-endian number of `count` bytes written for `n` is `n`.
proof fn lemma_le_value(n: nat, count: nat)
    requires
        n < pow2(8 * count),
    ensures
        le_value(le_bytes(n, count)) == n,
        le_bytes(n, count).len() == count,
    decreases count,
{
    if count == 0 {
        vstd::arithmetic::power2::lemma2_to64();
    } else {
        let rest = le_bytes(n / 256, (count - 1) as nat);
        lemma_pow2_adds(8 * ((count - 1) as nat), 8);
        lemma2_to64();
        assert(8 * ((count - 1) as nat) + 8 == 8 * count);
        assert(n / 256 < pow2(8 * ((count - 1) as nat))) by (nonlinear_arith)
            requires
                n < pow2(8 * ((count - 1) as nat)) * 256,
        ;
        lemma_le_value(n / 256, (count - 1) as nat);
        assert(le_bytes(n, count).drop_first() =~= rest);
    }
}

/// Reading a little-endian number gives back the number that was written.
pub proof fn lemma_le_roundtrip(n: nat, count: nat, before: Seq<u8>, after: Seq<u8>)
    requires
        n < pow2(8 * count),
    ensures
        take_le(before + le_bytes(n, count) + after, before.len(), count) == Ok::<
            (nat, nat),
            DecodeFault,
        >((n, before.len() + count)),
{
    lemma_le_value(n, count);
    let bytes = before + le_bytes(n, count) + after;
    assert(bytes.subrange(before.len() as int, (before.len() + count) as int) =~= le_bytes(
        n,
        count,
    ));
}

/// Reading a string gives back the string that was written, where its UTF-8
/// length fits in 64 bits.
pub proof fn lemma_string_roundtrip(s: Seq<char>, before: Seq<u8>, after: Seq<u8>)
    requires
        encode_utf8(s).len() < 0x1_0000_0000_0000_0000,
    ensures
        take_string(before + str_encoding(s) + after, before.len()) == Ok::<
            (Seq<char>, nat),
            DecodeFault,
        >((s, before.len() + str_encoding(s).len())),
{
    let body = encode_utf8(s);
    let n = body.len();
    let bytes = before + str_encoding(s) + after;
    lemma_varint_bounds();
    assert(bytes =~= before + varint(n) + (body + after));
    lemma_varint_roundtrip(n, 10, 1, before, body + after);
    let p = before.len() + varint(n).len();
    assert(bytes.subrange(p as int, (p + n) as int) =~= body);
    encode_utf8_valid_utf8(s);
    encode_utf8_decode_utf8(s);
}

} // verus!
