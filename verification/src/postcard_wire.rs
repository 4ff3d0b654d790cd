//! The postcard wire format of primitive values: LEB128 varints, zigzag
//! for signed integers, little-endian floats, and length-prefixed strings.

use vstd::prelude::*;
use vstd::string::*;
use vstd::utf8::encode_utf8;

verus! {

/// LEB128 varint of `n`: seven bits per byte, least significant first, the
/// high bit set on every byte but the last.
pub open spec fn varint(n: nat) -> Seq<u8>
    decreases n,
{
    if n < 128 {
        seq![n as u8]
    } else {
        seq![(n % 128 + 128) as u8] + varint(n / 128)
    }
}

/// Zigzag mapping of a signed integer: `0, -1, 1, -2, ...` to `0, 1, 2, 3, ...`.
pub open spec fn zigzag(n: int) -> nat {
    if n >= 0 {
        (2 * n) as nat
    } else {
        (-2 * n - 1) as nat
    }
}

/// The little-endian bytes of the `count`-byte number `n`.
pub open spec fn le_bytes(n: nat, count: nat) -> Seq<u8>
    decreases count,
{
    if count == 0 {
        Seq::empty()
    } else {
        seq![(n % 256) as u8] + le_bytes(n / 256, (count - 1) as nat)
    }
}

/// A string: the varint of its UTF-8 length, then its UTF-8 bytes.
pub open spec fn str_encoding(s: Seq<char>) -> Seq<u8> {
    varint(encode_utf8(s).len()) + encode_utf8(s)
}

/// Append the varint of `n`.
pub fn push_varint_u64(out: &mut Vec<u8>, n: u64)
    ensures
        final(out)@ == old(out)@ + varint(n as nat),
{
    let ghost start = out@;
    let mut m = n;
    while m >= 128
        invariant
            start + varint(n as nat) == out@ + varint(m as nat),
        decreases m,
    {
        let ghost before = out@;
        out.push((m % 128) as u8 + 128);
        proof {
            assert(varint(m as nat) == seq![(m % 128 + 128) as u8] + varint((m / 128) as nat));
            assert(before + varint(m as nat) =~= out@ + varint((m / 128) as nat));
        }
        m = m / 128;
    }
    let ghost before = out@;
    out.push(m as u8);
    assert(before + varint(m as nat) =~= out@);
}

/// Append the varint of `n`.
pub fn push_varint_u128(out: &mut Vec<u8>, n: u128)
    ensures
        final(out)@ == old(out)@ + varint(n as nat),
{
    let ghost start = out@;
    let mut m = n;
    while m >= 128
        invariant
            start + varint(n as nat) == out@ + varint(m as nat),
        decreases m,
    {
        let ghost before = out@;
        out.push((m % 128) as u8 + 128);
        proof {
            assert(varint(m as nat) == seq![(m % 128 + 128) as u8] + varint((m / 128) as nat));
            assert(before + varint(m as nat) =~= out@ + varint((m / 128) as nat));
        }
        m = m / 128;
    }
    let ghost before = out@;
    out.push(m as u8);
    assert(before + varint(m as nat) =~= out@);
}

/// Zigzag of a 64-bit signed integer.
pub fn zigzag_i64(n: i64) -> (z: u64)
    ensures
        z == zigzag(n as int),
{
    if n >= 0 {
        (n as u64) * 2
    } else {
        ((-(n + 1)) as u64) * 2 + 1
    }
}

/// Zigzag of a 128-bit signed integer.
pub fn zigzag_i128(n: i128) -> (z: u128)
    ensures
        z == zigzag(n as int),
{
    if n >= 0 {
        (n as u128) * 2
    } else {
        ((-(n + 1)) as u128) * 2 + 1
    }
}

/// Append the `count` little-endian bytes of `n`.
pub fn push_le(out: &mut Vec<u8>, n: u64, count: usize)
    requires
        count <= 8,
    ensures
        final(out)@ == old(out)@ + le_bytes(n as nat, count as nat),
{
    let ghost start = out@;
    let mut m = n;
    let mut k: usize = count;
    while k > 0
        invariant
            start + le_bytes(n as nat, count as nat) == out@ + le_bytes(m as nat, k as nat),
        decreases k,
    {
        let ghost before = out@;
        out.push((m % 256) as u8);
        proof {
            assert(before + le_bytes(m as nat, k as nat) =~= out@ + le_bytes(
                (m / 256) as nat,
                (k - 1) as nat,
            ));
        }
        m = m / 256;
        k -= 1;
    }
    assert(start + le_bytes(n as nat, count as nat) =~= out@);
}

/// Append the bytes of `bytes`.
pub fn push_all(out: &mut Vec<u8>, bytes: &[u8])
    ensures
        final(out)@ == old(out)@ + bytes@,
{
    let ghost start = out@;
    let mut i: usize = 0;
    while i < bytes.len()
        invariant
            i <= bytes@.len(),
            out@ == start + bytes@.subrange(0, i as int),
        decreases bytes@.len() - i,
    {
        out.push(bytes[i]);
        proof {
            assert(start + bytes@.subrange(0, i + 1) =~= (start + bytes@.subrange(
                0,
                i as int,
            )).push(bytes@[i as int]));
        }
        i += 1;
    }
    assert(bytes@.subrange(0, bytes@.len() as int) =~= bytes@);
}

/// Append a string: its UTF-8 length as a varint, then its UTF-8 bytes.
pub fn push_str(out: &mut Vec<u8>, s: &str)
    ensures
        final(out)@ == old(out)@ + str_encoding(s@),
{
    let bytes = s.as_bytes();
    push_varint_u64(out, bytes.len() as u64);
    push_all(out, bytes);
    assert(final(out)@ =~= old(out)@ + str_encoding(s@)) by {
        assert(out@ =~= old(out)@ + str_encoding(s@));
    }
}

} // verus!
