//! Command-ID derivation.
//!
//! A command ID is FNV-1a (32-bit) over the pre-image
//! `name || 0x1F || args_type || 0x1F || ret_type`, XOR-folded to 16 bits.
//! The value `0x0000` is reserved for discovery; a raw hash that folds to it
//! is rehashed with descending salt bytes until the result is non-zero.

use vstd::prelude::*;
use vstd::string::*;

verus! {

/// Delimiter placed between pre-image fields (ASCII Unit Separator).
pub const CMD_ID_FIELD_SEP: u8 = 0x1F;

/// FNV-1a 32-bit offset basis.
pub const FNV_OFFSET_BASIS: u32 = 0x811c9dc5;

/// FNV-1a 32-bit prime.
pub const FNV_PRIME: u32 = 0x01000193;

/// Reserved command ID of the discovery protocol.
pub const CMD_ID_DISCOVERY: u16 = 0x0000;

/// One FNV-1a round: xor the byte in, then multiply by the prime modulo 2^32.
pub open spec fn fnv_step(h: u32, b: u8) -> u32 {
    (h ^ (b as u32)).wrapping_mul(FNV_PRIME)
}

/// FNV-1a continued from `h` over all of `bytes`, first byte first.
pub open spec fn fnv_fold(h: u32, bytes: Seq<u8>) -> u32
    decreases bytes.len(),
{
    if bytes.len() == 0 {
        h
    } else {
        fnv_step(fnv_fold(h, bytes.drop_last()), bytes.last())
    }
}

/// The two 16-bit halves of `h`, xor-ed together.
pub open spec fn fold16(h: u32) -> u16 {
    ((h >> 16u32) as u16) ^ (h as u16)
}

/// Hashing two pieces one after the other is hashing their concatenation.
pub proof fn lemma_fnv_fold_append(h: u32, a: Seq<u8>, b: Seq<u8>)
    ensures
        fnv_fold(fnv_fold(h, a), b) == fnv_fold(h, a + b),
    decreases b.len(),
{
    if b.len() == 0 {
        assert(a + b =~= a);
    } else {
        lemma_fnv_fold_append(h, a, b.drop_last());
        assert((a + b).drop_last() =~= a + b.drop_last());
        assert((a + b).last() == b.last());
    }
}

/// The salt search: rehash with `salt`, `salt - 1`, ... until the fold is
/// non-zero; once the hash has been salted with `0`, the result is `0x0001`.
pub open spec fn salt_search(h: u32, salt: int) -> u16
    decreases salt,
    when 0 <= salt <= 255
{
    let h2 = fnv_step(h, salt as u8);
    if salt == 0 {
        1u16
    } else if fold16(h2) != 0 {
        fold16(h2)
    } else {
        salt_search(h2, salt - 1)
    }
}

/// The salt search never yields the reserved ID.
pub proof fn lemma_salt_search_nonzero(h: u32, salt: int)
    requires
        0 <= salt <= 255,
    ensures
        salt_search(h, salt) != 0,
    decreases salt,
{
    let h2 = fnv_step(h, salt as u8);
    if fold16(h2) == 0 && salt > 0 {
        lemma_salt_search_nonzero(h2, salt - 1);
    }
}

/// The pre-image `name || 0x1F || args || 0x1F || ret`.
pub open spec fn preimage(name: Seq<u8>, args: Seq<u8>, ret: Seq<u8>) -> Seq<u8> {
    name + seq![CMD_ID_FIELD_SEP] + args + seq![CMD_ID_FIELD_SEP] + ret
}

/// The command ID of a signature given as the UTF-8 bytes of its three parts.
pub open spec fn spec_derive_cmd_id(name: Seq<u8>, args: Seq<u8>, ret: Seq<u8>) -> u16 {
    let h = fnv_fold(FNV_OFFSET_BASIS, preimage(name, args, ret));
    if fold16(h) != 0 {
        fold16(h)
    } else {
        salt_search(h, 255)
    }
}

/// No signature is mapped to the reserved discovery ID.
pub proof fn lemma_cmd_id_never_discovery(name: Seq<u8>, args: Seq<u8>, ret: Seq<u8>)
    ensures
        spec_derive_cmd_id(name, args, ret) != CMD_ID_DISCOVERY,
{
    let h = fnv_fold(FNV_OFFSET_BASIS, preimage(name, args, ret));
    if fold16(h) == 0 {
        lemma_salt_search_nonzero(h, 255);
    }
}

/// Continues an FNV-1a 32-bit hash over `bytes`, starting from `hash`.
pub fn fnv1a_32_continue(hash: u32, bytes: &[u8]) -> (r: u32)
    ensures
        r == fnv_fold(hash, bytes@),
{
    let mut h = hash;
    let mut i: usize = 0;
    while i < bytes.len()
        invariant
            i <= bytes@.len(),
            h == fnv_fold(hash, bytes@.take(i as int)),
        decreases bytes@.len() - i,
    {
        h = (h ^ (bytes[i] as u32)).wrapping_mul(FNV_PRIME);
        proof {
            assert(bytes@.take(i + 1).drop_last() =~= bytes@.take(i as int));
        }
        i = i + 1;
    }
    proof {
        assert(bytes@.take(i as int) =~= bytes@);
    }
    h
}

/// FNV-1a 32-bit hash of `bytes` from the standard offset basis.
pub fn fnv1a_32(bytes: &[u8]) -> (r: u32)
    ensures
        r == fnv_fold(FNV_OFFSET_BASIS, bytes@),
{
    fnv1a_32_continue(FNV_OFFSET_BASIS, bytes)
}

/// XOR-folds a 32-bit value to 16 bits.
pub fn xor_fold(h: u32) -> (r: u16)
    ensures
        r == fold16(h),
{
    ((h >> 16u32) as u16) ^ (h as u16)
}

/// FNV-1a 32-bit, XOR-folded to 16 bits.
pub fn fnv1a_16(bytes: &[u8]) -> (r: u16)
    ensures
        r == fold16(fnv_fold(FNV_OFFSET_BASIS, bytes@)),
{
    xor_fold(fnv1a_32(bytes))
}

/// Derives the 16-bit command ID of `name(args_type) -> ret_type`.
///
/// The result is never [`CMD_ID_DISCOVERY`].
pub fn derive_cmd_id(name: &str, args_type: &str, ret_type: &str) -> (id: u16)
    ensures
        id == spec_derive_cmd_id(name.spec_bytes(), args_type.spec_bytes(), ret_type.spec_bytes()),
        id != CMD_ID_DISCOVERY,
{
    let sep: [u8; 1] = [CMD_ID_FIELD_SEP];
    let h = fnv1a_32_continue(FNV_OFFSET_BASIS, name.as_bytes());
    let h = fnv1a_32_continue(h, sep.as_slice());
    let h = fnv1a_32_continue(h, args_type.as_bytes());
    let h = fnv1a_32_continue(h, sep.as_slice());
    let h = fnv1a_32_continue(h, ret_type.as_bytes());
    proof {
        let n = name.spec_bytes();
        let a = args_type.spec_bytes();
        let r = ret_type.spec_bytes();
        let s = seq![CMD_ID_FIELD_SEP];
        assert(sep@ =~= s);
        lemma_fnv_fold_append(FNV_OFFSET_BASIS, n, s);
        lemma_fnv_fold_append(FNV_OFFSET_BASIS, n + s, a);
        lemma_fnv_fold_append(FNV_OFFSET_BASIS, n + s + a, s);
        lemma_fnv_fold_append(FNV_OFFSET_BASIS, n + s + a + s, r);
        lemma_cmd_id_never_discovery(n, a, r);
    }
    let mut id = xor_fold(h);
    if id != CMD_ID_DISCOVERY {
        return id;
    }
    let ghost h0 = h;
    let mut h = h;
    let mut salt: u8 = 0xFF;
    while id == CMD_ID_DISCOVERY
        invariant
            fold16(h0) == 0,
            spec_derive_cmd_id(name.spec_bytes(), args_type.spec_bytes(), ret_type.spec_bytes())
                == salt_search(h0, 255),
            id == fold16(h),
            id == 0 ==> salt_search(h, salt as int) == salt_search(h0, 255),
            id != 0 ==> id == salt_search(h0, 255),
        decreases salt,
    {
        let salt_byte: [u8; 1] = [salt];
        let ghost h_prev = h;
        h = fnv1a_32_continue(h, salt_byte.as_slice());
        proof {
            assert(salt_byte@ =~= seq![salt]);
            reveal_with_fuel(fnv_fold, 2);
            assert(seq![salt].drop_last() =~= Seq::<u8>::empty());
        }
        id = xor_fold(h);
        if salt > 0 {
            salt = salt - 1;
        } else {
            assert(salt_search(h_prev, 0) == 1u16);
            return 0x0001;
        }
    }
    id
}

} // verus!
