//! Framing layer.
//!
//! Both link directions end a frame with a `0x00` byte. Between delimiters
//! the host-to-target direction carries COBS, the target-to-host direction
//! rzCOBS. [`FrameAccumulator`] finds frame boundaries by splitting on `0x00`
//! and does not interpret the bytes in between.

use vstd::prelude::*;
use crate::wire::WireError;

verus! {

/// Largest encoded frame, delimiter included, that either side handles.
pub const MAX_FRAME_SIZE: usize = 512;

// ---------------------------------------------------------------------------
// COBS (host to target)
// ---------------------------------------------------------------------------

/// The COBS encoding that the `cobs` crate produces for `data` (no delimiter).
pub uninterp spec fn cobs_encoding(data: Seq<u8>) -> Seq<u8>;

/// What the `cobs` crate decodes `frame` (no delimiter) to, given room enough;
/// `None` where it reports a malformed frame.
pub uninterp spec fn cobs_decoding(frame: Seq<u8>) -> Option<Seq<u8>>;

/// Worst-case COBS encoded length of `n` bytes: one overhead byte per 254
/// bytes, rounded up, and one for an empty message.
pub open spec fn cobs_max_len(n: int) -> int {
    if n == 0 {
        1
    } else {
        n + (n + 253) / 254
    }
}

#[verifier::external_type_specification]
#[verifier::external_body]
pub struct ExCobsDecodeError(cobs::DecodeError);

/// `cobs::max_encoding_length`: `n` plus one overhead byte per 254 bytes
/// (rounded up), and 1 for `n == 0`.
#[verifier::external_body]
pub(crate) fn cobs_max_encoding_length(n: usize) -> (r: usize)
    requires
        cobs_max_len(n as int) <= usize::MAX,
    ensures
        r == cobs_max_len(n as int),
{
    cobs::max_encoding_length(n)
}

/// `cobs::encode`: writes the COBS encoding of `source` at the front of
/// `dest` and returns its length. The encoding holds no zero byte, is longer
/// than `source` (one code byte leads, and each source byte takes one byte)
/// but no longer than `cobs::max_encoding_length`, and `cobs::decode` gives
/// `source` back from it. `dest` must have room for the worst case, or the call panics.
#[verifier::external_body]
pub(crate) fn cobs_encode_into(source: &[u8], dest: &mut [u8]) -> (n: usize)
    requires
        old(dest)@.len() >= cobs_max_len(source@.len() as int),
    ensures
        final(dest)@.len() == old(dest)@.len(),
        n == cobs_encoding(source@).len(),
        source@.len() < n <= cobs_max_len(source@.len() as int),
        final(dest)@.subrange(0, n as int) == cobs_encoding(source@),
        forall|i: int| 0 <= i < n ==> final(dest)@[i] != 0u8,
        cobs_decoding(final(dest)@.subrange(0, n as int)) == Some(source@),
{
    cobs::encode(source, dest)
}

/// `cobs::decode`, reporting the decoded frame size: it succeeds exactly when
/// `source` is a well-formed frame whose decoding fits in `dest`, and then
/// leaves the decoding at the front of `dest`. An empty source is refused
/// (`EmptyFrame`), and so is a lone zero byte, which leaves the decoder idle
/// without a frame.
#[verifier::external_body]
fn cobs_decode_into(source: &[u8], dest: &mut [u8]) -> (r: Result<usize, cobs::DecodeError>)
    ensures
        final(dest)@.len() == old(dest)@.len(),
        r is Ok <==> (cobs_decoding(source@) is Some && cobs_decoding(source@)->0.len()
            <= old(dest)@.len()),
        r matches Ok(m) ==> m == cobs_decoding(source@)->0.len(),
        r matches Ok(m) ==> final(dest)@.subrange(0, m as int) == cobs_decoding(source@)->0,
        source@.len() == 0 ==> r is Err,
        source@ == seq![0u8] ==> r is Err,
{
    cobs::decode(source, dest).map(|report| report.frame_size())
}

/// What `cobs_encode(data, dst)` does, with `dst` holding `before` on entry
/// and `after` on return, and `r` its result.
pub open spec fn cobs_encoded(
    data: Seq<u8>,
    before: Seq<u8>,
    after: Seq<u8>,
    r: Result<usize, WireError>,
) -> bool {
    &&& after.len() == before.len()
    &&& (before.len() < cobs_max_len(data.len() as int) + 1) <==> r is Err
    &&& r matches Err(e) ==> e == WireError::PayloadTooLarge
    &&& r matches Ok(n) ==> {
        &&& n == cobs_encoding(data).len() + 1
        &&& data.len() + 2 <= n <= cobs_max_len(data.len() as int) + 1 <= before.len()
        &&& after.subrange(0, n - 1) == cobs_encoding(data)
        &&& after[n - 1] == 0u8
        &&& forall|i: int| 0 <= i < n - 1 ==> after[i] != 0u8
        &&& cobs_decoding(after.subrange(0, n - 1)) == Some(data)
    }
}

/// What `cobs_decode(src, dst)` does, with `dst` holding `before` on entry
/// and `after` on return, and `r` its result.
pub open spec fn cobs_decoded(
    src: Seq<u8>,
    before: Seq<u8>,
    after: Seq<u8>,
    r: Result<usize, WireError>,
) -> bool {
    &&& after.len() == before.len()
    &&& r is Ok <==> (cobs_decoding(src) is Some && cobs_decoding(src)->0.len() <= before.len())
    &&& r matches Ok(m) ==> m == cobs_decoding(src)->0.len()
    &&& r matches Ok(m) ==> after.subrange(0, m as int) == cobs_decoding(src)->0
    &&& r matches Err(e) ==> e == WireError::FramingError
    &&& src.len() == 0 || src == seq![0u8] ==> r == Err::<usize, WireError>(
        WireError::FramingError,
    )
}

/// COBS-encode `data` into `dst` and append the `0x00` delimiter.
///
/// Returns the number of bytes written: the encoding plus the delimiter.
/// `dst` must hold the worst-case encoding plus one byte, else
/// `PayloadTooLarge`. The frame body holds no zero, and decoding it gives
/// `data` back.
pub fn cobs_encode(data: &[u8], dst: &mut [u8]) -> (r: Result<usize, WireError>)
    requires
        cobs_max_len(data@.len() as int) + 1 <= usize::MAX,
    ensures
        cobs_encoded(data@, old(dst)@, final(dst)@, r),
{
    let min_len = cobs_max_encoding_length(data.len()) + 1;
    if dst.len() < min_len {
        return Err(WireError::PayloadTooLarge);
    }
    let n = cobs_encode_into(data, dst);
    let ghost body = dst@.subrange(0, n as int);
    dst[n] = 0x00;
    assert(dst@.subrange(0, n as int) =~= body);
    Ok(n + 1)
}

/// COBS-decode `src` (delimiter removed) into `dst`.
///
/// Returns the decoded length; a malformed frame, or one whose decoding does
/// not fit in `dst`, gives `FramingError`.
pub fn cobs_decode(src: &[u8], dst: &mut [u8]) -> (r: Result<usize, WireError>)
    ensures
        cobs_decoded(src@, old(dst)@, final(dst)@, r),
{
    match cobs_decode_into(src, dst) {
        Ok(m) => Ok(m),
        Err(_) => Err(WireError::FramingError),
    }
}

// ---------------------------------------------------------------------------
// rzCOBS (target to host)
// ---------------------------------------------------------------------------

/// COBS decoding gives back what COBS encoding wrote: when `cobs_encode`
/// has written a frame of `n` bytes, that frame ends in its only zero byte,
/// and `cobs_decode` on the frame without that delimiter, into any buffer of
/// at least `n` bytes, returns the length of the data and leaves the data at
/// the front of the buffer.
pub proof fn lemma_cobs_roundtrip(
    data: Seq<u8>,
    enc_before: Seq<u8>,
    enc_after: Seq<u8>,
    n: usize,
    dec_before: Seq<u8>,
    dec_after: Seq<u8>,
    r: Result<usize, WireError>,
)
    requires
        cobs_encoded(data, enc_before, enc_after, Ok(n)),
        cobs_decoded(enc_after.subrange(0, n - 1), dec_before, dec_after, r),
        dec_before.len() >= n,
    ensures
        enc_after[n - 1] == 0u8,
        forall|i: int| 0 <= i < n - 1 ==> enc_after[i] != 0u8,
        r == Ok::<usize, WireError>(data.len() as usize),
        dec_after.subrange(0, data.len() as int) == data,
{
}

/// Worst-case rzCOBS encoded length of `n` bytes, delimiter excluded: the
/// bytes, one control byte per seven (rounded up), and an end marker.
pub open spec fn rzcobs_max_len(n: int) -> int {
    n + (n + 6) / 7 + 1
}

/// Worst-case rzCOBS encoded length of `n` bytes, excluding the delimiter.
pub fn max_rzcobs_encoding_length(n: usize) -> (r: usize)
    requires
        rzcobs_max_len(n as int) <= usize::MAX,
    ensures
        r == rzcobs_max_len(n as int),
{
    let groups: usize = if n % 7 == 0 {
        n / 7
    } else {
        n / 7 + 1
    };
    n + groups + 1
}

/// The byte `q` places before the end of `s` (`q == 0` is the last byte).
pub open spec fn from_end(s: Seq<u8>, q: int) -> u8 {
    s[s.len() - 1 - q]
}

/// Whether bit `k` of `x` is clear.
pub open spec fn bit_clear(x: u8, k: u8) -> bool {
    x & (1u8 << k) == 0
}

/// Slots `i..7` of a bitmap control byte `x`, reading literals backwards
/// from position `q`: a clear bit `6 - i` takes the next literal, a set bit
/// stands for a zero. Gives the slots and the number of literals taken, or
/// `None` when the input runs out.
pub open spec fn rz_bitmap(s: Seq<u8>, q: nat, x: u8, i: nat) -> Option<(Seq<u8>, nat)>
    decreases 7 - i,
{
    if i >= 7 {
        Some((Seq::empty(), 0))
    } else if bit_clear(x, (6 - i) as u8) {
        if q < s.len() {
            match rz_bitmap(s, q + 1, x, i + 1) {
                Some((o, c)) => Some((seq![from_end(s, q as int)] + o, c + 1)),
                None => None,
            }
        } else {
            None
        }
    } else {
        match rz_bitmap(s, q, x, i + 1) {
            Some((o, c)) => Some((seq![0u8] + o, c)),
            None => None,
        }
    }
}

/// `n` literals read backwards from position `q`.
pub open spec fn rz_literals(s: Seq<u8>, q: nat, n: nat) -> Seq<u8> {
    Seq::new(n, |k: int| from_end(s, q + k))
}

/// The output of one control byte `x` whose literals start at position `q`
/// (counted from the end), with the number of literals it takes.
pub open spec fn rz_group(s: Seq<u8>, q: nat, x: u8) -> Option<(Seq<u8>, nat)> {
    if x == 0 {
        None
    } else if x < 0x80 {
        rz_bitmap(s, q, x, 0)
    } else if x < 0xFF {
        let n = (x - 0x80 + 7) as nat;
        if q + n <= s.len() {
            Some((seq![0u8] + rz_literals(s, q, n), n))
        } else {
            None
        }
    } else if q + 134 <= s.len() {
        Some((rz_literals(s, q, 134), 134))
    } else {
        None
    }
}

/// Prepend `o` to a decoding, if there is one.
pub open spec fn prepend(o: Seq<u8>, r: Option<Seq<u8>>) -> Option<Seq<u8>> {
    match r {
        Some(t) => Some(o + t),
        None => None,
    }
}

/// How many bytes of `s` remain once its last `p` bytes are consumed.
pub open spec fn rz_remaining(s: Seq<u8>, p: nat) -> nat {
    if p >= s.len() {
        0
    } else {
        (s.len() - p) as nat
    }
}

/// The decoder's output, last byte first, for `s` once its last `p` bytes
/// have been consumed.
pub open spec fn rz_from(s: Seq<u8>, p: nat) -> Option<Seq<u8>>
    decreases rz_remaining(s, p),
{
    if p >= s.len() {
        Some(Seq::empty())
    } else {
        match rz_group(s, p + 1, from_end(s, p as int)) {
            Some((o, c)) => prepend(o, rz_from(s, p + 1 + c)),
            None => None,
        }
    }
}

/// rzCOBS decoding of a frame (delimiter removed), or `None` if malformed.
/// The frame is read from its end; the output may carry up to six trailing
/// zeros of padding.
pub open spec fn rzcobs_decoding(s: Seq<u8>) -> Option<Seq<u8>> {
    match rz_from(s, 0) {
        Some(o) => Some(o.reverse()),
        None => None,
    }
}

/// `d` is `data` followed by fewer than seven zero bytes.
pub open spec fn zero_padded(data: Seq<u8>, d: Seq<u8>) -> bool {
    &&& data.len() <= d.len() < data.len() + 7
    &&& d.subrange(0, data.len() as int) == data
    &&& forall|i: int| data.len() <= i < d.len() ==> d[i] == 0u8
}

/// The rzCOBS encoding that the `rzcobs` crate produces for `data` (no
/// delimiter).
pub uninterp spec fn rzcobs_encoding(data: Seq<u8>) -> Seq<u8>;

/// `rzcobs::encode`: the rzCOBS encoding of `data`. Every control byte it
/// writes is nonzero and literals are nonzero, so the encoding holds no zero;
/// it writes each data byte at most once and a control byte at most per
/// seven data bytes and at the end, so it is no longer than the worst case;
/// decoding it (as `rzcobs::decode` does, reading from the end) gives `data`
/// followed by the zero padding of the last seven-byte group.
#[verifier::external_body]
fn rzcobs_encode_vec(data: &[u8]) -> (out: Vec<u8>)
    ensures
        out@ == rzcobs_encoding(data@),
        out@.len() <= rzcobs_max_len(data@.len() as int),
        forall|i: int| 0 <= i < out@.len() ==> out@[i] != 0u8,
        rzcobs_decoding(out@) is Some,
        zero_padded(data@, rzcobs_decoding(out@)->0),
{
    rzcobs::encode(data)
}

/// rzCOBS-encode `data` into `dst` and append the `0x00` delimiter.
///
/// Returns the bytes written: the encoding plus the delimiter. `dst` must
/// hold the worst-case encoding plus one byte, else `PayloadTooLarge`. Decoding the frame body gives `data`
/// followed by fewer than seven zero bytes.
pub fn rzcobs_encode(data: &[u8], dst: &mut [u8]) -> (r: Result<usize, WireError>)
    requires
        rzcobs_max_len(data@.len() as int) + 1 <= usize::MAX,
    ensures
        final(dst)@.len() == old(dst)@.len(),
        r is Ok <==> old(dst)@.len() >= rzcobs_max_len(data@.len() as int) + 1,
        r matches Err(e) ==> e == WireError::PayloadTooLarge && final(dst)@ == old(dst)@,
        r matches Ok(n) ==> {
            &&& n == rzcobs_encoding(data@).len() + 1
            &&& n <= rzcobs_max_len(data@.len() as int) + 1
            &&& final(dst)@.subrange(0, n - 1) == rzcobs_encoding(data@)
            &&& final(dst)@[n - 1] == 0u8
            &&& forall|i: int| 0 <= i < n - 1 ==> final(dst)@[i] != 0u8
            &&& rzcobs_decoding(final(dst)@.subrange(0, n - 1)) is Some
            &&& zero_padded(data@, rzcobs_decoding(final(dst)@.subrange(0, n - 1))->0)
        },
{
    let min_len = max_rzcobs_encoding_length(data.len()) + 1;
    if dst.len() < min_len {
        return Err(WireError::PayloadTooLarge);
    }
    let enc = rzcobs_encode_vec(data);
    let n = enc.len();
    let mut i: usize = 0;
    while i < n
        invariant
            n == enc@.len() < dst@.len() == old(dst)@.len(),
            i <= n,
            forall|k: int| 0 <= k < i ==> dst@[k] == enc@[k],
        decreases n - i,
    {
        dst[i] = enc[i];
        i += 1;
    }
    dst[n] = 0x00;
    assert(dst@.subrange(0, n as int) =~= enc@);
    assert(forall|k: int| 0 <= k < n ==> dst@[k] != 0u8) by {
        assert forall|k: int| 0 <= k < n implies dst@[k] != 0u8 by {
            assert(dst@[k] == enc@[k]);
        }
    }
    Ok(n + 1)
}

/// Length of a bitmap group's output: one slot per remaining bit.
proof fn lemma_bitmap_len(s: Seq<u8>, q: nat, x: u8, i: nat)
    requires
        i <= 7,
        q <= s.len(),
    ensures
        rz_bitmap(s, q, x, i) matches Some((o, c)) ==> o.len() == 7 - i && q + c <= s.len(),
    decreases 7 - i,
{
    if i < 7 {
        if bit_clear(x, (6 - i) as u8) {
            if q < s.len() {
                lemma_bitmap_len(s, q + 1, x, i + 1);
            }
        } else {
            lemma_bitmap_len(s, q, x, i + 1);
        }
    }
}

/// Decode the slots of bitmap control byte `x` into `dst[out_pos..]`,
/// reading literals from position `p` (counted from the end of `src`).
fn decode_bitmap_group(src: &[u8], dst: &mut [u8], p: usize, out_pos: usize, x: u8) -> (r:
    Result<(usize, usize), ()>)
    requires
        p <= src@.len(),
        out_pos <= old(dst)@.len(),
        0 < x < 0x80,
    ensures
        final(dst)@.len() == old(dst)@.len(),
        final(dst)@.subrange(0, out_pos as int) == old(dst)@.subrange(0, out_pos as int),
        r matches Ok((p2, o2)) ==> {
            &&& p <= p2 <= src@.len()
            &&& out_pos <= o2 <= old(dst)@.len()
            &&& rz_bitmap(src@, p as nat, x, 0) == Some(
                (final(dst)@.subrange(out_pos as int, o2 as int), (p2 - p) as nat),
            )
            &&& forall|j: int| o2 <= j < old(dst)@.len() ==> final(dst)@[j] == old(dst)@[j]
        },
        r is Err ==> match rz_bitmap(src@, p as nat, x, 0) {
            Some((o, c)) => out_pos + o.len() > old(dst)@.len(),
            None => true,
        },
{
    let len = src.len();
    let mut q: usize = p;
    let mut o: usize = out_pos;
    let mut i: u8 = 0;
    while i < 7
        invariant
            len == src@.len(),
            p <= q <= len,
            out_pos <= o <= dst@.len() == old(dst)@.len(),
            o - out_pos == i,
            i <= 7,
            0 < x < 0x80,
            dst@.subrange(0, out_pos as int) == old(dst)@.subrange(0, out_pos as int),
            forall|j: int| o <= j < dst@.len() ==> dst@[j] == old(dst)@[j],
            rz_bitmap(src@, p as nat, x, 0) == match rz_bitmap(src@, q as nat, x, i as nat) {
                Some((t, c)) => Some((dst@.subrange(out_pos as int, o as int) + t, ((q - p) + c) as nat)),
                None => None,
            },
        decreases 7 - i,
    {
        proof {
            lemma_bitmap_len(src@, q as nat, x, i as nat);
        }
        if o >= dst.len() {
            return Err(());
        }
        let k: u8 = 6 - i;
        let ghost before = dst@;
        if x & (1u8 << k) == 0 {
            if q >= len {
                return Err(());
            }
            dst[o] = src[len - 1 - q];
            proof {
                assert(dst@.subrange(out_pos as int, o + 1) =~= before.subrange(
                    out_pos as int,
                    o as int,
                ) + seq![from_end(src@, q as int)]);
            }
            q += 1;
        } else {
            dst[o] = 0;
            proof {
                assert(dst@.subrange(out_pos as int, o + 1) =~= before.subrange(
                    out_pos as int,
                    o as int,
                ) + seq![0u8]);
            }
        }
        proof {
            assert(dst@.subrange(0, out_pos as int) =~= before.subrange(0, out_pos as int));
        }
        o += 1;
        i += 1;
    }
    Ok((q, o))
}

/// Decode a run group into `dst[out_pos..]`: an optional leading zero, then
/// `n` literals read backwards from position `p` of `src`.
fn decode_run_group(
    src: &[u8],
    dst: &mut [u8],
    p: usize,
    out_pos: usize,
    lead_zero: bool,
    n: usize,
) -> (r: Result<(usize, usize), ()>)
    requires
        p <= src@.len(),
        out_pos <= old(dst)@.len(),
        n <= 134,
    ensures
        final(dst)@.len() == old(dst)@.len(),
        final(dst)@.subrange(0, out_pos as int) == old(dst)@.subrange(0, out_pos as int),
        r matches Ok((p2, o2)) ==> {
            &&& p2 == p + n <= src@.len()
            &&& out_pos <= o2 <= old(dst)@.len()
            &&& final(dst)@.subrange(out_pos as int, o2 as int) == (if lead_zero {
                seq![0u8]
            } else {
                Seq::empty()
            }) + rz_literals(src@, p as nat, n as nat)
            &&& forall|j: int| o2 <= j < old(dst)@.len() ==> final(dst)@[j] == old(dst)@[j]
        },
        r is Err ==> p + n > src@.len() || out_pos + (if lead_zero {
            1int
        } else {
            0int
        }) + n > old(dst)@.len(),
{
    let len = src.len();
    let lead: usize = if lead_zero {
        1
    } else {
        0
    };
    if n > len - p || lead + n > dst.len() - out_pos {
        return Err(());
    }
    let ghost head: Seq<u8> = if lead_zero {
        seq![0u8]
    } else {
        Seq::empty()
    };
    let mut o = out_pos;
    if lead_zero {
        dst[o] = 0;
        o += 1;
    }
    assert(dst@.subrange(out_pos as int, o as int) =~= head);
    let mut k: usize = 0;
    while k < n
        invariant
            len == src@.len(),
            p + n <= len,
            out_pos + lead + n <= dst@.len() == old(dst)@.len(),
            lead == head.len(),
            k <= n,
            o == out_pos + lead + k,
            dst@.subrange(0, out_pos as int) == old(dst)@.subrange(0, out_pos as int),
            forall|j: int| o <= j < dst@.len() ==> dst@[j] == old(dst)@[j],
            dst@.subrange(out_pos as int, o as int) == head + rz_literals(
                src@,
                p as nat,
                k as nat,
            ),
        decreases n - k,
    {
        let ghost before = dst@;
        dst[o] = src[len - 1 - (p + k)];
        proof {
            assert(dst@.subrange(0, out_pos as int) =~= before.subrange(0, out_pos as int));
            assert(rz_literals(src@, p as nat, (k + 1) as nat) =~= rz_literals(
                src@,
                p as nat,
                k as nat,
            ).push(from_end(src@, p + k)));
            assert(dst@.subrange(out_pos as int, o + 1) =~= before.subrange(
                out_pos as int,
                o as int,
            ).push(dst@[o as int]));
            assert(dst@.subrange(out_pos as int, o + 1) =~= head + rz_literals(
                src@,
                p as nat,
                (k + 1) as nat,
            ));
        }
        o += 1;
        k += 1;
    }
    Ok((p + n, o))
}

/// Reverse `dst[..m]` in place.
fn reverse_prefix(dst: &mut [u8], m: usize)
    requires
        m <= old(dst)@.len(),
    ensures
        final(dst)@.len() == old(dst)@.len(),
        final(dst)@.subrange(0, m as int) == old(dst)@.subrange(0, m as int).reverse(),
        forall|j: int| m <= j < old(dst)@.len() ==> final(dst)@[j] == old(dst)@[j],
{
    let ghost orig = dst@;
    let mut i: usize = 0;
    while i < m / 2
        invariant
            m <= dst@.len() == orig.len(),
            i <= m / 2,
            forall|k: int| 0 <= k < i ==> dst@[k] == orig[m - 1 - k],
            forall|k: int| 0 <= k < i ==> dst@[m - 1 - k] == orig[k],
            forall|k: int| i <= k < m - i ==> dst@[k] == orig[k],
            forall|k: int| m <= k < orig.len() ==> dst@[k] == orig[k],
        decreases m / 2 - i,
    {
        let a = dst[i];
        let b = dst[m - 1 - i];
        dst[i] = b;
        dst[m - 1 - i] = a;
        i += 1;
    }
    let ghost front = orig.subrange(0, m as int);
    assert forall|k: int| 0 <= k < m implies dst@[k] == orig[m - 1 - k] by {
        if k >= m - i {
            let j = m - 1 - k;
            assert(0 <= j < i);
        }
    }
    if m > 0 {
        assert(dst@.subrange(0, m as int) =~= front.reverse());
    } else {
        assert(dst@.subrange(0, m as int) =~= front.reverse());
    }
}

/// Prepending twice is prepending the concatenation.
proof fn lemma_prepend_assoc(a: Seq<u8>, b: Seq<u8>, r: Option<Seq<u8>>)
    ensures
        prepend(a, prepend(b, r)) == prepend(a + b, r),
{
    if let Some(t) = r {
        assert(a + (b + t) =~= (a + b) + t);
    }
}

/// rzCOBS-decode `src` (delimiter removed) into `dst`.
///
/// The frame is read from its end, one control byte at a time. Returns the
/// decoded length, which may exceed the original data by up to six zero bytes
/// of padding; a malformed frame, or one whose decoding does not fit in
/// `dst`, gives `FramingError`.
pub fn rzcobs_decode(src: &[u8], dst: &mut [u8]) -> (r: Result<usize, WireError>)
    ensures
        final(dst)@.len() == old(dst)@.len(),
        r is Ok <==> (rzcobs_decoding(src@) is Some && rzcobs_decoding(src@)->0.len()
            <= old(dst)@.len()),
        r matches Ok(m) ==> m == rzcobs_decoding(src@)->0.len(),
        r matches Ok(m) ==> final(dst)@.subrange(0, m as int) == rzcobs_decoding(src@)->0,
        r matches Ok(m) ==> final(dst)@.subrange(m as int, old(dst)@.len() as int) == old(
            dst,
        )@.subrange(m as int, old(dst)@.len() as int),
        r matches Err(e) ==> e == WireError::FramingError,
{
    let len = src.len();
    let mut p: usize = 0;
    let mut out_pos: usize = 0;
    assert(dst@.subrange(0, 0) =~= Seq::<u8>::empty());
    assert(prepend(Seq::<u8>::empty(), rz_from(src@, 0)) =~= rz_from(src@, 0));
    while p < len
        invariant
            len == src@.len(),
            p <= len,
            out_pos <= dst@.len() == old(dst)@.len(),
            rz_from(src@, 0) == prepend(dst@.subrange(0, out_pos as int), rz_from(src@, p as nat)),
            forall|j: int| out_pos <= j < dst@.len() ==> dst@[j] == old(dst)@[j],
        decreases len - p,
    {
        let x = src[len - 1 - p];
        let q = p + 1;
        let ghost before = dst@;
        let ghost done = before.subrange(0, out_pos as int);
        let step = if x == 0 {
            Err(())
        } else if x < 0x80 {
            decode_bitmap_group(src, dst, q, out_pos, x)
        } else if x < 0xFF {
            decode_run_group(src, dst, q, out_pos, true, (x - 0x80) as usize + 7)
        } else {
            decode_run_group(src, dst, q, out_pos, false, 134)
        };
        assert(x == from_end(src@, p as int));
        proof {
            if x > 0 && x < 0x80 {
                lemma_bitmap_len(src@, q as nat, x, 0);
            }
        }
        match step {
            Err(()) => {
                proof {
                    match rz_group(src@, q as nat, x) {
                        Some((o, c)) => {
                            assert(out_pos + o.len() > dst@.len());
                            match rz_from(src@, (q + c) as nat) {
                                Some(t) => {
                                    assert((done + (o + t)).len() > dst@.len());
                                    assert(rz_from(src@, 0) == Some(done + (o + t)));
                                },
                                None => {},
                            }
                        },
                        None => {},
                    }
                }
                return Err(WireError::FramingError);
            },
            Ok((p2, o2)) => {
                proof {
                    assert(out_pos <= o2);
                    let w = dst@.subrange(out_pos as int, o2 as int);
                    assert(rz_group(src@, q as nat, x) == Some((w, (p2 - q) as nat)));
                    assert(rz_from(src@, p as nat) == prepend(w, rz_from(src@, p2 as nat)));
                    lemma_prepend_assoc(done, w, rz_from(src@, p2 as nat));
                    assert(dst@.subrange(0, o2 as int) =~= done + w);
                }
                p = p2;
                out_pos = o2;
            },
        }
    }
    let ghost decoded = dst@.subrange(0, out_pos as int);
    assert(rz_from(src@, 0) == Some(decoded));
    reverse_prefix(dst, out_pos);
    assert(dst@.subrange(out_pos as int, old(dst)@.len() as int) =~= old(dst)@.subrange(
        out_pos as int,
        old(dst)@.len() as int,
    ));
    Ok(out_pos)
}

// ---------------------------------------------------------------------------
// Frame accumulation
// ---------------------------------------------------------------------------

/// What an accumulator holds: the bytes of the current frame, and whether the
/// frame overflowed the buffer.
pub struct AccState {
    pub pending: Seq<u8>,
    pub overflow: bool,
}

/// One step of the accumulator with buffer capacity `cap`: a zero ends the
/// frame and changes nothing; a byte that finds the buffer full discards the
/// frame and marks overflow; any other byte is appended.
pub open spec fn acc_step(s: AccState, byte: u8, cap: nat) -> AccState {
    if byte == 0 {
        s
    } else if s.pending.len() >= cap {
        AccState { pending: Seq::empty(), overflow: true }
    } else {
        AccState { pending: s.pending.push(byte), overflow: s.overflow }
    }
}

/// The accumulator after feeding `bytes` in order.
pub open spec fn acc_feed_all(s: AccState, bytes: Seq<u8>, cap: nat) -> AccState
    decreases bytes.len(),
{
    if bytes.len() == 0 {
        s
    } else {
        acc_step(acc_feed_all(s, bytes.drop_last(), cap), bytes.last(), cap)
    }
}

/// The frame an accumulator in state `s` reports.
pub open spec fn acc_frame(s: AccState) -> Option<Seq<u8>> {
    if s.overflow || s.pending.len() == 0 {
        None
    } else {
        Some(s.pending)
    }
}

/// Byte-by-byte frame accumulator with capacity `N`.
///
/// Feed raw bytes with [`Self::feed`]; once it reports the `0x00` delimiter,
/// [`Self::frame`] gives the encoded frame. A frame longer than `N` bytes is
/// discarded and marks the accumulator overflowed, so that `frame` gives
/// nothing until [`Self::reset`].
pub struct FrameAccumulator<const N: usize> {
    buf: Vec<u8>,
    overflow: bool,
}

impl<const N: usize> FrameAccumulator<N> {
    /// The accumulator's abstract state.
    pub closed spec fn state(self) -> AccState {
        AccState { pending: self.buf@, overflow: self.overflow }
    }

    /// An empty accumulator.
    pub fn new() -> (r: Self)
        ensures
            r.state() == (AccState { pending: Seq::empty(), overflow: false }),
    {
        FrameAccumulator { buf: Vec::new(), overflow: false }
    }

    /// Feed one byte; returns `true` when it is the `0x00` delimiter.
    pub fn feed(&mut self, byte: u8) -> (complete: bool)
        ensures
            complete == (byte == 0),
            final(self).state() == acc_step(old(self).state(), byte, N as nat),
    {
        if byte == 0x00 {
            return true;
        }
        if self.buf.len() >= N {
            self.overflow = true;
            self.buf.clear();
            assert(self.buf@ =~= Seq::<u8>::empty());
            return false;
        }
        self.buf.push(byte);
        false
    }

    /// The accumulated frame; `None` after an overflow or when it is empty.
    pub fn frame(&self) -> (r: Option<&[u8]>)
        ensures
            r is None <==> acc_frame(self.state()) is None,
            r matches Some(f) ==> acc_frame(self.state()) == Some(f@),
    {
        if self.overflow || self.buf.len() == 0 {
            None
        } else {
            Some(self.buf.as_slice())
        }
    }

    /// Discard any partial frame and clear the overflow mark.
    pub fn reset(&mut self)
        ensures
            final(self).state() == (AccState { pending: Seq::empty(), overflow: false }),
    {
        self.buf.clear();
        self.overflow = false;
        assert(self.buf@ =~= Seq::<u8>::empty());
    }
}

impl<const N: usize> Default for FrameAccumulator<N> {
    fn default() -> (r: Self)
        ensures
            r.state() == (AccState { pending: Seq::empty(), overflow: false }),
    {
        Self::new()
    }
}

/// Fed a frame body of at most `cap` nonzero bytes, a fresh accumulator holds
/// exactly that body and has not overflowed.
pub proof fn lemma_acc_collects_body(body: Seq<u8>, cap: nat)
    requires
        body.len() <= cap,
        forall|i: int| 0 <= i < body.len() ==> body[i] != 0u8,
    ensures
        acc_feed_all(AccState { pending: Seq::empty(), overflow: false }, body, cap) == (AccState {
            pending: body,
            overflow: false,
        }),
    decreases body.len(),
{
    if body.len() == 0 {
        assert(body =~= Seq::<u8>::empty());
    } else {
        let prefix = body.drop_last();
        lemma_acc_collects_body(prefix, cap);
        assert(body[body.len() - 1] != 0u8);
        assert(prefix.push(body.last()) =~= body);
    }
}

/// A delimiter that follows a nonempty zero-free body of at most `cap` bytes,
/// fed into a fresh accumulator, leaves that body as the reported frame.
pub proof fn lemma_acc_frame_roundtrip(body: Seq<u8>, cap: nat)
    requires
        0 < body.len() <= cap,
        forall|i: int| 0 <= i < body.len() ==> body[i] != 0u8,
    ensures
        acc_frame(
            acc_feed_all(
                AccState { pending: Seq::empty(), overflow: false },
                body.push(0u8),
                cap,
            ),
        ) == Some(body),
{
    lemma_acc_collects_body(body, cap);
    assert(body.push(0u8).drop_last() =~= body);
}

/// A zero-free stretch longer than `cap` leaves a fresh accumulator
/// overflowed, so that it reports no frame.
pub proof fn lemma_acc_overflow(body: Seq<u8>, cap: nat)
    requires
        body.len() > cap,
        forall|i: int| 0 <= i < body.len() ==> body[i] != 0u8,
    ensures
        acc_feed_all(AccState { pending: Seq::empty(), overflow: false }, body, cap).overflow,
        acc_frame(acc_feed_all(AccState { pending: Seq::empty(), overflow: false }, body, cap))
            is None,
    decreases body.len(),
{
    let prefix = body.drop_last();
    let start = AccState { pending: Seq::<u8>::empty(), overflow: false };
    if prefix.len() == cap {
        lemma_acc_collects_body(prefix, cap);
    } else {
        lemma_acc_overflow(prefix, cap);
        lemma_acc_overflow_sticks(acc_feed_all(start, prefix, cap), body.last(), cap);
    }
}

/// Once overflowed, a step keeps the overflow mark.
proof fn lemma_acc_overflow_sticks(s: AccState, byte: u8, cap: nat)
    requires
        s.overflow,
    ensures
        acc_step(s, byte, cap).overflow,
{
}

} // verus!
