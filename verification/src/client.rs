//! Host-side client state: sequence numbers, request framing, response
//! reception and validation, and the paging of the discovery protocol.
//!
//! Talking to the transport and (de)serializing packets happen around these
//! steps; each step here decides from plain values what happens next.

use vstd::prelude::*;
use crate::framing::{
    acc_feed_all, acc_frame, cobs_decoding, cobs_encode_into, cobs_encoding,
    cobs_max_encoding_length, cobs_max_len, lemma_acc_frame_roundtrip, rzcobs_decode,
    rzcobs_decoding, AccState, MAX_FRAME_SIZE,
};
use crate::schema::{is_cached, SchemaCache, SchemaEntry};
use crate::text::{join_with, split_names, string_views, free_of};
use crate::wire::{
    app_error_decoding, decode_app_error, PacketType, ResponseStatus, WireError, MAX_PAYLOAD_SIZE,
};

verus! {

/// Errors that can arise on the host side.
#[derive(Debug)]
pub enum HostError {
    /// I/O error from the underlying transport.
    Io(String),
    /// The response's sequence number did not match the pending request.
    SeqMismatch { expected: u16, got: u16 },
    /// The target reported a system-level error.
    SystemError,
    /// The target reported an application error; `code` 0 means unspecified.
    AppError { code: u16, message: String },
    /// postcard serialization or deserialization failed, with its cause.
    SerdeError(postcard::Error),
    /// The request arguments exceeded the maximum payload size.
    RequestPayloadTooLarge,
    /// The response payload exceeded the maximum payload size.
    ResponsePayloadTooLarge,
    /// The received frame exceeded the maximum frame size.
    FrameTooLarge,
    /// A malformed frame or packet was received from the target.
    FramingError,
    /// A discovery page had no entries while entries remained.
    DiscoveryStalled,
    /// A discovery page echoed the wrong offset or changed its total.
    DiscoveryProtocolError,
}

impl From<postcard::Error> for HostError {
    fn from(e: postcard::Error) -> (r: Self) {
        HostError::SerdeError(e)
    }
}

impl vstd::std_specs::convert::FromSpecImpl<postcard::Error> for HostError {
    open spec fn obeys_from_spec() -> bool {
        true
    }

    open spec fn from_spec(e: postcard::Error) -> HostError {
        HostError::SerdeError(e)
    }
}

/// Host-side framing counters, accumulated since the last reset.
#[derive(Debug, Clone, Copy)]
pub struct HostMetricsSnapshot {
    /// Nanoseconds spent COBS-encoding requests.
    pub encode_ns: u64,
    /// Nanoseconds spent rzCOBS-decoding responses.
    pub decode_ns: u64,
    /// Serialized request bytes encoded.
    pub encoded_bytes: u64,
    /// Decoded response bytes produced.
    pub decoded_bytes: u64,
    /// Completed round trips measured.
    pub sample_count: u64,
}

/// All counters at zero.
pub open spec fn zero_metrics() -> HostMetricsSnapshot {
    HostMetricsSnapshot {
        encode_ns: 0,
        decode_ns: 0,
        encoded_bytes: 0,
        decoded_bytes: 0,
        sample_count: 0,
    }
}

/// `a + b`, saturating at `u64::MAX`.
pub open spec fn sat_add(a: u64, b: u64) -> u64 {
    if a + b > u64::MAX {
        u64::MAX
    } else {
        (a + b) as u64
    }
}

impl Default for HostMetricsSnapshot {
    fn default() -> (r: Self)
        ensures
            r == zero_metrics(),
    {
        HostMetricsSnapshot {
            encode_ns: 0,
            decode_ns: 0,
            encoded_bytes: 0,
            decoded_bytes: 0,
            sample_count: 0,
        }
    }
}

/// Position of the first zero byte of `s` at or after `i`.
pub open spec fn first_zero_from(s: Seq<u8>, i: nat) -> Option<nat>
    decreases s.len() - i,
{
    if i >= s.len() {
        None
    } else if s[i as int] == 0 {
        Some(i)
    } else {
        first_zero_from(s, i + 1)
    }
}

/// The first zero at or after `i` is a zero with none before it from `i`.
proof fn lemma_first_zero_from(s: Seq<u8>, i: nat)
    ensures
        first_zero_from(s, i) matches Some(p) ==> i <= p < s.len() && s[p as int] == 0 && forall|
            j: int,
        | i <= j < p ==> s[j] != 0,
        first_zero_from(s, i) is None ==> forall|j: int| i <= j < s.len() ==> s[j] != 0,
    decreases s.len() - i,
{
    if i < s.len() && s[i as int] != 0 {
        lemma_first_zero_from(s, i + 1);
    }
}

/// RPC client over transport `T`.
pub struct TelepathClient<T> {
    transport: T,
    schema_cache: SchemaCache,
    seq_counter: u16,
    read_buf: Vec<u8>,
    host_metrics: HostMetricsSnapshot,
}

impl<T> TelepathClient<T> {
    /// The sequence number the next call will use.
    pub closed spec fn next_seq_no(self) -> u16 {
        self.seq_counter
    }

    /// The cached command schemas.
    pub closed spec fn cache(self) -> Map<u16, SchemaEntry> {
        self.schema_cache@
    }

    /// Bytes received from the transport and not yet consumed.
    pub closed spec fn pending_input(self) -> Seq<u8> {
        self.read_buf@
    }

    /// The framing counters.
    pub closed spec fn metrics(self) -> HostMetricsSnapshot {
        self.host_metrics
    }

    /// The transport.
    pub closed spec fn transport_state(self) -> T {
        self.transport
    }

    /// A client over `transport`, with an empty cache and sequence number 0.
    pub fn new(transport: T) -> (r: Self)
        ensures
            r.next_seq_no() == 0,
            r.cache() == Map::<u16, SchemaEntry>::empty(),
            r.pending_input() == Seq::<u8>::empty(),
            r.metrics() == zero_metrics(),
            r.transport_state() == transport,
    {
        TelepathClient {
            transport,
            schema_cache: SchemaCache::new(),
            seq_counter: 0,
            read_buf: Vec::new(),
            host_metrics: HostMetricsSnapshot::default(),
        }
    }

    /// Return the framing counters and reset them to zero.
    pub fn take_host_metrics(&mut self) -> (snap: HostMetricsSnapshot)
        ensures
            snap == old(self).metrics(),
            final(self).metrics() == zero_metrics(),
            final(self).next_seq_no() == old(self).next_seq_no(),
            final(self).cache() == old(self).cache(),
            final(self).pending_input() == old(self).pending_input(),
            final(self).transport_state() == old(self).transport_state(),
    {
        let snap = self.host_metrics;
        self.host_metrics = HostMetricsSnapshot::default();
        snap
    }

    /// Count one request encoding of `bytes` bytes that took `ns` nanoseconds.
    pub fn record_encode(&mut self, ns: u64, bytes: u64)
        ensures
            final(self).metrics() == (HostMetricsSnapshot {
                encode_ns: sat_add(old(self).metrics().encode_ns, ns),
                encoded_bytes: sat_add(old(self).metrics().encoded_bytes, bytes),
                ..old(self).metrics()
            }),
            final(self).next_seq_no() == old(self).next_seq_no(),
            final(self).cache() == old(self).cache(),
            final(self).pending_input() == old(self).pending_input(),
            final(self).transport_state() == old(self).transport_state(),
    {
        self.host_metrics.encode_ns = self.host_metrics.encode_ns.saturating_add(ns);
        self.host_metrics.encoded_bytes = self.host_metrics.encoded_bytes.saturating_add(bytes);
    }

    /// Count one response decoding that produced `bytes` bytes in `ns`
    /// nanoseconds, completing a round trip.
    pub fn record_decode(&mut self, ns: u64, bytes: u64)
        ensures
            final(self).metrics() == (HostMetricsSnapshot {
                decode_ns: sat_add(old(self).metrics().decode_ns, ns),
                decoded_bytes: sat_add(old(self).metrics().decoded_bytes, bytes),
                sample_count: sat_add(old(self).metrics().sample_count, 1),
                ..old(self).metrics()
            }),
            final(self).next_seq_no() == old(self).next_seq_no(),
            final(self).cache() == old(self).cache(),
            final(self).pending_input() == old(self).pending_input(),
            final(self).transport_state() == old(self).transport_state(),
    {
        self.host_metrics.decode_ns = self.host_metrics.decode_ns.saturating_add(ns);
        self.host_metrics.decoded_bytes = self.host_metrics.decoded_bytes.saturating_add(bytes);
        self.host_metrics.sample_count = self.host_metrics.sample_count.saturating_add(1);
    }

    /// The schema cache.
    pub fn schema_cache(&self) -> (r: &SchemaCache)
        ensures
            r@ == self.cache(),
    {
        &self.schema_cache
    }

    /// Empty the schema cache (discovery starts from scratch).
    pub fn reset_schema_cache(&mut self)
        ensures
            final(self).cache() == Map::<u16, SchemaEntry>::empty(),
            final(self).next_seq_no() == old(self).next_seq_no(),
            final(self).pending_input() == old(self).pending_input(),
            final(self).metrics() == old(self).metrics(),
            final(self).transport_state() == old(self).transport_state(),
    {
        self.schema_cache = SchemaCache::new();
    }

    /// Cache a discovered entry under its command ID.
    pub fn cache_entry(&mut self, entry: SchemaEntry)
        ensures
            final(self).cache() == old(self).cache().insert(entry.cmd_id, entry),
            final(self).next_seq_no() == old(self).next_seq_no(),
            final(self).pending_input() == old(self).pending_input(),
            final(self).metrics() == old(self).metrics(),
            final(self).transport_state() == old(self).transport_state(),
    {
        self.schema_cache.insert(entry);
    }

    /// The transport, for side-channel operations.
    pub fn transport_mut(&mut self) -> (r: &mut T)
        ensures
            *r == old(self).transport_state(),
            final(self).transport_state() == *final(r),
            final(self).next_seq_no() == old(self).next_seq_no(),
            final(self).cache() == old(self).cache(),
            final(self).pending_input() == old(self).pending_input(),
            final(self).metrics() == old(self).metrics(),
    {
        &mut self.transport
    }

    /// Take the next sequence number; the counter wraps around.
    fn next_seq(&mut self) -> (s: u16)
        ensures
            s == old(self).next_seq_no(),
            final(self).next_seq_no() == old(self).next_seq_no().wrapping_add(1),
            final(self).cache() == old(self).cache(),
            final(self).pending_input() == old(self).pending_input(),
            final(self).metrics() == old(self).metrics(),
            final(self).transport_state() == old(self).transport_state(),
    {
        let s = self.seq_counter;
        self.seq_counter = self.seq_counter.wrapping_add(1);
        s
    }

    /// Start a call whose serialized arguments take `args_len` bytes: refuse
    /// oversized arguments, else take the call's sequence number.
    pub fn begin_call(&mut self, args_len: usize) -> (r: Result<u16, HostError>)
        ensures
            args_len > MAX_PAYLOAD_SIZE ==> (r matches Err(HostError::RequestPayloadTooLarge)
                && final(self).next_seq_no() == old(self).next_seq_no()),
            args_len <= MAX_PAYLOAD_SIZE ==> r == Ok::<u16, HostError>(old(self).next_seq_no())
                && final(self).next_seq_no() == old(self).next_seq_no().wrapping_add(1),
            final(self).cache() == old(self).cache(),
            final(self).pending_input() == old(self).pending_input(),
            final(self).metrics() == old(self).metrics(),
            final(self).transport_state() == old(self).transport_state(),
    {
        if args_len > MAX_PAYLOAD_SIZE {
            return Err(HostError::RequestPayloadTooLarge);
        }
        Ok(self.next_seq())
    }

    /// Append bytes read from the transport to the pending input.
    pub fn receive_bytes(&mut self, bytes: &[u8])
        ensures
            final(self).pending_input() == old(self).pending_input() + bytes@,
            final(self).next_seq_no() == old(self).next_seq_no(),
            final(self).cache() == old(self).cache(),
            final(self).metrics() == old(self).metrics(),
            final(self).transport_state() == old(self).transport_state(),
    {
        let mut i: usize = 0;
        let ghost start = self.read_buf@;
        while i < bytes.len()
            invariant
                i <= bytes@.len(),
                self.read_buf@ == start + bytes@.subrange(0, i as int),
                self.next_seq_no() == old(self).next_seq_no(),
                self.cache() == old(self).cache(),
                self.metrics() == old(self).metrics(),
                self.transport_state() == old(self).transport_state(),
            decreases bytes@.len() - i,
        {
            self.read_buf.push(bytes[i]);
            proof {
                assert(start + bytes@.subrange(0, i + 1) =~= (start + bytes@.subrange(
                    0,
                    i as int,
                )).push(bytes@[i as int]));
            }
            i += 1;
        }
        assert(bytes@.subrange(0, bytes@.len() as int) =~= bytes@);
    }

    /// One step of receiving a response frame into `raw_frame`.
    ///
    /// If the pending input holds the `0x00` delimiter, the bytes before it
    /// complete the frame (`Ok(true)`) and the delimiter is consumed. Else all
    /// pending input joins the frame and more must be read (`Ok(false)`). A
    /// frame reaching `MAX_FRAME_SIZE` bytes gives `FrameTooLarge`, dropping
    /// the pending input up to and including the delimiter, if any.
    pub fn recv_step(&mut self, raw_frame: &mut Vec<u8>) -> (r: Result<bool, HostError>)
        ensures
            final(self).next_seq_no() == old(self).next_seq_no(),
            final(self).cache() == old(self).cache(),
            final(self).metrics() == old(self).metrics(),
            final(self).transport_state() == old(self).transport_state(),
            match first_zero_from(old(self).pending_input(), 0) {
                Some(pos) => {
                    &&& final(self).pending_input() == old(self).pending_input().subrange(
                        pos + 1int,
                        old(self).pending_input().len() as int,
                    )
                    &&& if old(raw_frame)@.len() + pos >= MAX_FRAME_SIZE {
                        r matches Err(HostError::FrameTooLarge) && final(raw_frame)@ == old(
                            raw_frame,
                        )@
                    } else {
                        r matches Ok(true) && final(raw_frame)@ == old(raw_frame)@ + old(
                            self,
                        ).pending_input().subrange(0, pos as int)
                    }
                },
                None => {
                    &&& final(self).pending_input() == Seq::<u8>::empty()
                    &&& if old(raw_frame)@.len() + old(self).pending_input().len()
                        >= MAX_FRAME_SIZE {
                        r matches Err(HostError::FrameTooLarge) && final(raw_frame)@ == old(
                            raw_frame,
                        )@
                    } else {
                        r matches Ok(false) && final(raw_frame)@ == old(raw_frame)@ + old(
                            self,
                        ).pending_input()
                    }
                },
            },
    {
        let ghost pending = self.read_buf@;
        let len = self.read_buf.len();
        let mut i: usize = 0;
        while i < len
            invariant
                len == pending.len(),
                self.read_buf@ == pending,
                i <= len,
                first_zero_from(pending, 0) == first_zero_from(pending, i as nat),
            ensures
                i <= len,
                i < len ==> pending[i as int] == 0,
                first_zero_from(pending, 0) == first_zero_from(pending, i as nat),
            decreases len - i,
        {
            if self.read_buf[i] == 0 {
                break;
            }
            i += 1;
        }
        if i < len {
            // The delimiter is at `i`.
            assert(first_zero_from(pending, 0) == Some(i as nat));
            let mut head = self.read_buf.split_off(i + 1);
            std::mem::swap(&mut head, &mut self.read_buf);
            if raw_frame.len() >= MAX_FRAME_SIZE || i >= MAX_FRAME_SIZE - raw_frame.len() {
                return Err(HostError::FrameTooLarge);
            }
            let ghost frame0 = raw_frame@;
            let mut k: usize = 0;
            while k < i
                invariant
                    i < len,
                    len == pending.len(),
                    head@ == pending.subrange(0, i + 1),
                    k <= i,
                    raw_frame@ == frame0 + pending.subrange(0, k as int),
                decreases i - k,
            {
                raw_frame.push(head[k]);
                proof {
                    assert(frame0 + pending.subrange(0, k + 1) =~= (frame0 + pending.subrange(
                        0,
                        k as int,
                    )).push(pending[k as int]));
                }
                k += 1;
            }
            Ok(true)
        } else {
            assert(first_zero_from(pending, 0) is None);
            let mut head: Vec<u8> = Vec::new();
            std::mem::swap(&mut head, &mut self.read_buf);
            if raw_frame.len() >= MAX_FRAME_SIZE || len >= MAX_FRAME_SIZE - raw_frame.len() {
                return Err(HostError::FrameTooLarge);
            }
            let ghost frame0 = raw_frame@;
            let mut k: usize = 0;
            while k < len
                invariant
                    head@ == pending,
                    len == pending.len(),
                    k <= len,
                    raw_frame@ == frame0 + pending.subrange(0, k as int),
                decreases len - k,
            {
                raw_frame.push(head[k]);
                proof {
                    assert(frame0 + pending.subrange(0, k + 1) =~= (frame0 + pending.subrange(
                        0,
                        k as int,
                    )).push(pending[k as int]));
                }
                k += 1;
            }
            assert(pending.subrange(0, len as int) =~= pending);
            Ok(false)
        }
    }

    /// The ID of some cached command named `name`, if any. Where several
    /// cached commands share the name, which one is unspecified.
    pub fn cmd_id_by_name(&self, name: &str) -> (r: Option<u16>)
        ensures
            r is None <==> forall|k: u16|
                #[trigger] self.cache().contains_key(k) ==> self.cache()[k].name@ != name@,
            r matches Some(id) ==> self.cache().contains_key(id) && self.cache()[id].name@ == name@
                && self.cache()[id].cmd_id == id,
    {
        let entries = self.schema_cache.iter();
        let wanted = name.to_owned();
        let mut i: usize = 0;
        while i < entries.len()
            invariant
                i <= entries@.len(),
                wanted@ == name@,
                forall|j: int| 0 <= j < entries@.len() ==> is_cached(self.cache(), *#[trigger] entries@[j]),
                forall|j: int|
                    0 <= j < entries@.len() ==> self.cache().contains_key((#[trigger] entries@[j]).cmd_id)
                        && self.cache()[entries@[j].cmd_id] == *entries@[j],
                forall|k: u16|
                    #[trigger] self.cache().contains_key(k) ==> exists|j: int|
                        0 <= j < entries@.len() && *entries@[j] == self.cache()[k],
                forall|j: int| 0 <= j < i ==> (#[trigger] entries@[j]).name@ != name@,
            decreases entries@.len() - i,
        {
            if entries[i].name == wanted {
                let id = entries[i].cmd_id;
                proof {
                    assert(self.cache().contains_key(entries@[i as int].cmd_id));
                }
                return Some(id);
            }
            i += 1;
        }
        proof {
            assert forall|k: u16| #[trigger] self.cache().contains_key(k) implies self.cache()[
                k
            ].name@ != name@ by {
                let j = choose|j: int| 0 <= j < entries@.len() && *entries@[j] == self.cache()[k];
                assert(entries@[j].name@ != name@);
            }
        }
        None
    }
}

/// COBS-encode a serialized request and append the `0x00` delimiter.
pub fn frame_request(serialized: &[u8]) -> (out: Vec<u8>)
    requires
        cobs_max_len(serialized@.len() as int) + 1 <= usize::MAX,
    ensures
        out@ == cobs_encoding(serialized@).push(0u8),
        forall|i: int| 0 <= i < out@.len() - 1 ==> out@[i] != 0u8,
        cobs_decoding(out@.drop_last()) == Some(serialized@),
{
    let cap = cobs_max_encoding_length(serialized.len()) + 1;
    let mut buf: Vec<u8> = Vec::new();
    let mut i: usize = 0;
    while i < cap
        invariant
            i <= cap,
            buf@.len() == i,
        decreases cap - i,
    {
        buf.push(0);
        i += 1;
    }
    let n = cobs_encode_into(serialized, buf.as_mut_slice());
    buf.truncate(n);
    buf.push(0);
    assert(buf@.drop_last() =~= cobs_encoding(serialized@));
    buf
}

/// rzCOBS-decode a received frame (delimiter removed) into at most
/// `MAX_FRAME_SIZE` bytes; a malformed or oversized frame gives
/// `FramingError`.
pub fn decode_response_frame(raw_frame: &[u8]) -> (r: Result<Vec<u8>, HostError>)
    ensures
        r is Ok <==> (rzcobs_decoding(raw_frame@) is Some && rzcobs_decoding(raw_frame@)->0.len()
            <= MAX_FRAME_SIZE),
        r matches Ok(v) ==> v@ == rzcobs_decoding(raw_frame@)->0,
        r matches Err(e) ==> e is FramingError,
{
    let mut decoded: Vec<u8> = Vec::new();
    let mut i: usize = 0;
    while i < MAX_FRAME_SIZE
        invariant
            i <= MAX_FRAME_SIZE,
            decoded@.len() == i,
        decreases MAX_FRAME_SIZE - i,
    {
        decoded.push(0);
        i += 1;
    }
    match rzcobs_decode(raw_frame, decoded.as_mut_slice()) {
        Ok(m) => {
            decoded.truncate(m);
            Ok(decoded)
        },
        Err(_) => Err(HostError::FramingError),
    }
}

/// Check a decoded response against the call it answers, and give the
/// payload on success.
///
/// In order: a packet that is not a response gives `FramingError`, a payload
/// over `MAX_PAYLOAD_SIZE` gives `ResponsePayloadTooLarge`, a sequence number
/// other than `expected_seq` gives `SeqMismatch`; then the status decides: the
/// payload, `SystemError`, or the decoded application error.
pub fn check_response(
    expected_seq: u16,
    kind: PacketType,
    seq_no: u16,
    status: ResponseStatus,
    payload: &[u8],
) -> (r: Result<Vec<u8>, HostError>)
    ensures
        kind != PacketType::Response ==> r matches Err(HostError::FramingError),
        kind == PacketType::Response && payload@.len() > MAX_PAYLOAD_SIZE ==> r matches Err(
            HostError::ResponsePayloadTooLarge,
        ),
        kind == PacketType::Response && payload@.len() <= MAX_PAYLOAD_SIZE && seq_no
            != expected_seq ==> (r matches Err(HostError::SeqMismatch { expected, got })
            && expected == expected_seq && got == seq_no),
        kind == PacketType::Response && payload@.len() <= MAX_PAYLOAD_SIZE && seq_no
            == expected_seq ==> match status {
            ResponseStatus::Success => r matches Ok(v) && v@ == payload@,
            ResponseStatus::SystemError => r matches Err(HostError::SystemError),
            ResponseStatus::AppError => match app_error_decoding(payload@) {
                Some((c, m)) => r matches Err(HostError::AppError { code, message }) && code == c
                    && message@ == m,
                None => r matches Err(HostError::SerdeError(_)),
            },
        },
{
    if kind != PacketType::Response {
        return Err(HostError::FramingError);
    }
    if payload.len() > MAX_PAYLOAD_SIZE {
        return Err(HostError::ResponsePayloadTooLarge);
    }
    if seq_no != expected_seq {
        return Err(HostError::SeqMismatch { expected: expected_seq, got: seq_no });
    }
    match status {
        ResponseStatus::Success => Ok(vstd::slice::slice_to_vec(payload)),
        ResponseStatus::SystemError => Err(HostError::SystemError),
        ResponseStatus::AppError => match decode_app_error(payload) {
            Ok(p) => Err(HostError::AppError { code: p.code, message: p.message.to_owned() }),
            Err(WireError::SerdeError(e)) => Err(HostError::SerdeError(e)),
            Err(_) => Err(HostError::FramingError),
        },
    }
}

/// The schema entry a discovery entry describes; its argument names are the
/// comma-separated list, split.
pub fn schema_entry_from_discovery(
    name: &str,
    id: u16,
    args_schema: &[u8],
    ret_schema: &[u8],
    arg_names: &str,
) -> (e: SchemaEntry)
    ensures
        e.name@ == name@,
        e.cmd_id == id,
        e.args_schema@ == args_schema@,
        e.ret_schema@ == ret_schema@,
        arg_names@.len() == 0 ==> e.arg_names@.len() == 0,
        arg_names@.len() > 0 ==> join_with(string_views(e.arg_names@), seq![',']) == arg_names@,
        free_of(string_views(e.arg_names@), ','),
{
    SchemaEntry {
        name: name.to_owned(),
        cmd_id: id,
        args_schema: vstd::slice::slice_to_vec(args_schema),
        ret_schema: vstd::slice::slice_to_vec(ret_schema),
        arg_names: split_names(arg_names),
    }
}

/// Where paging through the discovery protocol stands: the offset to request
/// next and the total the first page reported.
pub struct DiscoveryCursor {
    offset: u16,
    expected_total: Option<u16>,
}

impl DiscoveryCursor {
    /// The offset to request next.
    pub closed spec fn next_offset(self) -> u16 {
        self.offset
    }

    /// The total reported by the first page, once one arrived.
    pub closed spec fn total(self) -> Option<u16> {
        self.expected_total
    }

    /// Paging starts at offset 0 with no total known.
    pub fn new() -> (r: Self)
        ensures
            r.next_offset() == 0,
            r.total() is None,
    {
        DiscoveryCursor { offset: 0, expected_total: None }
    }

    /// The offset to request next.
    pub fn offset(&self) -> (o: u16)
        ensures
            o == self.next_offset(),
    {
        self.offset
    }

    /// Check a page's header: it must echo the requested offset, and its
    /// total must equal that of the first page.
    pub fn check_page(&mut self, page_total: u16, page_offset: u16) -> (r: Result<(), HostError>)
        ensures
            final(self).next_offset() == old(self).next_offset(),
            page_offset != old(self).next_offset() ==> (r matches Err(
                HostError::DiscoveryProtocolError,
            ) && final(self).total() == old(self).total()),
            page_offset == old(self).next_offset() ==> match old(self).total() {
                None => r is Ok && final(self).total() == Some(page_total),
                Some(t) => final(self).total() == old(self).total() && if t == page_total {
                    r is Ok
                } else {
                    r matches Err(HostError::DiscoveryProtocolError)
                },
            },
    {
        if page_offset != self.offset {
            return Err(HostError::DiscoveryProtocolError);
        }
        match self.expected_total {
            None => {
                self.expected_total = Some(page_total);
                Ok(())
            },
            Some(t) => {
                if t != page_total {
                    Err(HostError::DiscoveryProtocolError)
                } else {
                    Ok(())
                }
            },
        }
    }

    /// Advance past a page of `count` entries: `Ok(true)` when more pages
    /// remain, `Ok(false)` when the offset reached the total, and
    /// `DiscoveryStalled` when an empty page leaves entries outstanding. The
    /// offset advances by `count` taken as a 16-bit number, saturating.
    pub fn advance(&mut self, page_total: u16, count: u32) -> (r: Result<bool, HostError>)
        ensures
            final(self).total() == old(self).total(),
            final(self).next_offset() == old(self).next_offset().saturating_add(count as u16),
            final(self).next_offset() >= page_total ==> r == Ok::<bool, HostError>(false),
            final(self).next_offset() < page_total && count == 0 ==> r matches Err(
                HostError::DiscoveryStalled,
            ),
            final(self).next_offset() < page_total && count != 0 ==> r == Ok::<bool, HostError>(
                true,
            ),
    {
        self.offset = self.offset.saturating_add(count as u16);
        if self.offset >= page_total {
            return Ok(false);
        }
        if count == 0 {
            return Err(HostError::DiscoveryStalled);
        }
        Ok(true)
    }
}

/// Paging makes progress: a page whose entry count is nonzero as a 16-bit
/// number moves the offset forward, unless it was already at its maximum.
pub proof fn lemma_discovery_progress(offset: u16, count: u32)
    requires
        count as u16 != 0,
        offset < u16::MAX,
    ensures
        offset.saturating_add(count as u16) > offset,
{
}

/// A request the host frames reaches the target intact: fed byte by byte
/// into a fresh frame accumulator with room for it, the framed bytes (as
/// `frame_request` returns them) leave the accumulator reporting the encoded
/// frame, whose COBS decoding is the serialized request.
pub proof fn lemma_request_reaches_target(serialized: Seq<u8>, framed: Seq<u8>, cap: nat)
    requires
        framed == cobs_encoding(serialized).push(0u8),
        forall|i: int| 0 <= i < framed.len() - 1 ==> framed[i] != 0u8,
        cobs_decoding(framed.drop_last()) == Some(serialized),
        0 < framed.len() - 1 <= cap,
    ensures
        acc_frame(acc_feed_all(AccState { pending: Seq::empty(), overflow: false }, framed, cap))
            == Some(cobs_encoding(serialized)),
        cobs_decoding(cobs_encoding(serialized)) == Some(serialized),
{
    let body = cobs_encoding(serialized);
    assert(framed.drop_last() =~= body);
    lemma_acc_frame_roundtrip(body, cap);
}

/// A response the target frames is found whole by the host: where the
/// pending input starts with a zero-free encoded frame and its delimiter
/// (what the target's `rzcobs_encode` writes), the first delimiter is the one
/// right after the frame, so `recv_step` completes the frame with exactly
/// the encoded bytes.
pub proof fn lemma_response_frame_found(encoded: Seq<u8>, rest: Seq<u8>)
    requires
        forall|i: int| 0 <= i < encoded.len() ==> encoded[i] != 0u8,
    ensures
        first_zero_from(encoded.push(0u8) + rest, 0) == Some(encoded.len()),
        (encoded.push(0u8) + rest).subrange(0, encoded.len() as int) == encoded,
{
    let s = encoded.push(0u8) + rest;
    lemma_first_zero_from(s, 0);
    assert(s[encoded.len() as int] == 0);
    match first_zero_from(s, 0) {
        Some(p) => {
            if p < encoded.len() {
                assert(s[p as int] == encoded[p as int]);
            }
        },
        None => {},
    }
    assert(s.subrange(0, encoded.len() as int) =~= encoded);
}

} // verus!
