//! Wire-level types shared by the host and the target.
//!
//! Packets carry postcard-serialized values; this module holds the plain
//! shapes of those packets and the numeric codes that identify packet kinds
//! and response outcomes.

use vstd::prelude::*;
use vstd::utf8::encode_utf8;
use crate::json_decode::{
    lemma_string_roundtrip, lemma_varint_bounds, lemma_varint_roundtrip, take_string, take_varint,
};
use crate::postcard_wire::{str_encoding, varint};

verus! {

/// Maximum payload size in bytes. Both sides enforce this limit.
pub const MAX_PAYLOAD_SIZE: usize = 256;

/// Reserved command ID for the framing/throughput metrics snapshot.
pub const CMD_ID_METRICS: u16 = 0xFFFE;

/// Wire-level packet kind: a call (request) or a reply (response).
#[derive(Debug, Clone, Copy, PartialEq, Eq, Structural)]
pub enum PacketType {
    /// A call from host to target.
    Request,
    /// A reply from target to host.
    Response,
}

/// The numeric code of a packet kind.
pub open spec fn packet_type_code(p: PacketType) -> u8 {
    match p {
        PacketType::Request => 0x01u8,
        PacketType::Response => 0x02u8,
    }
}

impl PacketType {
    /// The numeric code of this packet kind (`Request` = 0x01, `Response` = 0x02).
    pub fn to_u8(self) -> (b: u8)
        ensures
            b == packet_type_code(self),
    {
        match self {
            PacketType::Request => 0x01,
            PacketType::Response => 0x02,
        }
    }

    /// The packet kind with numeric code `b`, if there is one.
    pub fn from_u8(b: u8) -> (r: Option<PacketType>)
        ensures
            r matches Some(p) ==> packet_type_code(p) == b,
            r is None <==> (b != 0x01 && b != 0x02),
    {
        if b == 0x01 {
            Some(PacketType::Request)
        } else if b == 0x02 {
            Some(PacketType::Response)
        } else {
            None
        }
    }
}

/// Outcome carried inside a [`Response`].
#[derive(Debug, Clone, Copy, PartialEq, Eq, Structural)]
pub enum ResponseStatus {
    /// The command executed successfully.
    Success,
    /// The command returned an application-defined error.
    AppError,
    /// A system-level error occurred (unknown command, malformed arguments, ...).
    SystemError,
}

/// The numeric code of a response status.
pub open spec fn response_status_code(s: ResponseStatus) -> u8 {
    match s {
        ResponseStatus::Success => 0x00u8,
        ResponseStatus::AppError => 0x01u8,
        ResponseStatus::SystemError => 0x02u8,
    }
}

impl ResponseStatus {
    /// The numeric code of this status (`Ok` = 0x00, `AppError` = 0x01, `SystemError` = 0x02).
    pub fn to_u8(self) -> (b: u8)
        ensures
            b == response_status_code(self),
    {
        match self {
            ResponseStatus::Success => 0x00,
            ResponseStatus::AppError => 0x01,
            ResponseStatus::SystemError => 0x02,
        }
    }

    /// The status with numeric code `b`, if there is one.
    pub fn from_u8(b: u8) -> (r: Option<ResponseStatus>)
        ensures
            r matches Some(s) ==> response_status_code(s) == b,
            r is None <==> b > 0x02,
    {
        if b == 0x00 {
            Some(ResponseStatus::Success)
        } else if b == 0x01 {
            Some(ResponseStatus::AppError)
        } else if b == 0x02 {
            Some(ResponseStatus::SystemError)
        } else {
            None
        }
    }
}

/// An RPC call from host to target. `args` holds the postcard-serialized
/// argument tuple of the command named by `cmd_id`.
#[derive(Debug, Clone, Copy)]
pub struct Request<'a> {
    /// Always [`PacketType::Request`] on the wire.
    pub kind: PacketType,
    /// Sequence number matching a response to its call.
    pub seq_no: u16,
    /// Command identifier.
    pub cmd_id: u16,
    /// Serialized argument bytes.
    pub args: &'a [u8],
}

/// An RPC reply from target to host. On success `payload` holds the
/// serialized return value, otherwise a serialized error description.
#[derive(Debug, Clone, Copy)]
pub struct Response<'a> {
    /// Always [`PacketType::Response`] on the wire.
    pub kind: PacketType,
    /// Echoes the `seq_no` of the originating request.
    pub seq_no: u16,
    /// Execution outcome.
    pub status: ResponseStatus,
    /// Serialized return value or error payload.
    pub payload: &'a [u8],
}

/// One registered command as reported by the discovery protocol.
#[derive(Debug, Clone, Copy)]
pub struct DiscoveryEntry<'a> {
    /// Command ID.
    pub id: u16,
    /// Function name of the command.
    pub name: &'a str,
    /// Serialized schema of the argument tuple.
    pub args_schema: &'a [u8],
    /// Serialized schema of the return type.
    pub ret_schema: &'a [u8],
    /// Comma-separated argument names; empty for zero-argument commands.
    pub arg_names: &'a str,
}

/// Request payload of a paged discovery call.
#[derive(Debug, Clone, Copy, PartialEq, Eq, Structural)]
pub struct DiscoveryRequest {
    /// Index of the first entry wanted in the reply page.
    pub offset: u16,
}

/// Reply payload of a paged discovery call.
#[derive(Debug, Clone, Copy)]
pub struct DiscoveryPage<'a> {
    /// Total number of registered commands, across all pages.
    pub total: u16,
    /// Offset this page starts at (echoes the request).
    pub offset: u16,
    /// `varint(count)` followed by `count` serialized entries.
    pub entries: &'a [u8],
}

/// Payload of a response whose status is [`ResponseStatus::AppError`].
#[derive(Debug, Clone, Copy, PartialEq, Eq)]
pub struct AppErrorPayload<'a> {
    /// Application-defined error code; `0` means unspecified.
    pub code: u16,
    /// Human-readable error message.
    pub message: &'a str,
}

/// Per-direction framing metrics accumulated since the last reset.
#[derive(Debug, Clone, Copy, PartialEq, Eq, Structural)]
pub struct MetricsSnapshot {
    /// Total cycles spent encoding upstream frames.
    pub encode_cycles: u64,
    /// Total cycles spent decoding downstream frames.
    pub decode_cycles: u64,
    /// Total payload bytes fed to the encoder.
    pub encoded_bytes: u32,
    /// Total payload bytes produced by the decoder.
    pub decoded_bytes: u32,
    /// Number of complete round trips counted.
    pub sample_count: u32,
}

impl Default for MetricsSnapshot {
    fn default() -> (r: Self)
        ensures
            r == (MetricsSnapshot {
                encode_cycles: 0,
                decode_cycles: 0,
                encoded_bytes: 0,
                decoded_bytes: 0,
                sample_count: 0,
            }),
    {
        MetricsSnapshot {
            encode_cycles: 0,
            decode_cycles: 0,
            encoded_bytes: 0,
            decoded_bytes: 0,
            sample_count: 0,
        }
    }
}

/// Errors that arise during wire-level encoding or decoding.
#[derive(Debug, Clone, PartialEq, Eq)]
pub enum WireError {
    /// The payload or frame does not fit the destination.
    PayloadTooLarge,
    /// postcard serialization or deserialization failed, with its cause.
    SerdeError(postcard::Error),
    /// A reserved or unknown packet type discriminant was received.
    UnknownPacketType,
    /// The frame is malformed.
    FramingError,
}

#[verifier::external_type_specification]
#[verifier::external_body]
pub struct ExPostcardError(postcard::Error);

/// `Clone` of `postcard::Error`, derived on an enum of unit variants: the
/// clone equals the value cloned.
pub assume_specification[ <postcard::Error as Clone>::clone ](e: &postcard::Error) -> (r:
    postcard::Error)
    ensures
        r == *e,
;

impl From<postcard::Error> for WireError {
    fn from(e: postcard::Error) -> (r: Self) {
        WireError::SerdeError(e)
    }
}

impl vstd::std_specs::convert::FromSpecImpl<postcard::Error> for WireError {
    open spec fn obeys_from_spec() -> bool {
        true
    }

    open spec fn from_spec(e: postcard::Error) -> WireError {
        WireError::SerdeError(e)
    }
}

/// The bytes postcard writes for an application error with `code` and
/// `message` (the payload's fields in order): the code as a varint, then the
/// message's UTF-8 length as a varint and its UTF-8 bytes.
pub open spec fn app_error_encoding(code: u16, message: Seq<char>) -> Seq<u8> {
    varint(code as nat) + str_encoding(message)
}

/// What postcard reads from `bytes` as an application error payload, or
/// `None` where it reports an error: the code as a `u16` varint, then the
/// message as a `usize` varint length followed by that many bytes of UTF-8.
/// Bytes after the message are not read.
pub open spec fn app_error_decoding(bytes: Seq<u8>) -> Option<(u16, Seq<char>)> {
    match take_varint(bytes, 0, 3, 3) {
        Ok((code, p)) => match take_string(bytes, p) {
            Ok((message, _)) => Some((code as u16, message)),
            Err(_) => None,
        },
        Err(_) => None,
    }
}

/// Postcard reads an application error payload back from the bytes it
/// writes for it, where the message's UTF-8 length fits in 64 bits.
pub proof fn lemma_app_error_roundtrip(code: u16, message: Seq<char>)
    requires
        encode_utf8(message).len() < 0x1_0000_0000_0000_0000,
    ensures
        app_error_decoding(app_error_encoding(code, message)) == Some((code, message)),
{
    let bytes = app_error_encoding(code, message);
    let empty = Seq::<u8>::empty();
    lemma_varint_bounds();
    assert(bytes =~= empty + varint(code as nat) + str_encoding(message));
    lemma_varint_roundtrip(code as nat, 3, 3, empty, str_encoding(message));
    assert(bytes =~= varint(code as nat) + str_encoding(message) + empty);
    lemma_string_roundtrip(message, varint(code as nat), empty);
}

/// `postcard::to_slice` on the payload's fields: postcard writes a `u16` as
/// its varint and a `&str` as the varint of its UTF-8 length followed by the
/// bytes; the call succeeds exactly when that encoding fits `out`, and leaves
/// it at the front of `out`.
#[verifier::external_body]
fn postcard_encode_app_error(code: u16, message: &str, out: &mut [u8]) -> (r: Result<
    usize,
    postcard::Error,
>)
    ensures
        final(out)@.len() == old(out)@.len(),
        r is Ok <==> app_error_encoding(code, message@).len() <= old(out)@.len(),
        r matches Ok(n) ==> n == app_error_encoding(code, message@).len() && final(out)@.subrange(
            0,
            n as int,
        ) == app_error_encoding(code, message@),
{
    postcard::to_slice(&(code, message), out).map(|written| written.len())
}

/// `postcard::from_bytes` of the payload's fields, borrowing the message.
#[verifier::external_body]
fn postcard_decode_app_error(bytes: &[u8]) -> (r: Result<(u16, &str), postcard::Error>)
    ensures
        r is Ok <==> app_error_decoding(bytes@) is Some,
        r matches Ok((code, message)) ==> app_error_decoding(bytes@) == Some((code, message@)),
{
    postcard::from_bytes::<(u16, &str)>(bytes)
}

/// Encode an application error payload into `out`, returning the number of
/// bytes written; `SerdeError` when it does not fit.
pub fn encode_app_error(payload: &AppErrorPayload<'_>, out: &mut [u8]) -> (r: Result<
    usize,
    WireError,
>)
    ensures
        final(out)@.len() == old(out)@.len(),
        r is Ok <==> app_error_encoding(payload.code, payload.message@).len() <= old(out)@.len(),
        r matches Err(e) ==> e is SerdeError,
        r matches Ok(n) ==> n == app_error_encoding(payload.code, payload.message@).len()
            && n <= old(out)@.len(),
        r matches Ok(n) ==> final(out)@.subrange(0, n as int) == app_error_encoding(
            payload.code,
            payload.message@,
        ),
        r matches Ok(n) ==> app_error_decoding(final(out)@.subrange(0, n as int)) == Some(
            (payload.code, payload.message@),
        ),
{
    match postcard_encode_app_error(payload.code, payload.message, out) {
        Ok(n) => {
            proof {
                let m = payload.message@;
                assert(app_error_encoding(payload.code, m) =~= varint(payload.code as nat)
                    + varint(encode_utf8(m).len()) + encode_utf8(m));
                lemma_app_error_roundtrip(payload.code, m);
            }
            Ok(n)
        },
        Err(e) => Err(WireError::SerdeError(e)),
    }
}

/// Decode an application error payload from `bytes`, borrowing the message;
/// `SerdeError` when the bytes are malformed.
pub fn decode_app_error(bytes: &[u8]) -> (r: Result<AppErrorPayload<'_>, WireError>)
    ensures
        r is Ok <==> app_error_decoding(bytes@) is Some,
        r matches Err(e) ==> e is SerdeError,
        r matches Ok(p) ==> app_error_decoding(bytes@) == Some((p.code, p.message@)),
{
    match postcard_decode_app_error(bytes) {
        Ok((code, message)) => Ok(AppErrorPayload { code, message }),
        Err(e) => Err(WireError::SerdeError(e)),
    }
}

} // verus!
