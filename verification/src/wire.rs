//! The WebTransport wire messages used by the session handshakes, produced
//! and read through `web_transport_proto`, and the variable-length integer
//! format that frames them.
use vstd::prelude::*;
use web_transport_proto::{ConnectError, ConnectRequest, ConnectResponse, Frame, Settings, SettingsError};

verus! {

#[verifier::external_type_specification]
#[verifier::external_body]
pub struct ExUrl(url::Url);

/// The big-endian value of a byte sequence.
pub open spec fn be_value(s: Seq<u8>) -> nat
    decreases s.len(),
{
    if s.len() == 0 {
        0
    } else {
        be_value(s.drop_last()) * 256 + s.last() as nat
    }
}

/// The number of bytes a variable-length integer takes, read from the two
/// high bits of its first byte.
pub open spec fn varint_size(first: u8) -> nat {
    if first < 64 {
        1
    } else if first < 128 {
        2
    } else if first < 192 {
        4
    } else {
        8
    }
}

/// The variable-length integer at the start of `bytes`, or `None` when the
/// bytes end before it does.
pub open spec fn varint_decode(bytes: Seq<u8>) -> Option<u64> {
    if bytes.len() == 0 {
        None
    } else if bytes.len() < varint_size(bytes[0]) {
        None
    } else {
        Some(
            be_value(seq![(bytes[0] % 64) as u8] + bytes.subrange(1, varint_size(bytes[0]) as int)) as u64,
        )
    }
}

/// `bytes` is exactly one frame of type `typ`: the type byte, a
/// variable-length payload size and that many payload bytes.
pub open spec fn is_frame_of_type(bytes: Seq<u8>, typ: u8) -> bool {
    &&& bytes.len() >= 2
    &&& bytes[0] == typ
    &&& match varint_decode(bytes.subrange(1, bytes.len() as int)) {
        Some(size) => bytes.len() == 1 + varint_size(bytes[1]) + size,
        None => false,
    }
}

/// The outcome of reading a SETTINGS message.
#[derive(Clone, Copy, Debug, PartialEq, Eq, Structural)]
pub enum SettingsDecode {
    /// a complete message was read; the number of WebTransport sessions it allows
    Decoded(u64),
    /// the bytes end before the message does
    Incomplete,
    /// the bytes are not a SETTINGS message
    Invalid,
}

/// The outcome of reading a CONNECT request or response.
#[derive(Clone, Copy, Debug, PartialEq, Eq, Structural)]
pub enum ConnectDecode {
    Decoded,
    Incomplete,
    Invalid,
}

/// What `Settings::decode` followed by `Settings::supports_webtransport` makes of `bytes`.
pub uninterp spec fn settings_decoded(bytes: Seq<u8>) -> SettingsDecode;

/// What `ConnectRequest::decode` makes of `bytes`.
pub uninterp spec fn connect_request_decoded(bytes: Seq<u8>) -> ConnectDecode;

/// What `ConnectResponse::decode` makes of `bytes`.
pub uninterp spec fn connect_response_decoded(bytes: Seq<u8>) -> ConnectDecode;

/// Whether `url::Url::parse` accepts `text`.
pub uninterp spec fn url_parses(text: Seq<char>) -> bool;

/// The number of WebTransport sessions this library allows on a connection.
pub const WEBTRANSPORT_MAX_SESSIONS: u32 = 1;

/// The status a server answers an accepted CONNECT request with: 200 OK.
pub const CONNECT_OK_STATUS: u16 = 200;

/// The bytes of a SETTINGS message that enables WebTransport with at most
/// `max_sessions` sessions: the control stream type 0x00, the SETTINGS
/// frame type 0x04, and settings that read back as allowing that many
/// sessions; below 64 sessions, every setting value takes one byte and the
/// frame is 28 bytes long.
pub open spec fn webtransport_settings_for(bytes: Seq<u8>, max_sessions: u32) -> bool {
    &&& bytes.len() >= 3
    &&& bytes[0] == 0
    &&& bytes[1] == 4
    &&& settings_decoded(bytes) == SettingsDecode::Decoded(max_sessions as u64)
    &&& max_sessions < 64 ==> bytes.len() == 31 && bytes[2] == 28
}

/// The bytes of the SETTINGS message that this library sends.
pub open spec fn is_webtransport_settings(bytes: Seq<u8>) -> bool {
    webtransport_settings_for(bytes, WEBTRANSPORT_MAX_SESSIONS)
}

/// Calls `Frame::decode`.
///
/// Trusted: the frame type is the variable-length integer at the start of
/// the bytes, and decoding fails exactly when the bytes end first.
#[verifier::external_body]
pub(crate) fn decode_frame(bytes: &[u8]) -> (r: Option<u64>)
    ensures
        r == varint_decode(bytes@),
{
    let mut buf = bytes;
    match Frame::decode(&mut buf) {
        Ok(frame) => Some(frame.0.into_inner()),
        Err(_) => None,
    }
}

/// Calls `Frame::encode` on `Frame::WEBTRANSPORT`.
///
/// Trusted: the frame type 0x41 is written as the two-byte
/// variable-length integer 0x40 0x41.
#[verifier::external_body]
pub(crate) fn encode_webtransport_frame() -> (r: Vec<u8>)
    ensures
        r@ == seq![0x40u8, 0x41u8],
{
    let mut buf = Vec::new();
    Frame::WEBTRANSPORT.encode(&mut buf);
    buf
}

/// Calls `Settings::default`, `Settings::enable_webtransport(max_sessions)`
/// and `Settings::encode`.
///
/// Trusted: the message is the control stream type 0x00, the SETTINGS frame
/// type 0x04, its size and the six settings that enable WebTransport (in
/// the order a hash map gives them), and reading it back allows
/// `max_sessions` sessions; below 64 each value takes one byte, and the size
/// is 28. The order of the settings is not stated.
#[verifier::external_body]
pub(crate) fn encode_webtransport_settings(max_sessions: u32) -> (r: Vec<u8>)
    ensures
        webtransport_settings_for(r@, max_sessions),
{
    let mut settings = Settings::default();
    settings.enable_webtransport(max_sessions);
    let mut buf = Vec::new();
    settings.encode(&mut buf);
    buf
}

/// Calls `Settings::decode` and, on success, `Settings::supports_webtransport`.
///
/// Trusted: the result is a function of the bytes alone.
#[verifier::external_body]
pub(crate) fn decode_settings(bytes: &[u8]) -> (r: SettingsDecode)
    ensures
        r == settings_decoded(bytes@),
{
    let mut buf = bytes;
    match Settings::decode(&mut buf) {
        Ok(settings) => SettingsDecode::Decoded(settings.supports_webtransport()),
        Err(SettingsError::UnexpectedEnd) => SettingsDecode::Incomplete,
        Err(_) => SettingsDecode::Invalid,
    }
}

/// Calls `url::Url::parse`.
///
/// Trusted: whether parsing succeeds is a function of the text alone.
#[verifier::external_body]
pub(crate) fn parse_url(text: &str) -> (r: Option<url::Url>)
    ensures
        r is Some <==> url_parses(text@),
{
    url::Url::parse(text).ok()
}

/// Calls `ConnectRequest::encode` for a request to `url`.
///
/// Trusted: the request is one HEADERS frame (type 0x01). Its header block
/// is written in the order a hash map gives; its bytes are not stated.
#[verifier::external_body]
pub(crate) fn encode_connect_request(url: &url::Url) -> (r: Vec<u8>)
    ensures
        is_frame_of_type(r@, 1),
{
    let mut buf = Vec::new();
    ConnectRequest { url: url.clone() }.encode(&mut buf);
    buf
}

/// How many bytes with the top bit set end just before position `k`.
pub open spec fn high_run(bytes: Seq<u8>, k: int) -> nat
    decreases k,
{
    if k <= 0 || k > bytes.len() || bytes[k - 1] < 128 {
        0
    } else {
        high_run(bytes, k - 1) + 1
    }
}

/// No 9 bytes in a row of `bytes` have their top bit set.
pub open spec fn short_high_runs(bytes: Seq<u8>) -> bool {
    forall|k: int| 0 <= k <= bytes.len() ==> #[trigger] high_run(bytes, k) < 9
}

/// Whether no 9 bytes in a row of `bytes` have their top bit set.
pub fn high_runs_are_short(bytes: &[u8]) -> (r: bool)
    ensures
        r == short_high_runs(bytes@),
{
    let mut run: usize = 0;
    let mut k: usize = 0;
    while k < bytes.len()
        invariant
            k <= bytes@.len(),
            run == high_run(bytes@, k as int),
            forall|j: int| 0 <= j <= k ==> #[trigger] high_run(bytes@, j) < 9,
        decreases bytes@.len() - k,
    {
        if bytes[k] < 128 {
            run = 0;
        } else {
            run = run + 1;
        }
        k = k + 1;
        if run >= 9 {
            assert(high_run(bytes@, k as int) >= 9);
            return false;
        }
    }
    true
}

/// What a CONNECT request decoder makes of `bytes`: a header block whose
/// bytes have 9 or more top bits set in a row is refused as invalid.
pub open spec fn connect_request_judged(bytes: Seq<u8>) -> ConnectDecode {
    if short_high_runs(bytes) {
        connect_request_decoded(bytes)
    } else {
        ConnectDecode::Invalid
    }
}

/// What a CONNECT response decoder makes of `bytes`, refusing as
/// `connect_request_judged` does.
pub open spec fn connect_response_judged(bytes: Seq<u8>) -> ConnectDecode {
    if short_high_runs(bytes) {
        connect_response_decoded(bytes)
    } else {
        ConnectDecode::Invalid
    }
}

/// Judges a CONNECT request. Bytes with 9 or more top bits set in a row are
/// refused before they reach the decoder, whose prefix-integer sum would
/// overflow on a tenth continuation byte.
pub fn judge_connect_request(bytes: &[u8]) -> (r: ConnectDecode)
    ensures
        r == connect_request_judged(bytes@),
{
    if high_runs_are_short(bytes) {
        decode_connect_request(bytes)
    } else {
        ConnectDecode::Invalid
    }
}

/// Judges a CONNECT response, refusing as `judge_connect_request` does.
pub fn judge_connect_response(bytes: &[u8]) -> (r: ConnectDecode)
    ensures
        r == connect_response_judged(bytes@),
{
    if high_runs_are_short(bytes) {
        decode_connect_response(bytes)
    } else {
        ConnectDecode::Invalid
    }
}

/// Calls `ConnectRequest::decode`.
///
/// Trusted: the result is a function of the bytes alone. The header-block
/// decoder adds prefix-integer continuation bytes shifted by 7 more bits
/// each and reads the byte after each one whose top bit is set; with no 9
/// top bits set in a row it reads at most 9 such bytes (shifts up to 56),
/// so the sum stays below 2^64 and the decoder does not panic.
#[verifier::external_body]
pub(crate) fn decode_connect_request(bytes: &[u8]) -> (r: ConnectDecode)
    requires
        short_high_runs(bytes@),
    ensures
        r == connect_request_decoded(bytes@),
{
    let mut buf = bytes;
    match ConnectRequest::decode(&mut buf) {
        Ok(_) => ConnectDecode::Decoded,
        Err(ConnectError::UnexpectedEnd) => ConnectDecode::Incomplete,
        Err(_) => ConnectDecode::Invalid,
    }
}

/// `bytes` are a CONNECT response that encoding the status `status` gave.
pub closed spec fn is_connect_response(bytes: Seq<u8>, status: u16) -> bool {
    exists|v: Vec<u8>| v@ == bytes && #[trigger] call_ensures(encode_connect_response, (status,), v)
}

/// Calls `ConnectResponse::encode` for the status `status`.
///
/// Trusted: `StatusCode` takes the codes 100 to 999; the response is one
/// HEADERS frame (type 0x01). Its header block is written in the order a
/// hash map gives; its bytes are not stated.
#[verifier::external_body]
pub(crate) fn encode_connect_response(status: u16) -> (r: Vec<u8>)
    requires
        100 <= status <= 999,
    ensures
        is_frame_of_type(r@, 1),
{
    let mut buf = Vec::new();
    let code: Result<_, _> = status.try_into();
    match code {
        Ok(status) => ConnectResponse { status }.encode(&mut buf),
        Err(_) => {},
    }
    buf
}

/// The CONNECT response with status `status`: one HEADERS frame, made by
/// encoding that status.
pub(crate) fn connect_response(status: u16) -> (r: Vec<u8>)
    requires
        100 <= status <= 999,
    ensures
        is_frame_of_type(r@, 1),
        is_connect_response(r@, status),
{
    encode_connect_response(status)
}

/// Calls `ConnectResponse::decode`.
///
/// Trusted: the result is a function of the bytes alone; as for
/// `decode_connect_request`, `short_high_runs` keeps the header-block
/// decoder from overflowing.
#[verifier::external_body]
pub(crate) fn decode_connect_response(bytes: &[u8]) -> (r: ConnectDecode)
    requires
        short_high_runs(bytes@),
    ensures
        r == connect_response_decoded(bytes@),
{
    let mut buf = bytes;
    match ConnectResponse::decode(&mut buf) {
        Ok(_) => ConnectDecode::Decoded,
        Err(ConnectError::UnexpectedEnd) => ConnectDecode::Incomplete,
        Err(_) => ConnectDecode::Invalid,
    }
}

} // verus!
