//! How a connection starts, and how its messages are told apart.

use bytes::BytesMut;
use vstd::prelude::*;
use vstd::slice::slice_subrange;
use vstd::utf8::*;

use super::buffer;
use super::buffer::clear;
use super::cursor;
use super::cursor::MessageCursor;
use super::messages;
use super::messages::{
    push_authentication_ok, push_backend_key_data, push_parameter_status, push_ready_for_query,
    READY_FOR_QUERY_TAG,
};
use crate::byte_order;
use crate::encoding::utf8_text;
use crate::name_map::NameMap;

verus! {

/// The code of a request to encrypt the connection.
pub const SSL_REQUEST_CODE: i32 = 80_877_103;

/// The code of a request to cancel what another connection does.
pub const CANCEL_REQUEST_CODE: i32 = 80_877_102;

/// The version of the protocol that the server speaks.
pub const SUPPORTED_PROTOCOL_MAJOR: i32 = 3;

/// Why a connection does not start.
#[derive(Clone, Copy, Debug, PartialEq, Eq, Structural)]
pub enum StartupError {
    /// The first packet is too short for a code.
    InvalidLength(i32),
    /// Requests to cancel are not served.
    CancelUnsupported,
    /// The client speaks another version of the protocol.
    UnsupportedProtocol(i32),
    /// The name of a setting is not valid UTF-8.
    KeyNotUtf8,
    /// The value of a setting is not valid UTF-8.
    ValueNotUtf8,
}

/// What the first packet of a connection asks for.
pub enum StartupStep {
    /// The request to encrypt is declined; another first packet follows.
    DeclineEncryption,
    /// The connection starts with these settings of the client.
    Start(NameMap<String>),
}

/// The number in the first four bytes.
pub open spec fn code_at(bytes: Seq<u8>) -> int {
    byte_order::signed32(byte_order::be4(bytes))
}

/// The length of the first packet behind its length: at least a code.
pub fn startup_body_length(header: &[u8]) -> (result: Result<usize, StartupError>)
    requires
        header@.len() >= 4,
    ensures
        match result {
            Ok(length) => code_at(header@) >= 8 && length == code_at(header@) - 4,
            Err(error) => code_at(header@) < 8 && error == StartupError::InvalidLength(
                code_at(header@) as i32,
            ),
        },
{
    let mut cursor = MessageCursor::new(header);
    match cursor.read_i32() {
        Ok(length) => if length < 8 {
            Err(StartupError::InvalidLength(length))
        } else {
            Ok((length - 4) as usize)
        },
        Err(_) => Err(StartupError::InvalidLength(0)),
    }
}

/// The end of the part that starts at `from`: the next zero, or the end of the bytes.
pub open spec fn part_end(bytes: Seq<u8>, from: int) -> int {
    match cursor::zero_from(bytes, from) {
        Some(end) => end,
        None => bytes.len() as int,
    }
}

/// A zero that is found lies behind `from`.
proof fn lemma_part_end(bytes: Seq<u8>, from: int)
    requires
        0 <= from <= bytes.len(),
    ensures
        from <= part_end(bytes, from) <= bytes.len(),
    decreases bytes.len() - from,
{
    if from < bytes.len() && bytes[from] != 0 {
        lemma_part_end(bytes, from + 1);
    }
}

/// Where the value of a setting starts and ends whose name ends at `key_end`.
pub open spec fn value_range(bytes: Seq<u8>, key_end: int) -> (int, int) {
    if key_end >= bytes.len() {
        (bytes.len() as int, bytes.len() as int)
    } else {
        (key_end + 1, part_end(bytes, key_end + 1))
    }
}

/// The settings from position `from` on, beside those that are known: names and values take turns
/// with zeros between them, and an empty name ends them.
pub open spec fn settings_from(
    bytes: Seq<u8>,
    from: int,
    known: Map<Seq<char>, Seq<char>>,
) -> Result<
    Map<Seq<char>, Seq<char>>,
    StartupError,
>
    decreases bytes.len() + 1 - from,
    via settings_from_ends
{
    if from < 0 || from > bytes.len() {
        Ok(known)
    } else {
        let key_end = part_end(bytes, from);
        let key = bytes.subrange(from, key_end);
        let (value_start, value_end) = value_range(bytes, key_end);
        let value = bytes.subrange(value_start, value_end);
        if key_end == from {
            Ok(known)
        } else if !valid_utf8(key) {
            Err(StartupError::KeyNotUtf8)
        } else if !valid_utf8(value) {
            Err(StartupError::ValueNotUtf8)
        } else {
            settings_from(
                bytes,
                value_end + 1,
                known.insert(decode_utf8(key), decode_utf8(value)),
            )
        }
    }
}

#[via_fn]
proof fn settings_from_ends(bytes: Seq<u8>, from: int, known: Map<Seq<char>, Seq<char>>) {
    if 0 <= from <= bytes.len() {
        lemma_part_end(bytes, from);
        let key_end = part_end(bytes, from);
        if key_end < bytes.len() {
            lemma_part_end(bytes, key_end + 1);
        }
    }
}

/// The settings of a client.
pub open spec fn setting_texts(settings: Map<Seq<char>, String>) -> Map<Seq<char>, Seq<char>> {
    settings.map_values(|value: String| value@)
}

/// Settings or an error as mathematical values.
pub open spec fn settings_outcome(result: Result<NameMap<String>, StartupError>) -> Result<
    Map<Seq<char>, Seq<char>>,
    StartupError,
> {
    match result {
        Ok(settings) => Ok(setting_texts(settings@)),
        Err(error) => Err(error),
    }
}

/// The end of the part that starts at `from`.
fn end_of_part(bytes: &[u8], from: usize) -> (end: usize)
    requires
        from <= bytes@.len(),
    ensures
        end == part_end(bytes@, from as int),
        from <= end <= bytes@.len(),
{
    let mut end: usize = from;
    while end < bytes.len() && bytes[end] != 0
        invariant
            from <= end <= bytes@.len(),
            cursor::zero_from(bytes@, from as int) == cursor::zero_from(bytes@, end as int),
        decreases bytes@.len() - end,
    {
        end = end + 1;
    }
    end
}

/// Reads the settings of a client.
pub fn parse_startup_parameters(bytes: &[u8]) -> (result: Result<NameMap<String>, StartupError>)
    ensures
        settings_outcome(result) == settings_from(bytes@, 0, Map::empty()),
{
    let mut settings: NameMap<String> = NameMap::new();
    let mut from: usize = 0;
    assert(setting_texts(settings@) =~= Map::empty());
    loop
        invariant
            from <= bytes@.len(),
            settings_from(bytes@, 0, Map::empty()) == settings_from(
                bytes@,
                from as int,
                setting_texts(settings@),
            ),
        decreases bytes@.len() + 1 - from,
    {
        let ghost known = setting_texts(settings@);
        let key_end: usize = end_of_part(bytes, from);
        if key_end == from {
            return Ok(settings);
        }
        let value_start: usize = if key_end >= bytes.len() {
            bytes.len()
        } else {
            key_end + 1
        };
        let value_end: usize = end_of_part(bytes, value_start);
        assert((value_start as int, value_end as int) == value_range(bytes@, key_end as int));
        let key = match utf8_text(slice_subrange(bytes, from, key_end)) {
            Some(key) => key,
            None => {
                return Err(StartupError::KeyNotUtf8);
            },
        };
        let value = match utf8_text(slice_subrange(bytes, value_start, value_end)) {
            Some(value) => value,
            None => {
                return Err(StartupError::ValueNotUtf8);
            },
        };
        let ghost added = known.insert(key@, value@);
        settings.insert(key, value);
        assert(setting_texts(settings@) =~= added);
        if value_end >= bytes.len() {
            assert(settings_from(bytes@, value_end + 1, added) == Ok::<
                Map<Seq<char>, Seq<char>>,
                StartupError,
            >(added));
            return Ok(settings);
        }
        from = value_end + 1;
    }
}

/// What the first packet of a connection asks for, as mathematical values.
pub enum StartupView {
    DeclineEncryption,
    Start(Map<Seq<char>, Seq<char>>),
    Refused(StartupError),
}

/// What the first packet of a connection asks for.
pub open spec fn startup_step(body: Seq<u8>) -> StartupView {
    let code = code_at(body);
    if code == SSL_REQUEST_CODE {
        StartupView::DeclineEncryption
    } else if code == CANCEL_REQUEST_CODE {
        StartupView::Refused(StartupError::CancelUnsupported)
    } else if code / 0x1_0000 != SUPPORTED_PROTOCOL_MAJOR {
        StartupView::Refused(StartupError::UnsupportedProtocol(code as i32))
    } else {
        match settings_from(body.skip(4), 0, Map::empty()) {
            Ok(settings) => StartupView::Start(settings),
            Err(error) => StartupView::Refused(error),
        }
    }
}

/// A step as mathematical values.
pub open spec fn step_outcome(result: Result<StartupStep, StartupError>) -> StartupView {
    match result {
        Ok(StartupStep::DeclineEncryption) => StartupView::DeclineEncryption,
        Ok(StartupStep::Start(settings)) => StartupView::Start(setting_texts(settings@)),
        Err(error) => StartupView::Refused(error),
    }
}

/// Reads the first packet of a connection behind its length.
pub fn read_startup_message(body: &[u8]) -> (result: Result<StartupStep, StartupError>)
    requires
        body@.len() >= 4,
    ensures
        step_outcome(result) == startup_step(body@),
{
    let mut cursor = MessageCursor::new(body);
    let code: i32 = match cursor.read_i32() {
        Ok(code) => code,
        Err(_) => 0,
    };
    assert(code == code_at(body@));
    if code == SSL_REQUEST_CODE {
        return Ok(StartupStep::DeclineEncryption);
    }
    if code == CANCEL_REQUEST_CODE {
        return Err(StartupError::CancelUnsupported);
    }
    if code < 0x3_0000 || code >= 0x4_0000 {
        return Err(StartupError::UnsupportedProtocol(code));
    }
    let rest = slice_subrange(body, 4, body.len());
    assert(rest@ =~= body@.skip(4));
    match parse_startup_parameters(rest) {
        Ok(settings) => Ok(StartupStep::Start(settings)),
        Err(error) => Err(error),
    }
}

/// The process and key of a connection, from numbers that were given to no other.
pub fn backend_key(process_number: u32, secret_number: u32) -> (key: (i32, i32))
    ensures
        key.0 == process_number as int % 0x8000_0000,
        key.1 == secret_number as int % 0x8000_0000,
{
    ((process_number % 0x8000_0000) as i32, (secret_number % 0x8000_0000) as i32)
}

/// The messages that let a client in.
pub open spec fn startup_responses(process_id: i32, secret_key: i32) -> Seq<u8> {
    messages::message(0x52, messages::int4(0)) + messages::message(
        0x53,
        messages::cstr("server_version"@) + messages::cstr("16.0 (Floe)"@),
    ) + messages::message(
        0x53,
        messages::cstr("client_encoding"@) + messages::cstr("UTF8"@),
    ) + messages::message(
        0x53,
        messages::cstr("DateStyle"@) + messages::cstr("ISO, MDY"@),
    ) + messages::message(
        0x53,
        messages::cstr("TimeZone"@) + messages::cstr("UTC"@),
    ) + messages::message(
        0x4B,
        messages::int4(process_id as int) + messages::int4(secret_key as int),
    ) + messages::message(READY_FOR_QUERY_TAG, seq![0x49u8])
}

/// ASCII texts are as short in bytes as in characters.
proof fn lemma_short(value: Seq<char>)
    requires
        value.len() < 100,
        is_ascii_chars(value),
    ensures
        encode_utf8(value).len() < 100,
{
    is_ascii_chars_encode_utf8(value);
}

/// Fills the buffer with the messages that let a client in.
pub fn push_startup_responses(buf: &mut BytesMut, process_id: i32, secret_key: i32)
    ensures
        buffer::buffered(*final(buf)) == startup_responses(process_id, secret_key),
{
    proof {
        reveal_strlit("server_version");
        reveal_strlit("16.0 (Floe)");
        reveal_strlit("client_encoding");
        reveal_strlit("UTF8");
        reveal_strlit("DateStyle");
        reveal_strlit("ISO, MDY");
        reveal_strlit("TimeZone");
        reveal_strlit("UTC");
        lemma_short("server_version"@);
        lemma_short("16.0 (Floe)"@);
        lemma_short("client_encoding"@);
        lemma_short("UTF8"@);
        lemma_short("DateStyle"@);
        lemma_short("ISO, MDY"@);
        lemma_short("TimeZone"@);
        lemma_short("UTC"@);
    }
    clear(buf);
    push_authentication_ok(buf);
    assert(buffer::buffered(*buf) =~= messages::message(0x52, messages::int4(0)));
    push_parameter_status(buf, "server_version", "16.0 (Floe)");
    push_parameter_status(buf, "client_encoding", "UTF8");
    push_parameter_status(buf, "DateStyle", "ISO, MDY");
    push_parameter_status(buf, "TimeZone", "UTC");
    push_backend_key_data(buf, process_id, secret_key);
    push_ready_for_query(buf, 0x49);
}

/// What a message asks for, by its tag.
#[derive(Clone, Copy, Debug, PartialEq, Eq, Structural)]
pub enum RequestKind {
    Terminate,
    Sync,
    Parse,
    Bind,
    Describe,
    Execute,
    Flush,
    Close,
    Ignored,
}

/// What a message with a tag asks for.
pub open spec fn kind_of(tag: u8) -> RequestKind {
    if tag == 0x58 {
        RequestKind::Terminate
    } else if tag == 0x53 {
        RequestKind::Sync
    } else if tag == 0x50 {
        RequestKind::Parse
    } else if tag == 0x42 {
        RequestKind::Bind
    } else if tag == 0x44 {
        RequestKind::Describe
    } else if tag == 0x45 {
        RequestKind::Execute
    } else if tag == 0x48 {
        RequestKind::Flush
    } else if tag == 0x43 {
        RequestKind::Close
    } else {
        RequestKind::Ignored
    }
}

/// Tells what a message asks for by its tag.
pub fn dispatch_message(tag: u8) -> (kind: RequestKind)
    ensures
        kind == kind_of(tag),
{
    match tag {
        0x58 => RequestKind::Terminate,
        0x53 => RequestKind::Sync,
        0x50 => RequestKind::Parse,
        0x42 => RequestKind::Bind,
        0x44 => RequestKind::Describe,
        0x45 => RequestKind::Execute,
        0x48 => RequestKind::Flush,
        0x43 => RequestKind::Close,
        _ => RequestKind::Ignored,
    }
}

/// The tag of a message and the length of its body, or the length where it is too short.
pub fn read_message_header(header: &[u8]) -> (result: Result<(u8, usize), i32>)
    requires
        header@.len() >= 5,
    ensures
        ({
            let length = code_at(header@.skip(1));
            match result {
                Ok((tag, body)) => length >= 4 && tag == header@[0] && body == length - 4,
                Err(found) => length < 4 && found == length,
            }
        }),
{
    let mut cursor = MessageCursor::new(header);
    let tag: u8 = match cursor.read_u8() {
        Ok(tag) => tag,
        Err(_) => 0,
    };
    let length: i32 = match cursor.read_i32() {
        Ok(length) => length,
        Err(_) => 0,
    };
    if length < 4 {
        return Err(length);
    }
    Ok((tag, (length - 4) as usize))
}

/// A message tells where it ends: its tag and length are read back from its first bytes, and as
/// many bytes follow them as the length tells.
pub proof fn law_message_is_framed(tag: u8, body: Seq<u8>, rest: Seq<u8>)
    requires
        body.len() + 4 <= i32::MAX,
    ensures
        ({
            let sent = messages::message(tag, body) + rest;
            &&& sent[0] == tag
            &&& code_at(sent.skip(1)) == body.len() + 4
            &&& sent.subrange(5, (5 + body.len()) as int) == body
            &&& sent.skip((5 + body.len()) as int) == rest
        }),
{
    let length = byte_order::be4_bytes(body.len() + 4);
    byte_order::lemma_be4_round_trip(body.len() + 4);
    let sent = messages::message(tag, body) + rest;
    assert((body.len() + 4) % 0x1_0000_0000 == body.len() + 4);
    assert(sent.skip(1)[0] == length[0]);
    assert(sent.skip(1)[1] == length[1]);
    assert(sent.skip(1)[2] == length[2]);
    assert(sent.skip(1)[3] == length[3]);
    assert(sent.skip(1).skip(2)[0] == length.skip(2)[0]);
    assert(sent.skip(1).skip(2)[1] == length.skip(2)[1]);
    assert(sent.subrange(5, (5 + body.len()) as int) =~= body);
    assert(sent.skip((5 + body.len()) as int) =~= rest);
}

/// A setting that a client wrote is read: its name and its value.
#[verifier::rlimit(40)]
pub proof fn law_setting_is_read_back(
    before: Seq<u8>,
    key: Seq<char>,
    value: Seq<char>,
    rest: Seq<u8>,
    known: Map<Seq<char>, Seq<char>>,
)
    requires
        key.len() > 0,
        !encode_utf8(key).contains(0u8),
        !encode_utf8(value).contains(0u8),
    ensures
        ({
            let setting = messages::cstr(key) + messages::cstr(value);
            settings_from(before + setting + rest, before.len() as int, known) == settings_from(
                before + setting + rest,
                (before.len() + setting.len()) as int,
                known.insert(key, value),
            )
        }),
{
    broadcast use {encode_utf8_valid_utf8, encode_utf8_decode_utf8};

    let bytes = before + (messages::cstr(key) + messages::cstr(value)) + rest;
    let from = before.len() as int;
    let key_end = from + encode_utf8(key).len();
    let value_end = key_end + 1 + encode_utf8(value).len();
    encode_utf8_decode_utf8(key);
    if encode_utf8(key).len() == 0 {
        assert(encode_utf8(key) =~= encode_utf8(Seq::empty()));
        encode_utf8_decode_utf8(Seq::empty());
        assert(key =~= Seq::empty());
    }
    assert forall|i: int| from <= i < key_end implies #[trigger] bytes[i] != 0 by {
        assert(bytes[i] == encode_utf8(key)[i - from]);
        assert(encode_utf8(key).contains(encode_utf8(key)[i - from]));
    }
    assert forall|i: int| key_end + 1 <= i < value_end implies #[trigger] bytes[i] != 0 by {
        assert(bytes[i] == encode_utf8(value)[i - key_end - 1]);
        assert(encode_utf8(value).contains(encode_utf8(value)[i - key_end - 1]));
    }
    assert(bytes[key_end] == 0);
    assert(bytes[value_end] == 0);
    lemma_zero_at(bytes, from, key_end);
    lemma_zero_at(bytes, key_end + 1, value_end);
    assert(bytes.subrange(from, key_end) =~= encode_utf8(key));
    assert(bytes.subrange(key_end + 1, value_end) =~= encode_utf8(value));
}

proof fn lemma_zero_at(bytes: Seq<u8>, from: int, at: int)
    requires
        0 <= from <= at < bytes.len(),
        bytes[at] == 0,
        forall|i: int| from <= i < at ==> #[trigger] bytes[i] != 0,
    ensures
        cursor::zero_from(bytes, from) == Some(at),
    decreases at - from,
{
    if from < at {
        assert(bytes[from] != 0);
        lemma_zero_at(bytes, from + 1, at);
    }
}

/// Settings end at an empty name, and where nothing follows.
pub proof fn law_settings_end(
    before: Seq<u8>,
    rest: Seq<u8>,
    known: Map<Seq<char>, Seq<char>>,
)
    ensures
        settings_from(before + seq![0u8] + rest, before.len() as int, known) == Ok::<
            Map<Seq<char>, Seq<char>>,
            StartupError,
        >(known),
        settings_from(before, before.len() as int, known) == Ok::<
            Map<Seq<char>, Seq<char>>,
            StartupError,
        >(known),
{
    let bytes = before + seq![0u8] + rest;
    assert(bytes[before.len() as int] == 0);
    lemma_zero_at(bytes, before.len() as int, before.len() as int);
}

/// What the first packet of a client leads to, by its code: a client that asks for encryption is
/// told no and asked again, one that wants to cancel and one of another version is refused, and
/// one of the third version starts with its settings.
pub proof fn law_first_packet(code: i32, rest: Seq<u8>)
    ensures
        ({
            let step = startup_step(messages::int4(code as int) + rest);
            &&& step is DeclineEncryption <==> code == 80_877_103
            &&& code == 80_877_102 ==> step == StartupView::Refused(
                StartupError::CancelUnsupported,
            )
            &&& 0x3_0000 <= code < 0x4_0000 ==> match settings_from(rest, 0, Map::empty()) {
                Ok(settings) => step == StartupView::Start(settings),
                Err(error) => step == StartupView::Refused(error),
            }
            &&& !(0x3_0000 <= code < 0x4_0000) && code != 80_877_102 && code != 80_877_103
                ==> step == StartupView::Refused(StartupError::UnsupportedProtocol(code))
        }),
{
    let pattern = byte_order::unsigned32(code as int);
    let written = messages::int4(code as int);
    let body = written + rest;
    byte_order::lemma_be4_round_trip(pattern);
    assert(body[0] == written[0]);
    assert(body[1] == written[1]);
    assert(body.skip(2)[0] == written.skip(2)[0]);
    assert(body.skip(2)[1] == written.skip(2)[1]);
    assert(body.skip(4) =~= rest);
    assert(code_at(body) == code);
}

/// Each kind of request has one letter, and what has another one is not looked at.
pub proof fn law_letters_of_requests(tag: u8)
    ensures
        kind_of(tag) is Parse <==> tag == 'P' as u8,
        kind_of(tag) is Bind <==> tag == 'B' as u8,
        kind_of(tag) is Describe <==> tag == 'D' as u8,
        kind_of(tag) is Execute <==> tag == 'E' as u8,
        kind_of(tag) is Close <==> tag == 'C' as u8,
        kind_of(tag) is Flush <==> tag == 'H' as u8,
        kind_of(tag) is Sync <==> tag == 'S' as u8,
        kind_of(tag) is Terminate <==> tag == 'X' as u8,
{
}

/// A client that is let in is told so first, and last that the server is ready; just before that it
/// is told the numbers by which it can be found again.
pub proof fn law_client_is_let_in(process_id: i32, secret_key: i32)
    ensures
        ({
            let sent = startup_responses(process_id, secret_key);
            let n = sent.len() as int;
            &&& n >= 28
            &&& sent.take(9) == seq!['R' as u8, 0u8, 0u8, 0u8, 8u8, 0u8, 0u8, 0u8, 0u8]
            &&& sent.skip(n - 6) == seq!['Z' as u8, 0u8, 0u8, 0u8, 5u8, 'I' as u8]
            &&& sent.subrange(n - 19, n - 14) == seq!['K' as u8, 0u8, 0u8, 0u8, 12u8]
            &&& sent.subrange(n - 14, n - 10) == messages::int4(process_id as int)
            &&& sent.subrange(n - 10, n - 6) == messages::int4(secret_key as int)
        }),
{
    let first = messages::message(0x52, messages::int4(0));
    let version = messages::message(
        0x53,
        messages::cstr("server_version"@) + messages::cstr("16.0 (Floe)"@),
    );
    let encoding = messages::message(
        0x53,
        messages::cstr("client_encoding"@) + messages::cstr("UTF8"@),
    );
    let dates = messages::message(
        0x53,
        messages::cstr("DateStyle"@) + messages::cstr("ISO, MDY"@),
    );
    let zone = messages::message(
        0x53,
        messages::cstr("TimeZone"@) + messages::cstr("UTC"@),
    );
    lemma_first_answer();
    lemma_answers(
        first,
        version,
        encoding,
        dates,
        zone,
        messages::int4(process_id as int),
        messages::int4(secret_key as int),
    );
}

proof fn lemma_first_answer()
    ensures
        messages::message(0x52, messages::int4(0)) == seq![
            'R' as u8,
            0u8,
            0u8,
            0u8,
            8u8,
            0u8,
            0u8,
            0u8,
            0u8,
        ],
{
    assert(messages::message(0x52, messages::int4(0)) =~= seq![
        'R' as u8,
        0u8,
        0u8,
        0u8,
        8u8,
        0u8,
        0u8,
        0u8,
        0u8,
    ]);
}

/// Answers of which the first and the last two are known.
proof fn lemma_answers(
    first: Seq<u8>,
    b: Seq<u8>,
    c: Seq<u8>,
    d: Seq<u8>,
    e: Seq<u8>,
    process: Seq<u8>,
    secret: Seq<u8>,
)
    requires
        first.len() == 9,
        process.len() == 4,
        secret.len() == 4,
    ensures
        ({
            let sent = first + b + c + d + e + messages::message(0x4B, process + secret)
                + messages::message(READY_FOR_QUERY_TAG, seq![0x49u8]);
            let n = sent.len() as int;
            &&& n >= 28
            &&& sent.take(9) == first
            &&& sent.skip(n - 6) == seq!['Z' as u8, 0u8, 0u8, 0u8, 5u8, 'I' as u8]
            &&& sent.subrange(n - 19, n - 14) == seq!['K' as u8, 0u8, 0u8, 0u8, 12u8]
            &&& sent.subrange(n - 14, n - 10) == process
            &&& sent.subrange(n - 10, n - 6) == secret
        }),
{
    let front = first + b + c + d + e;
    lemma_last_answers(front, process, secret);
    let sent = front + messages::message(0x4B, process + secret) + messages::message(
        READY_FOR_QUERY_TAG,
        seq![0x49u8],
    );
    assert(front.take(9) =~= first);
    assert(sent.take(9) =~= front.take(9));
}

/// The last two answers behind others.
proof fn lemma_last_answers(front: Seq<u8>, process: Seq<u8>, secret: Seq<u8>)
    requires
        process.len() == 4,
        secret.len() == 4,
    ensures
        ({
            let sent = front + messages::message(0x4B, process + secret) + messages::message(
                READY_FOR_QUERY_TAG,
                seq![0x49u8],
            );
            let n = sent.len() as int;
            &&& n == front.len() + 19
            &&& sent.skip(n - 6) == seq!['Z' as u8, 0u8, 0u8, 0u8, 5u8, 'I' as u8]
            &&& sent.subrange(n - 19, n - 14) == seq!['K' as u8, 0u8, 0u8, 0u8, 12u8]
            &&& sent.subrange(n - 14, n - 10) == process
            &&& sent.subrange(n - 10, n - 6) == secret
        }),
{
    let keys = messages::message(0x4B, process + secret);
    let ready = messages::message(READY_FOR_QUERY_TAG, seq![0x49u8]);
    assert(keys =~= seq!['K' as u8, 0u8, 0u8, 0u8, 12u8] + process + secret);
    assert(ready =~= seq!['Z' as u8, 0u8, 0u8, 0u8, 5u8, 'I' as u8]);
    let sent = front + keys + ready;
    let n = sent.len() as int;
    assert(sent.skip(n - 6) =~= ready);
    assert(sent.subrange(n - 19, n - 14) =~= seq!['K' as u8, 0u8, 0u8, 0u8, 12u8]);
    assert(sent.subrange(n - 14, n - 10) =~= process);
    assert(sent.subrange(n - 10, n - 6) =~= secret);
}

} // verus!
