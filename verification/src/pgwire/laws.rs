//! What holds of the messages between a client and the server.

use vstd::prelude::*;
use vstd::utf8::*;

use crate::byte_order;
use crate::pgwire::cursor;
use crate::pgwire::cursor::CursorError;
use crate::pgwire::encode;
use crate::pgwire::messages;
use crate::pgwire::messages::TEXT_OID;
use crate::pgwire::params;
use crate::pgwire::params::ParamView;
use crate::pgwire::request;
use crate::pgwire::request::{ErrorView, MessagePart, ParseView};
use crate::pgwire::session;
use crate::text;
use crate::values::DataType;

verus! {

/// A text of which no byte is zero, as a message can hold it.
pub open spec fn plain(value: Seq<char>) -> bool {
    !encode_utf8(value).contains(0u8)
}

/// The first zero is found: none stands before it.
pub proof fn law_first_zero_is_found(bytes: Seq<u8>, from: int)
    requires
        0 <= from,
    ensures
        match cursor::zero_from(bytes, from) {
            Some(at) => {
                &&& from <= at < bytes.len()
                &&& bytes[at] == 0
                &&& forall|i: int| from <= i < at ==> #[trigger] bytes[i] != 0
            },
            None => forall|i: int| from <= i < bytes.len() ==> #[trigger] bytes[i] != 0,
        },
    decreases bytes.len() - from,
{
    if from < bytes.len() && bytes[from] != 0 {
        law_first_zero_is_found(bytes, from + 1);
    }
}

/// A text that was written is read, and what stands behind it is left.
pub proof fn law_text_is_read_back(value: Seq<char>, rest: Seq<u8>)
    requires
        plain(value),
    ensures
        cursor::cstr_at(messages::cstr(value) + rest) == Ok::<
            (Seq<char>, Seq<u8>),
            CursorError,
        >((value, rest)),
{
    broadcast use {encode_utf8_valid_utf8, encode_utf8_decode_utf8};

    let bytes = messages::cstr(value) + rest;
    let end = encode_utf8(value).len() as int;
    law_first_zero_is_found(bytes, 0);
    assert(bytes[end] == 0);
    assert forall|i: int| 0 <= i < end implies #[trigger] bytes[i] != 0 by {
        assert(encode_utf8(value).contains(encode_utf8(value)[i]));
    }
    assert(bytes.take(end) =~= encode_utf8(value));
    assert(bytes.skip(end + 1) =~= rest);
}

/// A text of which no zero follows is not read, nor is one that is no text.
pub proof fn law_texts_that_are_not_read(bytes: Seq<u8>)
    ensures
        match cursor::cstr_at(bytes) {
            Ok((value, rest)) => bytes == messages::cstr(value) + rest && plain(value),
            Err(CursorError::Unterminated) => !bytes.contains(0u8),
            Err(error) => error is InvalidUtf8 && bytes.contains(0u8),
        },
{
    broadcast use decode_utf8_encode_utf8;

    law_first_zero_is_found(bytes, 0);
    match cursor::zero_from(bytes, 0) {
        Some(end) => {
            assert(bytes.contains(0u8));
            if valid_utf8(bytes.take(end)) {
                assert(encode_utf8(decode_utf8(bytes.take(end))) == bytes.take(end));
                assert(bytes =~= messages::cstr(decode_utf8(bytes.take(end))) + bytes.skip(
                    end + 1,
                ));
                assert forall|i: int| 0 <= i < end implies #[trigger] bytes.take(end)[i] != 0 by {
                    assert(bytes[i] != 0);
                }
            }
        },
        None => {},
    }
}

/// A number of two bytes that was written is read.
pub proof fn law_short_number_is_read_back(value: i16, rest: Seq<u8>)
    ensures
        cursor::i16_at(messages::int2(value as int) + rest) == Ok::<(i16, Seq<u8>), CursorError>(
            (value, rest),
        ),
{
    let pattern = byte_order::unsigned16(value as int);
    byte_order::lemma_be2_round_trip(pattern);
    let bytes = messages::int2(value as int) + rest;
    assert(bytes[0] == byte_order::be2_bytes(pattern)[0]);
    assert(bytes[1] == byte_order::be2_bytes(pattern)[1]);
    assert(bytes.skip(2) =~= rest);
}

/// A number of four bytes that was written is read.
pub proof fn law_number_is_read_back(value: i32, rest: Seq<u8>)
    ensures
        cursor::i32_at(messages::int4(value as int) + rest) == Ok::<(i32, Seq<u8>), CursorError>(
            (value, rest),
        ),
{
    let pattern = byte_order::unsigned32(value as int);
    byte_order::lemma_be4_round_trip(pattern);
    let bytes = messages::int4(value as int) + rest;
    lemma_four_bytes(pattern, rest);
    assert(bytes.skip(4) =~= rest);
}

proof fn lemma_four_bytes(pattern: nat, rest: Seq<u8>)
    requires
        pattern < 0x1_0000_0000,
    ensures
        byte_order::be4(byte_order::be4_bytes(pattern) + rest) == pattern,
        (byte_order::be4_bytes(pattern) + rest).skip(4) == rest,
{
    byte_order::lemma_be4_round_trip(pattern);
    let written = byte_order::be4_bytes(pattern);
    let bytes = written + rest;
    assert(bytes[0] == written[0]);
    assert(bytes[1] == written[1]);
    assert(bytes.skip(2)[0] == written.skip(2)[0]);
    assert(bytes.skip(2)[1] == written.skip(2)[1]);
    assert(bytes.skip(4) =~= rest);
}

/// As many bytes as are asked for are read.
pub proof fn law_bytes_are_read_back(value: Seq<u8>, rest: Seq<u8>)
    ensures
        cursor::bytes_at(value + rest, value.len()) == Ok::<(Seq<u8>, Seq<u8>), CursorError>(
            (value, rest),
        ),
        rest.len() > 0 ==> cursor::bytes_at(value, value.len() + rest.len()) is Err,
{
    assert((value + rest).take(value.len() as int) =~= value);
    assert((value + rest).skip(value.len() as int) =~= rest);
}

/// Reading a list of numbers of two bytes is reading the first and then the others.
#[verifier::rlimit(40)]
pub proof fn law_short_numbers_are_read_in_turn(value: i16, bytes: Seq<u8>, n: nat)
    ensures
        match cursor::i16s_at(bytes, n) {
            Ok((values, rest)) => cursor::i16s_at(
                messages::int2(value as int) + bytes,
                n + 1,
            ) == Ok::<(Seq<i16>, Seq<u8>), CursorError>((seq![value] + values, rest)),
            Err(error) => cursor::i16s_at(messages::int2(value as int) + bytes, n + 1) == Err::<
                (Seq<i16>, Seq<u8>),
                CursorError,
            >(error),
        },
        cursor::i16s_at(bytes, 0) == Ok::<(Seq<i16>, Seq<u8>), CursorError>(
            (Seq::empty(), bytes),
        ),
{
    law_short_number_is_read_back(value, bytes);
    let all = messages::int2(value as int) + bytes;
    assert(bytes.skip(0) =~= bytes);
    assert(cursor::i16s_at(bytes, 0)->Ok_0.0 =~= Seq::<i16>::empty());
    if bytes.len() >= 2 * n {
        let values = cursor::i16s_at(bytes, n)->Ok_0.0;
        let read = cursor::i16s_at(all, n + 1)->Ok_0.0;
        assert forall|i: int| 0 <= i < n + 1 implies read[i] == (seq![value] + values)[i] by {
            if i == 0 {
                assert(all.skip(0) =~= all);
            } else {
                assert(all.skip(2 * i) =~= bytes.skip(2 * (i - 1)));
            }
        }
        assert(read =~= seq![value] + values);
        assert(all.skip(2 * (n + 1) as int) =~= bytes.skip(2 * n as int));
    }
}

/// The types of parameters, four bytes each.
pub open spec fn types_written(types: Seq<u32>) -> Seq<u8>
    decreases types.len(),
{
    if types.len() == 0 {
        Seq::empty()
    } else {
        byte_order::be4_bytes(types[0] as nat) + types_written(types.skip(1))
    }
}

/// A list of numbers of four bytes that was written is read.
#[verifier::rlimit(40)]
pub proof fn law_types_are_read_back(types: Seq<u32>, rest: Seq<u8>)
    ensures
        cursor::u32s_at(types_written(types) + rest, types.len()) == Ok::<
            (Seq<u32>, Seq<u8>),
            CursorError,
        >((types, rest)),
    decreases types.len(),
{
    let all = types_written(types) + rest;
    if types.len() == 0 {
        assert(all =~= rest);
        assert(all.skip(0) =~= rest);
        assert(cursor::u32s_at(all, 0)->Ok_0.0 =~= types);
    } else {
        let others = types_written(types.skip(1)) + rest;
        law_types_are_read_back(types.skip(1), rest);
        lemma_four_bytes(types[0] as nat, others);
        assert(all =~= byte_order::be4_bytes(types[0] as nat) + others);
        let read = cursor::u32s_at(all, types.len())->Ok_0.0;
        let values = cursor::u32s_at(others, (types.len() - 1) as nat)->Ok_0.0;
        assert forall|i: int| 0 <= i < types.len() implies read[i] == types[i] by {
            if i == 0 {
                assert(all.skip(0) =~= all);
            } else {
                assert(all.skip(4 * i) =~= others.skip(4 * (i - 1)));
                assert(values[i - 1] == types.skip(1)[i - 1]);
            }
        }
        assert(read =~= types);
        assert(all.skip(4 * types.len() as int) =~= others.skip(4 * (types.len() - 1)));
    }
}

/// The request to prepare a statement that a client wrote is read: its name, its text and the
/// types of its parameters.
pub proof fn law_parse_request_is_read_back(
    name: Seq<char>,
    sql: Seq<char>,
    types: Seq<u32>,
    rest: Seq<u8>,
)
    requires
        plain(name),
        plain(sql),
        types.len() <= i16::MAX,
    ensures
        request::parse_request(
            messages::cstr(name) + messages::cstr(sql) + messages::int2(types.len() as int)
                + types_written(types) + rest,
        ) == Ok::<ParseView, ErrorView>(ParseView { name, sql, param_types: types }),
{
    let last = types_written(types) + rest;
    let counted = messages::int2(types.len() as int) + last;
    let told = messages::cstr(sql) + counted;
    let all = messages::cstr(name) + messages::cstr(sql) + messages::int2(types.len() as int)
        + types_written(types) + rest;
    assert(all =~= messages::cstr(name) + told);
    law_text_is_read_back(name, told);
    law_text_is_read_back(sql, counted);
    law_short_number_is_read_back(types.len() as i16, last);
    law_types_are_read_back(types, rest);
}

/// The request to run a portal that a client wrote is read: the name of the portal, and the
/// number of rows where it is above zero.
pub proof fn law_execute_request_is_read_back(portal: Seq<char>, rows: i32, rest: Seq<u8>)
    requires
        plain(portal),
    ensures
        request::execute_request(
            messages::cstr(portal) + messages::int4(rows as int) + rest,
        ) matches Ok((name, limit)) && name == portal && (rows > 0 ==> limit == Some(
            rows as nat,
        )) && (rows <= 0 ==> limit is None),
{
    let told = messages::int4(rows as int) + rest;
    assert(messages::cstr(portal) + messages::int4(rows as int) + rest =~= messages::cstr(portal)
        + told);
    law_text_is_read_back(portal, told);
    law_number_is_read_back(rows, rest);
}

/// A request that names a statement or a portal is read: the letter and the name.
pub proof fn law_object_request_is_read_back(
    variant: u8,
    name: Seq<char>,
    rest: Seq<u8>,
    variant_part: MessagePart,
    name_part: MessagePart,
)
    requires
        plain(name),
    ensures
        request::object_request(
            seq![variant] + messages::cstr(name) + rest,
            variant_part,
            name_part,
        ) == Ok::<(u8, Seq<char>), ErrorView>((variant, name)),
        request::object_request(Seq::empty(), variant_part, name_part) is Err,
{
    let all = seq![variant] + messages::cstr(name) + rest;
    assert(all.skip(1) =~= messages::cstr(name) + rest);
    law_text_is_read_back(name, rest);
}

/// What a client calls a format: for all parameters where there is one, else each for its own and
/// the last for those behind it, and without any that of texts.
pub proof fn law_formats_of_parameters(formats: Seq<i16>, index: nat)
    ensures
        formats.len() == 0 ==> request::format_code(formats, index) == 0,
        forall|code: i16| #[trigger] request::format_code(seq![code], index) == code,
        index < formats.len() ==> request::format_code(formats, index) == formats[index as int],
        0 < formats.len() <= index ==> request::format_code(formats, index) == formats.last(),
{
}

/// A parameter without a value is null, of the type that the statement gives it or else a text.
pub proof fn law_null_parameter_is_read_back(
    rest: Seq<u8>,
    index: nat,
    types: Seq<u32>,
    formats: Seq<i16>,
    floats: Seq<Option<String>>,
)
    requires
        index < types.len(),
    ensures
        request::param_at(messages::null_field() + rest, index, types, formats, floats) matches Ok(
            ((value, oid), left),
        ) && value is Null && left == rest && oid == (if types[index as int] == 0 {
            TEXT_OID
        } else {
            types[index as int]
        }),
{
    law_number_is_read_back(-1i32, rest);
}

/// A parameter with a text is what the text is for the type that the statement gives it; a
/// parameter in bytes is refused.
pub proof fn law_parameter_is_read_back(
    value: Seq<char>,
    rest: Seq<u8>,
    index: nat,
    types: Seq<u32>,
    formats: Seq<i16>,
    floats: Seq<Option<String>>,
)
    requires
        index < types.len(),
        encode_utf8(value).len() <= i32::MAX,
    ensures
        ({
            let read = request::param_at(
                messages::text_field(value) + rest,
                index,
                types,
                formats,
                floats,
            );
            if request::format_code(formats, index) != 0 {
                read == Err::<((ParamView, u32), Seq<u8>), ErrorView>(ErrorView::BinaryParameter)
            } else {
                match params::converted(
                    value,
                    types[index as int],
                    request::float_for(floats, index as int),
                    params::rfc3339_millis(text::trimmed(value)),
                ) {
                    Ok(converted) => read == Ok::<((ParamView, u32), Seq<u8>), ErrorView>(
                        (converted, rest),
                    ),
                    Err(kind) => read == Err::<((ParamView, u32), Seq<u8>), ErrorView>(
                        ErrorView::InvalidParameter(value, kind),
                    ),
                }
            }
        }),
{
    broadcast use {encode_utf8_valid_utf8, encode_utf8_decode_utf8};

    let bytes = encode_utf8(value);
    assert(messages::text_field(value) + rest =~= messages::int4(bytes.len() as int) + (bytes
        + rest));
    law_number_is_read_back(bytes.len() as i32, bytes + rest);
    law_bytes_are_read_back(bytes, rest);
}

/// The fields of a row hold its cells in their order: reading them gives the cells.
#[verifier::rlimit(40)]
pub proof fn law_row_is_read_back(cells: Seq<Option<Seq<char>>>, rest: Seq<u8>)
    requires
        forall|i: int|
            0 <= i < cells.len() ==> ((#[trigger] cells[i]) matches Some(value) ==> encode_utf8(
                value,
            ).len() <= i32::MAX),
    ensures
        session::texts_at(messages::cell_fields(cells, cells.len()) + rest, cells.len()) == cells,
    decreases cells.len(),
{
    if cells.len() == 0 {
        assert(session::texts_at(rest, 0) =~= cells);
    } else {
        let others = cells.skip(1);
        let left = messages::cell_fields(others, others.len()) + rest;
        assert forall|i: int| 0 <= i < others.len() implies ((#[trigger] others[i]) matches Some(
            value,
        ) ==> encode_utf8(value).len() <= i32::MAX) by {
            assert(others[i] == cells[i + 1]);
        }
        law_row_is_read_back(others, rest);
        lemma_first_field(cells, cells.len());
        let all = messages::cell_fields(cells, cells.len()) + rest;
        assert(all =~= messages::field_bytes(cells[0]) + left);
        lemma_cell_is_read_back(cells[0], left, others.len());
        assert(seq![cells[0]] + others =~= cells);
    }
}

/// The first of the cells that follow is read, and then the others.
proof fn lemma_cell_is_read_back(cell: Option<Seq<char>>, left: Seq<u8>, n: nat)
    requires
        cell matches Some(value) ==> encode_utf8(value).len() <= i32::MAX,
    ensures
        session::texts_at(messages::field_bytes(cell) + left, n + 1) == seq![cell]
            + session::texts_at(left, n),
{
    match cell {
        Some(value) => {
            let bytes = encode_utf8(value);
            encode_utf8_valid_utf8(value);
            encode_utf8_decode_utf8(value);
            assert(messages::text_field(value) + left =~= messages::int4(bytes.len() as int) + (
            bytes + left));
            law_number_is_read_back(bytes.len() as i32, bytes + left);
            law_bytes_are_read_back(bytes, left);
        },
        None => {
            law_number_is_read_back(-1i32, left);
        },
    }
}

/// The fields of the first `n` cells are that of the first cell and those of the others.
proof fn lemma_first_field(cells: Seq<Option<Seq<char>>>, n: nat)
    requires
        0 < n <= cells.len(),
    ensures
        messages::cell_fields(cells, n) == messages::field_bytes(cells[0]) + messages::cell_fields(
            cells.skip(1),
            (n - 1) as nat,
        ),
    decreases n,
{
    if n == 1 {
        assert(messages::cell_fields(cells, 0) =~= Seq::empty());
        assert(messages::cell_fields(cells.skip(1), 0) =~= Seq::empty());
        assert(messages::cell_fields(cells, 1) =~= messages::field_bytes(cells[0]));
    } else {
        lemma_first_field(cells, (n - 1) as nat);
        assert(cells.skip(1)[n - 2] == cells[n - 1]);
        assert(messages::cell_fields(cells, n) =~= messages::field_bytes(cells[0])
            + messages::cell_fields(cells.skip(1), (n - 1) as nat));
    }
}

/// A described column is read back: its name, no table and no number in one, its type and size, no
/// modifier, and the format of texts.
#[verifier::rlimit(40)]
pub proof fn law_described_column_is_read_back(
    name: Seq<char>,
    oid: u32,
    size: i16,
    rest: Seq<u8>,
)
    requires
        plain(name),
    ensures
        ({
            let bytes = messages::column_description((name, (oid, size))) + rest;
            let behind = bytes.skip(encode_utf8(name).len() as int + 1);
            &&& cursor::cstr_at(bytes) == Ok::<(Seq<char>, Seq<u8>), CursorError>((name, behind))
            &&& behind.len() == 18 + rest.len()
            &&& byte_order::be4(behind) == 0
            &&& byte_order::be2(behind.skip(4)) == 0
            &&& byte_order::be4(behind.skip(6)) == oid
            &&& cursor::i16_at(behind.skip(10)) == Ok::<(i16, Seq<u8>), CursorError>(
                (size, behind.skip(12)),
            )
            &&& cursor::i32_at(behind.skip(12)) == Ok::<(i32, Seq<u8>), CursorError>(
                (-1i32, behind.skip(16)),
            )
            &&& byte_order::be2(behind.skip(16)) == 0
            &&& behind.skip(18) == rest
        }),
{
    let format = messages::int2(0) + rest;
    let modifier = messages::int4(-1) + format;
    let sized = messages::int2(size as int) + modifier;
    let typed = byte_order::be4_bytes(oid as nat) + sized;
    let numbered = messages::int2(0) + typed;
    let tabled = byte_order::be4_bytes(0) + numbered;
    let bytes = messages::column_description((name, (oid, size))) + rest;
    let behind = bytes.skip(encode_utf8(name).len() as int + 1);
    assert(bytes =~= messages::cstr(name) + tabled);
    law_text_is_read_back(name, tabled);
    assert(behind =~= tabled);
    lemma_four_bytes(0, numbered);
    lemma_four_bytes(oid as nat, sized);
    law_short_number_is_read_back(0i16, typed);
    law_short_number_is_read_back(0i16, rest);
    law_short_number_is_read_back(size, modifier);
    law_number_is_read_back(-1i32, format);
    assert(behind.skip(4) =~= numbered);
    assert(behind.skip(6) =~= typed);
    assert(behind.skip(10) =~= sized);
    assert(behind.skip(12) =~= modifier);
    assert(behind.skip(16) =~= format);
    assert(behind.skip(18) =~= rest);
}

/// A row that is sent is read back by its client: the number of cells and then each of them, and
/// behind them the version where there is one.
#[verifier::rlimit(40)]
pub proof fn law_data_row_is_read_back(
    cells: Seq<Option<Seq<char>>>,
    extra: Option<Option<u64>>,
)
    requires
        cells.len() + (if extra is Some {
            1int
        } else {
            0
        }) <= i16::MAX,
        forall|i: int|
            0 <= i < cells.len() ==> ((#[trigger] cells[i]) matches Some(value) ==> encode_utf8(
                value,
            ).len() <= i32::MAX),
    ensures
        ({
            let told = match extra {
                Some(Some(version)) => cells.push(Some(text::decimal(version as nat))),
                Some(None) => cells.push(None),
                None => cells,
            };
            let row = messages::data_row(cells, extra);
            let body = row.skip(5);
            &&& row[0] == 'D' as u8
            &&& cursor::i16_at(body) matches Ok((count, fields)) && count == told.len()
                && session::texts_at(fields, told.len()) == told
        }),
{
    let told = match extra {
        Some(Some(version)) => cells.push(Some(text::decimal(version as nat))),
        Some(None) => cells.push(None),
        None => cells,
    };
    let fields = messages::cell_fields(told, told.len());
    if extra is Some {
        if extra->0 is Some {
            messages::lemma_decimal_bytes(extra->0->0 as nat);
        }
        lemma_fields_of_front(cells, told.last(), cells.len());
        assert(told.drop_last() =~= cells);
    }
    let body = messages::int2(told.len() as int) + fields;
    let row = messages::data_row(cells, extra);
    assert(row =~= messages::message(0x44, body));
    assert(row.skip(5) =~= body);
    law_short_number_is_read_back(told.len() as i16, fields);
    assert forall|i: int| 0 <= i < told.len() implies ((#[trigger] told[i]) matches Some(
        value,
    ) ==> encode_utf8(value).len() <= i32::MAX) by {
        if i < cells.len() {
            assert(told[i] == cells[i]);
        }
    }
    law_row_is_read_back(told, Seq::empty());
    assert(fields + Seq::<u8>::empty() =~= fields);
}

/// The fields of the first cells do not depend on one behind them.
proof fn lemma_fields_of_front(cells: Seq<Option<Seq<char>>>, last: Option<Seq<char>>, n: nat)
    requires
        n <= cells.len(),
    ensures
        messages::cell_fields(cells.push(last), n) == messages::cell_fields(cells, n),
    decreases n,
{
    if n > 0 {
        lemma_fields_of_front(cells, last, (n - 1) as nat);
    }
}

/// A row of changes is a row with three cells more before its own: the version, that the row came
/// once, and no time.
#[verifier::rlimit(40)]
pub proof fn law_tail_row_is_a_row(cells: Seq<Option<Seq<char>>>, version: i64)
    ensures
        encode::tail_row(cells, version) == messages::data_row(
            seq![Some(text::signed_decimal(version as int)), Some(seq!['1']), None] + cells,
            None,
        ),
{
    reveal_strlit("1");
    let shown = text::signed_decimal(version as int);
    let one = seq!['1'];
    assert("1"@ =~= one);
    lemma_three_first_fields(Some(shown), Some(one), None, cells);
    let count = messages::int2(cells.len() as int + 3);
    let first = messages::text_field(shown);
    let next = messages::text_field(one);
    let time = messages::null_field();
    let others = messages::cell_fields(cells, cells.len());
    assert(count + (first + next + time + others) =~= count + first + next + time + others);
}

/// The fields of three cells and those of the cells behind them.
proof fn lemma_three_first_fields(
    first: Option<Seq<char>>,
    second: Option<Seq<char>>,
    third: Option<Seq<char>>,
    cells: Seq<Option<Seq<char>>>,
)
    ensures
        messages::cell_fields(seq![first, second, third] + cells, cells.len() + 3)
            == messages::field_bytes(first) + messages::field_bytes(second)
            + messages::field_bytes(third) + messages::cell_fields(cells, cells.len()),
{
    let behind_first = seq![second, third] + cells;
    let behind_second = seq![third] + cells;
    lemma_field_before(first, behind_first);
    lemma_field_before(second, behind_second);
    lemma_field_before(third, cells);
    assert(seq![first, second, third] + cells =~= seq![first] + behind_first);
    assert(behind_first =~= seq![second] + behind_second);
    lemma_four_parts(
        messages::field_bytes(first),
        messages::field_bytes(second),
        messages::field_bytes(third),
        messages::cell_fields(cells, cells.len()),
    );
}

proof fn lemma_field_before(first: Option<Seq<char>>, cells: Seq<Option<Seq<char>>>)
    ensures
        messages::cell_fields(seq![first] + cells, cells.len() + 1) == messages::field_bytes(first)
            + messages::cell_fields(cells, cells.len()),
{
    let told = seq![first] + cells;
    lemma_first_field(told, told.len());
    assert(told.skip(1) =~= cells);
}

proof fn lemma_four_parts(a: Seq<u8>, b: Seq<u8>, c: Seq<u8>, d: Seq<u8>)
    ensures
        a + (b + (c + d)) == a + b + c + d,
{
    assert(a + (b + (c + d)) =~= a + b + c + d);
}

/// What a type of a column is called: the number and the size that the protocol has for it.
pub proof fn law_types_of_columns(data_type: DataType)
    ensures
        ({
            let (oid, size) = messages::pg_type(data_type);
            &&& oid == 20 <==> data_type is Int64 || data_type is Int32
            &&& oid == 701 <==> data_type is Float64
            &&& oid == 16 <==> data_type is Boolean
            &&& oid == 1184 <==> data_type is Timestamp
            &&& oid == 20 || oid == 701 || oid == 16 || oid == 1184 || oid == 25
            &&& size == (if oid == 25 {
                -1int
            } else if oid == 16 {
                1
            } else {
                8
            })
        }),
{
}

/// The types that a statement is told to have are read back; a type that is not known is a text.
pub proof fn law_described_parameters_are_read_back(types: Seq<u32>)
    requires
        types.len() <= i16::MAX,
    ensures
        ({
            let body = messages::parameter_description(types).skip(5);
            &&& messages::parameter_description(types)[0] == 't' as u8
            &&& cursor::i16_at(body) matches Ok((count, rest)) && count == types.len() && (
            cursor::u32s_at(rest, types.len()) matches Ok((told, left)) && left.len() == 0
                && told.len() == types.len() && (forall|i: int|
                0 <= i < types.len() ==> #[trigger] told[i] == if types[i] == 0 {
                    25
                } else {
                    types[i]
                }))
        }),
{
    let known = Seq::new(
        types.len(),
        |i: int|
            if types[i] == 0 {
                TEXT_OID
            } else {
                types[i]
            },
    );
    lemma_type_list(types, known, types.len());
    assert(known.take(types.len() as int) =~= known);
    let list = messages::type_list(types, types.len());
    let body = messages::int2(types.len() as int) + list;
    assert(messages::parameter_description(types).skip(5) =~= body);
    law_short_number_is_read_back(types.len() as i16, list);
    law_types_are_read_back(known, Seq::empty());
    assert(list + Seq::<u8>::empty() =~= list);
}

proof fn lemma_type_list(types: Seq<u32>, known: Seq<u32>, n: nat)
    requires
        n <= types.len(),
        known.len() == types.len(),
        forall|i: int|
            0 <= i < types.len() ==> #[trigger] known[i] == if types[i] == 0 {
                TEXT_OID
            } else {
                types[i]
            },
    ensures
        messages::type_list(types, n) == types_written(known.take(n as int)),
    decreases n,
{
    if n == 0 {
        assert(known.take(0).len() == 0);
    } else {
        lemma_type_list(types, known, (n - 1) as nat);
        assert(known.take(n as int) =~= known.take(n - 1).push(known[n - 1]));
        lemma_types_pushed(known.take(n - 1), known[n - 1]);
    }
}

proof fn lemma_types_pushed(types: Seq<u32>, last: u32)
    ensures
        types_written(types.push(last)) == types_written(types) + byte_order::be4_bytes(
            last as nat,
        ),
    decreases types.len(),
{
    let all = types.push(last);
    if types.len() == 0 {
        assert(all.skip(1) =~= Seq::empty());
        assert(types_written(all.skip(1)) =~= Seq::empty());
        assert(types_written(all) =~= byte_order::be4_bytes(last as nat));
        assert(types_written(types) =~= Seq::empty());
    } else {
        lemma_types_pushed(types.skip(1), last);
        assert(all.skip(1) =~= types.skip(1).push(last));
        assert(types_written(all) =~= types_written(types) + byte_order::be4_bytes(last as nat));
    }
}

/// An error is read back by its client: the severity, the code and the text, the detail where it
/// tells something else than the text, and then no more fields.
#[verifier::rlimit(40)]
pub proof fn law_error_is_read_back(
    severity: Seq<char>,
    code: Seq<char>,
    told: Seq<char>,
    detail: Seq<char>,
)
    requires
        plain(severity),
        plain(code),
        plain(told),
        plain(detail),
    ensures
        ({
            let sent = messages::error_response(severity, code, told, detail);
            let body = sent.skip(5);
            &&& sent[0] == 'E' as u8
            &&& body.len() > 0 && body[0] == 'S' as u8
            &&& cursor::cstr_at(body.skip(1)) matches Ok((first, behind_first)) && first
                == severity && behind_first.len() > 0 && behind_first[0] == 'C' as u8 && (
            cursor::cstr_at(behind_first.skip(1)) matches Ok((second, behind_second)) && second
                == code && behind_second.len() > 0 && behind_second[0] == 'M' as u8 && (
            cursor::cstr_at(behind_second.skip(1)) matches Ok((third, behind_third)) && third
                == told && if detail.len() > 0 && detail != told {
                behind_third.len() > 0 && behind_third[0] == 'D' as u8 && cursor::cstr_at(
                    behind_third.skip(1),
                ) == Ok::<(Seq<char>, Seq<u8>), CursorError>((detail, seq![0u8]))
            } else {
                behind_third == seq![0u8]
            }))
        }),
{
    let last = if detail.len() > 0 && detail != told {
        messages::error_field(0x44, detail) + seq![0u8]
    } else {
        seq![0u8]
    };
    let third = messages::error_field(0x4D, told) + last;
    let second = messages::error_field(0x43, code) + third;
    let first = messages::error_field(0x53, severity) + second;
    let sent = messages::error_response(severity, code, told, detail);
    assert(sent.skip(5) =~= first);
    lemma_field_is_read_back(0x53, severity, second);
    lemma_field_is_read_back(0x43, code, third);
    lemma_field_is_read_back(0x4D, told, last);
    lemma_field_is_read_back(0x44, detail, seq![0u8]);
}

proof fn lemma_field_is_read_back(code: u8, value: Seq<char>, rest: Seq<u8>)
    requires
        plain(value),
    ensures
        (messages::error_field(code, value) + rest).len() > 0,
        (messages::error_field(code, value) + rest)[0] == code,
        cursor::cstr_at((messages::error_field(code, value) + rest).skip(1)) == Ok::<
            (Seq<char>, Seq<u8>),
            CursorError,
        >((value, rest)),
{
    let all = messages::error_field(code, value) + rest;
    assert(all.skip(1) =~= messages::cstr(value) + rest);
    law_text_is_read_back(value, rest);
}

/// The end of a query tells the number of its rows.
pub proof fn law_number_of_rows_is_told(rows: nat)
    ensures
        messages::command_tag(rows).take(7) == "SELECT "@,
        text::all_digits(messages::command_tag(rows).skip(7)),
        text::digits_value(messages::command_tag(rows).skip(7)) == rows,
{
    reveal_strlit("SELECT ");
    text::lemma_decimal_digits(rows);
    assert(messages::command_tag(rows).take(7) =~= "SELECT "@);
    assert(messages::command_tag(rows).skip(7) =~= text::decimal(rows));
}

/// The rows of a query are described by the number of their columns and then by each column, in
/// their order.
pub proof fn law_described_rows_begin_with_their_columns(
    columns: Seq<(Seq<char>, (u32, i16))>,
    n: nat,
)
    requires
        n < columns.len() <= i16::MAX,
    ensures
        ({
            let sent = messages::row_description(columns);
            &&& sent[0] == 'T' as u8
            &&& cursor::i16_at(sent.skip(5)) == Ok::<(i16, Seq<u8>), CursorError>(
                (columns.len() as i16, messages::column_descriptions(columns, columns.len())),
            )
            &&& messages::column_descriptions(columns, n + 1) == messages::column_descriptions(
                columns,
                n,
            ) + messages::column_description(columns[n as int])
            &&& messages::column_descriptions(columns, 0).len() == 0
        }),
{
    let all = messages::column_descriptions(columns, columns.len());
    let sent = messages::row_description(columns);
    assert(sent.skip(5) =~= messages::int2(columns.len() as int) + all);
    law_short_number_is_read_back(columns.len() as i16, all);
}

} // verus!
