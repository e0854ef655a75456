//! Messages of the server to a client.

use bytes::BytesMut;
use vstd::prelude::*;
use vstd::utf8::*;

use super::buffer;
use super::buffer::{length, put_i16, put_i32, put_slice, put_u32, put_u8, replace_four};
use super::cells;
use super::cells::{row_texts, CellError};
use crate::byte_order;
use crate::columns::{clone_schema, ColumnBatch, Field};
use crate::text;
use crate::text::{push_decimal, push_text, string_of};
use crate::values;
use crate::values::DataType;

verus! {

/// Tag of the message that the server is ready.
pub const READY_FOR_QUERY_TAG: u8 = 0x5A;

/// Identifier of the type of sixty-four bit integers.
pub const INT8_OID: u32 = 20;

/// Identifier of the type of double precision numbers.
pub const FLOAT8_OID: u32 = 701;

/// Identifier of the type of texts.
pub const TEXT_OID: u32 = 25;

/// Identifier of the type of booleans.
pub const BOOL_OID: u32 = 16;

/// Identifier of the type of timestamps with a time zone.
pub const TIMESTAMPTZ_OID: u32 = 1184;

/// A number as four bytes.
pub open spec fn int4(value: int) -> Seq<u8> {
    byte_order::be4_bytes(byte_order::unsigned32(value))
}

/// A number as two bytes.
pub open spec fn int2(value: int) -> Seq<u8> {
    byte_order::be2_bytes(byte_order::unsigned16(value))
}

/// A message: its tag, its length with the four bytes of the length, and its body.
pub open spec fn message(tag: u8, body: Seq<u8>) -> Seq<u8> {
    seq![tag] + byte_order::be4_bytes((body.len() + 4) % 0x1_0000_0000) + body
}

/// A text with a zero behind it.
pub open spec fn cstr(value: Seq<char>) -> Seq<u8> {
    encode_utf8(value).push(0)
}

/// A text with its length before it.
pub open spec fn text_field(value: Seq<char>) -> Seq<u8> {
    int4(encode_utf8(value).len() as int) + encode_utf8(value)
}

/// A field without a value.
pub open spec fn null_field() -> Seq<u8> {
    int4(-1)
}

/// A field with or without a value.
pub open spec fn field_bytes(value: Option<Seq<char>>) -> Seq<u8> {
    match value {
        Some(value) => text_field(value),
        None => null_field(),
    }
}

/// Starts a message: its tag and room for its length; answers where the length goes.
pub(super) fn start_message(buf: &mut BytesMut, tag: u8) -> (len_pos: usize)
    ensures
        len_pos == buffer::buffered(*old(buf)).len() + 1,
        buffer::buffered(*final(buf)) == buffer::buffered(*old(buf)).push(tag) + int4(0),
{
    put_u8(buf, tag);
    let len_pos: usize = length(buf);
    put_i32(buf, 0);
    len_pos
}

/// Finishes a message: puts its length where it goes.
pub(super) fn finish_message(buf: &mut BytesMut, len_pos: usize)
    requires
        len_pos + 4 <= buffer::buffered(*old(buf)).len(),
    ensures
        ({
            let before = buffer::buffered(*old(buf));
            buffer::buffered(*final(buf)) == before.take(len_pos as int)
                + byte_order::be4_bytes(((before.len() - len_pos) % 0x1_0000_0000) as nat)
                + before.skip(len_pos + 4)
        }),
{
    let len: u64 = (length(buf) - len_pos) as u64 % 0x1_0000_0000;
    let bytes: [u8; 4] = [
        (len / 0x100_0000 % 0x100) as u8,
        (len / 0x1_0000 % 0x100) as u8,
        (len / 0x100 % 0x100) as u8,
        (len % 0x100) as u8,
    ];
    assert(bytes@ =~= byte_order::be4_bytes(len as nat));
    replace_four(buf, len_pos, bytes);
}

/// A started message with its body, once it is finished.
pub proof fn lemma_finished(before: Seq<u8>, tag: u8, body: Seq<u8>)
    ensures
        ({
            let started = before.push(tag) + int4(0) + body;
            let at = before.len() as int + 1;
            started.take(at) + byte_order::be4_bytes(
                ((started.len() - at) % 0x1_0000_0000) as nat,
            ) + started.skip(at + 4) == before + message(tag, body)
        }),
{
    let started = before.push(tag) + int4(0) + body;
    let at = before.len() as int + 1;
    assert(int4(0).len() == 4);
    assert(started.take(at) =~= before.push(tag));
    assert(started.skip(at + 4) =~= body);
    assert(started.len() - at == body.len() + 4);
    assert(before.push(tag) + byte_order::be4_bytes((body.len() + 4) % 0x1_0000_0000) + body
        =~= before + message(tag, body));
}

/// A message whose length is known before its body is written.
proof fn lemma_message(before: Seq<u8>, tag: u8, len: int, body: Seq<u8>)
    requires
        len == body.len() + 4,
        len <= i32::MAX,
    ensures
        before.push(tag) + int4(len) + body == before + message(tag, body),
{
    assert(before.push(tag) + int4(len) + body =~= before + message(tag, body));
}

/// Appending in two steps.
proof fn lemma_two_steps(before: Seq<u8>, first: Seq<u8>, second: Seq<u8>)
    ensures
        before + first + second == before + (first + second),
{
    assert(before + first + second =~= before + (first + second));
}

/// Appends a text with a zero behind it.
pub(super) fn put_cstr(buf: &mut BytesMut, value: &str)
    ensures
        buffer::buffered(*final(buf)) == buffer::buffered(*old(buf)) + cstr(value@),
{
    put_slice(buf, value.as_bytes());
    put_u8(buf, 0);
    assert(buffer::buffered(*buf) =~= buffer::buffered(*old(buf)) + cstr(value@));
}

/// Appends a text with its length before it.
pub(super) fn put_text_field(buf: &mut BytesMut, value: &str)
    requires
        encode_utf8(value@).len() <= i32::MAX,
    ensures
        buffer::buffered(*final(buf)) == buffer::buffered(*old(buf)) + text_field(value@),
{
    let bytes = value.as_bytes();
    put_i32(buf, bytes.len() as i32);
    put_slice(buf, bytes);
    assert(buffer::buffered(*buf) =~= buffer::buffered(*old(buf)) + text_field(value@));
}

/// Appends a field without a value.
pub(super) fn put_null_field(buf: &mut BytesMut)
    ensures
        buffer::buffered(*final(buf)) == buffer::buffered(*old(buf)) + null_field(),
{
    put_i32(buf, -1);
}

/// Appends that the client is let in.
pub fn push_authentication_ok(buf: &mut BytesMut)
    ensures
        buffer::buffered(*final(buf)) == buffer::buffered(*old(buf)) + message(0x52, int4(0)),
{
    let ghost before = buffer::buffered(*buf);
    put_u8(buf, 0x52);
    put_i32(buf, 8);
    put_i32(buf, 0);
    proof {
        assert(int4(0).len() == 4);
        lemma_message(before, 0x52, 8, int4(0));
    }
}

/// Appends a setting of the server.
pub fn push_parameter_status(buf: &mut BytesMut, name: &str, value: &str)
    requires
        encode_utf8(name@).len() + encode_utf8(value@).len() + 6 <= i32::MAX,
    ensures
        buffer::buffered(*final(buf)) == buffer::buffered(*old(buf)) + message(
            0x53,
            cstr(name@) + cstr(value@),
        ),
{
    let ghost before = buffer::buffered(*buf);
    put_u8(buf, 0x53);
    let len: usize = 4 + name.as_bytes().len() + 1 + value.as_bytes().len() + 1;
    put_i32(buf, len as i32);
    let ghost start = buffer::buffered(*buf);
    put_cstr(buf, name);
    put_cstr(buf, value);
    proof {
        lemma_two_steps(start, cstr(name@), cstr(value@));
        lemma_message(before, 0x53, len as int, cstr(name@) + cstr(value@));
    }
}

/// Appends the key with which the client may cancel.
pub fn push_backend_key_data(buf: &mut BytesMut, process_id: i32, secret_key: i32)
    ensures
        buffer::buffered(*final(buf)) == buffer::buffered(*old(buf)) + message(
            0x4B,
            int4(process_id as int) + int4(secret_key as int),
        ),
{
    let ghost before = buffer::buffered(*buf);
    put_u8(buf, 0x4B);
    put_i32(buf, 12);
    let ghost start = buffer::buffered(*buf);
    put_i32(buf, process_id);
    put_i32(buf, secret_key);
    proof {
        let first = int4(process_id as int);
        let second = int4(secret_key as int);
        assert(first.len() == 4);
        assert(second.len() == 4);
        lemma_two_steps(start, first, second);
        lemma_message(before, 0x4B, 12, first + second);
    }
}

/// Appends that the server is ready, with its status.
pub fn push_ready_for_query(buf: &mut BytesMut, status: u8)
    ensures
        buffer::buffered(*final(buf)) == buffer::buffered(*old(buf)) + message(
            READY_FOR_QUERY_TAG,
            seq![status],
        ),
{
    let ghost before = buffer::buffered(*buf);
    put_u8(buf, READY_FOR_QUERY_TAG);
    put_i32(buf, 5);
    let ghost start = buffer::buffered(*buf);
    put_u8(buf, status);
    proof {
        assert(start.push(status) =~= start + seq![status]);
        lemma_message(before, READY_FOR_QUERY_TAG, 5, seq![status]);
    }
}

/// Appends a message without a body.
fn push_bare(buf: &mut BytesMut, tag: u8)
    ensures
        buffer::buffered(*final(buf)) == buffer::buffered(*old(buf)) + message(tag, Seq::empty()),
{
    let ghost before = buffer::buffered(*buf);
    put_u8(buf, tag);
    put_i32(buf, 4);
    proof {
        let nothing = Seq::<u8>::empty();
        assert(buffer::buffered(*buf) + nothing =~= buffer::buffered(*buf));
        lemma_message(before, tag, 4, nothing);
    }
}

/// Appends that a portal is bound.
pub fn push_bind_complete(buf: &mut BytesMut)
    ensures
        buffer::buffered(*final(buf)) == buffer::buffered(*old(buf)) + message(
            0x32,
            Seq::empty(),
        ),
{
    push_bare(buf, 0x32);
}

/// Appends that a statement or portal is closed.
pub fn push_close_complete(buf: &mut BytesMut)
    ensures
        buffer::buffered(*final(buf)) == buffer::buffered(*old(buf)) + message(
            0x33,
            Seq::empty(),
        ),
{
    push_bare(buf, 0x33);
}

/// Appends that a statement is parsed.
pub fn push_parse_complete(buf: &mut BytesMut)
    ensures
        buffer::buffered(*final(buf)) == buffer::buffered(*old(buf)) + message(
            0x31,
            Seq::empty(),
        ),
{
    push_bare(buf, 0x31);
}

/// Appends that a statement gives no rows.
pub fn push_no_data(buf: &mut BytesMut)
    ensures
        buffer::buffered(*final(buf)) == buffer::buffered(*old(buf)) + message(
            0x6E,
            Seq::empty(),
        ),
{
    push_bare(buf, 0x6E);
}

/// Appends that a portal has more rows.
pub fn push_portal_suspended(buf: &mut BytesMut)
    ensures
        buffer::buffered(*final(buf)) == buffer::buffered(*old(buf)) + message(
            0x73,
            Seq::empty(),
        ),
{
    push_bare(buf, 0x73);
}

/// What a command did: the number of rows that it selected.
pub open spec fn command_tag(rows: nat) -> Seq<char> {
    "SELECT "@ + text::decimal(rows)
}

/// ASCII texts take one byte per character.
proof fn lemma_command_tag_bytes(rows: nat)
    requires
        rows <= u64::MAX,
    ensures
        encode_utf8(command_tag(rows)).len() + 5 <= i32::MAX,
{
    reveal_strlit("SELECT ");
    let tag = command_tag(rows);
    text::lemma_decimal_digits(rows);
    text::lemma_decimal_length(rows);
    assert forall|i: int| 0 <= i < tag.len() implies '\0' <= #[trigger] tag[i] <= '\u{7f}' by {
        if i >= 7 {
            assert(tag[i] == text::decimal(rows)[i - 7]);
        }
    }
    is_ascii_chars_encode_utf8(tag);
}

/// Appends that a command is complete, with the number of its rows.
pub fn push_command_complete(buf: &mut BytesMut, rows: usize)
    ensures
        buffer::buffered(*final(buf)) == buffer::buffered(*old(buf)) + message(
            0x43,
            cstr(command_tag(rows as nat)),
        ),
{
    let ghost before = buffer::buffered(*buf);
    let tag = command_tag_text(rows);
    put_u8(buf, 0x43);
    let len: usize = 4 + tag.as_str().as_bytes().len() + 1;
    put_i32(buf, len as i32);
    put_cstr(buf, tag.as_str());
    proof {
        lemma_message(before, 0x43, len as int, cstr(tag@));
    }
}

/// What a command did, as a text.
fn command_tag_text(rows: usize) -> (tag: String)
    ensures
        tag@ == command_tag(rows as nat),
        encode_utf8(tag@).len() + 5 <= i32::MAX,
{
    let mut chars: Vec<char> = Vec::new();
    push_text(&mut chars, "SELECT ");
    push_decimal(&mut chars, rows as u64);
    proof {
        lemma_command_tag_bytes(rows as nat);
        assert(chars@ =~= command_tag(rows as nat));
    }
    string_of(chars)
}

/// The types of the first `n` parameters; those that are not known are texts.
pub open spec fn type_list(param_types: Seq<u32>, n: nat) -> Seq<u8>
    decreases n,
{
    if n == 0 {
        Seq::empty()
    } else {
        let oid = if param_types[n - 1] == 0 {
            TEXT_OID
        } else {
            param_types[n - 1]
        };
        type_list(param_types, (n - 1) as nat) + byte_order::be4_bytes(oid as nat)
    }
}

/// The types of the parameters of a statement.
pub open spec fn parameter_description(param_types: Seq<u32>) -> Seq<u8> {
    message(0x74, int2(param_types.len() as int) + type_list(param_types, param_types.len()))
}

proof fn lemma_type_list_len(param_types: Seq<u32>, n: nat)
    ensures
        type_list(param_types, n).len() == 4 * n,
    decreases n,
{
    if n > 0 {
        lemma_type_list_len(param_types, (n - 1) as nat);
    }
}

/// Appends the types of the parameters of a statement.
pub fn push_parameter_description(buf: &mut BytesMut, param_types: &Vec<u32>)
    requires
        param_types@.len() <= i16::MAX,
    ensures
        buffer::buffered(*final(buf)) == buffer::buffered(*old(buf)) + parameter_description(
            param_types@,
        ),
{
    let ghost before = buffer::buffered(*buf);
    put_u8(buf, 0x74);
    let len: usize = 4 + 2 + param_types.len() * 4;
    put_i32(buf, len as i32);
    put_i16(buf, param_types.len() as i16);
    let ghost head = buffer::buffered(*buf);
    let mut i: usize = 0;
    assert(head + type_list(param_types@, 0) =~= head);
    while i < param_types.len()
        invariant
            i <= param_types@.len(),
            buffer::buffered(*buf) == head + type_list(param_types@, i as nat),
        decreases param_types@.len() - i,
    {
        let oid: u32 = if param_types[i] == 0 {
            TEXT_OID
        } else {
            param_types[i]
        };
        put_u32(buf, oid);
        assert(buffer::buffered(*buf) =~= head + type_list(param_types@, (i + 1) as nat));
        i = i + 1;
    }
    proof {
        lemma_type_list_len(param_types@, param_types@.len());
        let count = int2(param_types@.len() as int);
        let list = type_list(param_types@, param_types@.len());
        let start = before.push(0x74) + int4(len as int);
        assert(count.len() == 2);
        assert(start + count + list =~= start + (count + list));
        lemma_message(before, 0x74, len as int, count + list);
    }
}

/// The type of a column as the client knows it: its identifier and its size.
pub open spec fn pg_type(data_type: DataType) -> (u32, i16) {
    match data_type {
        DataType::Int64 => (INT8_OID, 8),
        DataType::Int32 => (INT8_OID, 8),
        DataType::Float64 => (FLOAT8_OID, 8),
        DataType::Boolean => (BOOL_OID, 1),
        DataType::Timestamp(_, _) => (TIMESTAMPTZ_OID, 8),
        _ => (TEXT_OID, -1i16),
    }
}

/// The type of a column as the client knows it: its identifier and its size.
pub fn pg_type_from_arrow(data_type: &DataType) -> (result: (u32, i16))
    ensures
        result == pg_type(*data_type),
{
    match data_type {
        DataType::Int64 => (INT8_OID, 8),
        DataType::Int32 => (INT8_OID, 8),
        DataType::Float64 => (FLOAT8_OID, 8),
        DataType::Boolean => (BOOL_OID, 1),
        DataType::Timestamp(_, _) => (TIMESTAMPTZ_OID, 8),
        _ => (TEXT_OID, -1),
    }
}

/// The names of columns and their types as the client knows them.
pub open spec fn columns_of(schema: Seq<Field>) -> Seq<(Seq<char>, (u32, i16))> {
    Seq::new(schema.len(), |i: int| (schema[i].name@, pg_type(schema[i].data_type)))
}

/// The description of a column.
pub open spec fn column_description(column: (Seq<char>, (u32, i16))) -> Seq<u8> {
    let (oid, size) = column.1;
    cstr(column.0) + byte_order::be4_bytes(0) + int2(0) + byte_order::be4_bytes(oid as nat) + int2(
        size as int,
    ) + int4(-1) + int2(0)
}

/// The descriptions of the first `n` columns.
pub open spec fn column_descriptions(columns: Seq<(Seq<char>, (u32, i16))>, n: nat) -> Seq<u8>
    decreases n,
{
    if n == 0 {
        Seq::empty()
    } else {
        column_descriptions(columns, (n - 1) as nat) + column_description(columns[n - 1])
    }
}

/// The description of rows with these columns.
pub open spec fn row_description(columns: Seq<(Seq<char>, (u32, i16))>) -> Seq<u8> {
    message(0x54, int2(columns.len() as int) + column_descriptions(columns, columns.len()))
}

/// Appends the description of rows.
pub fn push_row_description(buf: &mut BytesMut, schema: &Vec<Field>)
    requires
        schema@.len() <= i16::MAX,
    ensures
        buffer::buffered(*final(buf)) == buffer::buffered(*old(buf)) + row_description(
            columns_of(schema@),
        ),
{
    let ghost before = buffer::buffered(*buf);
    let ghost columns = columns_of(schema@);
    let len_pos: usize = start_message(buf, 0x54);
    let ghost head = before.push(0x54) + int4(0);
    let ghost count = int2(schema@.len() as int);
    put_i16(buf, schema.len() as i16);
    let mut i: usize = 0;
    assert(head + count + column_descriptions(columns, 0) =~= head + count);
    while i < schema.len()
        invariant
            i <= schema@.len(),
            columns == columns_of(schema@),
            buffer::buffered(*buf) == head + count + column_descriptions(columns, i as nat),
        decreases schema@.len() - i,
    {
        let ghost start = buffer::buffered(*buf);
        put_cstr(buf, schema[i].name.as_str());
        put_u32(buf, 0);
        put_i16(buf, 0);
        let (type_oid, type_len) = pg_type_from_arrow(&schema[i].data_type);
        put_u32(buf, type_oid);
        put_i16(buf, type_len);
        put_i32(buf, -1);
        put_i16(buf, 0);
        assert(buffer::buffered(*buf) =~= start + column_description(columns[i as int]));
        assert(buffer::buffered(*buf) =~= head + count + column_descriptions(
            columns,
            (i + 1) as nat,
        ));
        i = i + 1;
    }
    proof {
        let body = count + column_descriptions(columns, schema@.len());
        assert(head + count + column_descriptions(columns, schema@.len()) =~= head + body);
        lemma_finished(before, 0x54, body);
    }
    finish_message(buf, len_pos);
}

/// The name of the column that tells the version of a view.
pub open spec fn mv_version_column() -> Seq<char> {
    "__mv_version"@
}

/// The column that tells the version of a view.
pub open spec fn version_column() -> (Seq<char>, (u32, i16)) {
    (mv_version_column(), (TEXT_OID, -1i16))
}

/// Columns with the version of a view as the last one, unless there is such a column.
pub open spec fn with_version(columns: Seq<(Seq<char>, (u32, i16))>, included: bool) -> Seq<
    (Seq<char>, (u32, i16)),
> {
    if included {
        columns
    } else {
        columns.push(version_column())
    }
}

/// A schema with the version of a view as its last column, unless it has one.
pub fn maybe_append_mv_version(schema: &Vec<Field>, schema_includes_mv: bool) -> (result: Vec<
    Field,
>)
    ensures
        if schema_includes_mv {
            result@ == schema@
        } else {
            &&& result@.len() == schema@.len() + 1
            &&& result@.drop_last() == schema@
            &&& result@.last().name@ == mv_version_column()
            &&& result@.last().data_type is UInt64
            &&& !result@.last().nullable
        },
        columns_of(result@) == with_version(columns_of(schema@), schema_includes_mv),
{
    let mut fields = clone_schema(schema);
    if !schema_includes_mv {
        fields.push(
            Field {
                name: String::from_str("__mv_version"),
                data_type: DataType::UInt64,
                nullable: false,
            },
        );
        assert(fields@.drop_last() =~= schema@);
    }
    assert(columns_of(fields@) =~= with_version(columns_of(schema@), schema_includes_mv));
    fields
}

/// Optional texts as their characters.
pub open spec fn cell_texts(cells: Seq<Option<String>>) -> Seq<Option<Seq<char>>> {
    Seq::new(cells.len(), |i: int| values::opt_text(cells[i]))
}

/// The first `n` cells of a row.
pub open spec fn cell_fields(cells: Seq<Option<Seq<char>>>, n: nat) -> Seq<u8>
    decreases n,
{
    if n == 0 {
        Seq::empty()
    } else {
        cell_fields(cells, (n - 1) as nat) + field_bytes(cells[n - 1])
    }
}

/// Every value of a row is short enough to be sent.
pub open spec fn cells_fit(cells: Seq<Option<String>>) -> bool {
    forall|i: int|
        0 <= i < cells.len() ==> ((#[trigger] cells[i]) matches Some(value) ==> encode_utf8(
            value@,
        ).len() <= i32::MAX)
}

/// Appends the cells of a row.
pub(super) fn put_cells(buf: &mut BytesMut, cells: &Vec<Option<String>>)
    requires
        cells_fit(cells@),
    ensures
        buffer::buffered(*final(buf)) == buffer::buffered(*old(buf)) + cell_fields(
            cell_texts(cells@),
            cells@.len(),
        ),
{
    let ghost before = buffer::buffered(*buf);
    let ghost texts = cell_texts(cells@);
    let mut i: usize = 0;
    assert(before + cell_fields(texts, 0) =~= before);
    while i < cells.len()
        invariant
            i <= cells@.len(),
            cells_fit(cells@),
            texts == cell_texts(cells@),
            buffer::buffered(*buf) == before + cell_fields(texts, i as nat),
        decreases cells@.len() - i,
    {
        let ghost start = buffer::buffered(*buf);
        assert(cells@[i as int] matches Some(value) ==> encode_utf8(value@).len() <= i32::MAX);
        match &cells[i] {
            Some(value) => {
                put_text_field(buf, value.as_str());
            },
            None => {
                put_null_field(buf);
            },
        }
        assert(buffer::buffered(*buf) =~= start + field_bytes(texts[i as int]));
        assert(buffer::buffered(*buf) =~= before + cell_fields(texts, (i + 1) as nat));
        i = i + 1;
    }
}

/// A number as its decimal text, if it is given.
pub open spec fn number_text(value: Option<u64>) -> Option<Seq<char>> {
    match value {
        Some(number) => Some(text::decimal(number as nat)),
        None => None,
    }
}

/// A row: its cells and, where there is one, an extra number.
pub open spec fn data_row(cells: Seq<Option<Seq<char>>>, extra: Option<Option<u64>>) -> Seq<u8> {
    match extra {
        Some(value) => message(
            0x44,
            int2(cells.len() as int + 1) + cell_fields(cells, cells.len()) + field_bytes(
                number_text(value),
            ),
        ),
        None => message(0x44, int2(cells.len() as int) + cell_fields(cells, cells.len())),
    }
}

/// Appends a row: its cells and, where there is one, an extra number.
fn push_text_row(buf: &mut BytesMut, cells: &Vec<Option<String>>, extra: Option<Option<u64>>)
    requires
        cells_fit(cells@),
        cells@.len() + (if extra is Some {
            1int
        } else {
            0
        }) <= i16::MAX,
    ensures
        buffer::buffered(*final(buf)) == buffer::buffered(*old(buf)) + data_row(
            cell_texts(cells@),
            extra,
        ),
{
    let ghost before = buffer::buffered(*buf);
    let len_pos: usize = start_message(buf, 0x44);
    let ghost head = before.push(0x44) + int4(0);
    let columns: usize = if extra.is_some() {
        cells.len() + 1
    } else {
        cells.len()
    };
    put_i16(buf, columns as i16);
    let ghost count = int2(columns as int);
    put_cells(buf, cells);
    let ghost fields = cell_fields(cell_texts(cells@), cells@.len());
    match extra {
        Some(value) => {
            match value {
                Some(number) => {
                    let mut chars: Vec<char> = Vec::new();
                    push_decimal(&mut chars, number);
                    let shown = string_of(chars);
                    proof {
                        lemma_decimal_bytes(number as nat);
                        assert(shown@ =~= text::decimal(number as nat));
                    }
                    put_text_field(buf, shown.as_str());
                },
                None => {
                    put_null_field(buf);
                },
            }
            proof {
                let last = field_bytes(number_text(value));
                assert(buffer::buffered(*buf) =~= head + (count + fields + last));
                lemma_finished(before, 0x44, count + fields + last);
            }
        },
        None => {
            proof {
                assert(buffer::buffered(*buf) =~= head + (count + fields));
                lemma_finished(before, 0x44, count + fields);
            }
        },
    }
    finish_message(buf, len_pos);
}

/// Appends a row of a batch: its cells and, where there is one, an extra number. Nothing is
/// appended where a cell has no text.
pub fn push_data_row(
    buf: &mut BytesMut,
    batch: &ColumnBatch,
    row: usize,
    extra: Option<Option<u64>>,
) -> (result: Result<(), CellError>)
    requires
        cells::level(*batch),
        row < batch.rows,
        batch.columns@.len() + (if extra is Some {
            1int
        } else {
            0
        }) <= i16::MAX,
    ensures
        match cells::sent_row(*batch, row as int) {
            Ok(texts) => result is Ok && buffer::buffered(*final(buf)) == buffer::buffered(
                *old(buf),
            ) + data_row(texts, extra),
            Err(error) => result == Err::<(), CellError>(error) && buffer::buffered(*final(buf))
                == buffer::buffered(*old(buf)),
        },
{
    match row_texts(batch, row) {
        Ok(texts) => {
            push_text_row(buf, &texts, extra);
            Ok(())
        },
        Err(error) => Err(error),
    }
}

/// Decimal texts take one byte per digit.
pub proof fn lemma_decimal_bytes(n: nat)
    requires
        n <= u64::MAX,
    ensures
        encode_utf8(text::decimal(n)).len() <= 20,
{
    let digits = text::decimal(n);
    text::lemma_decimal_digits(n);
    text::lemma_decimal_length(n);
    assert forall|i: int| 0 <= i < digits.len() implies '\0' <= #[trigger] digits[i]
        <= '\u{7f}' by {}
    is_ascii_chars_encode_utf8(digits);
}

/// Decimal texts with a sign take one byte per character.
pub proof fn lemma_signed_decimal_bytes(v: int)
    requires
        -0x8000_0000_0000_0000 <= v <= u64::MAX,
    ensures
        encode_utf8(text::signed_decimal(v)).len() <= 21,
{
    let shown = text::signed_decimal(v);
    let magnitude = if v < 0 {
        (-v) as nat
    } else {
        v as nat
    };
    text::lemma_decimal_digits(magnitude);
    text::lemma_decimal_length(magnitude);
    assert forall|i: int| 0 <= i < shown.len() implies '\0' <= #[trigger] shown[i]
        <= '\u{7f}' by {
        if v < 0 && i > 0 {
            assert(shown[i] == text::decimal(magnitude)[i - 1]);
        }
    }
    is_ascii_chars_encode_utf8(shown);
}

/// A field of an error: its code and its text.
pub open spec fn error_field(code: u8, value: Seq<char>) -> Seq<u8> {
    seq![code] + cstr(value)
}

/// An error: its severity, code and message, and its detail where that says more.
pub open spec fn error_response(
    severity: Seq<char>,
    code: Seq<char>,
    text: Seq<char>,
    detail: Seq<char>,
) -> Seq<u8> {
    let fields = error_field(0x53, severity) + error_field(0x43, code) + error_field(0x4D, text);
    let all = if detail.len() > 0 && detail != text {
        fields + error_field(0x44, detail)
    } else {
        fields
    };
    message(0x45, all.push(0))
}

/// Appends a field of an error.
fn put_error_field(buf: &mut BytesMut, code: u8, value: &str)
    ensures
        buffer::buffered(*final(buf)) == buffer::buffered(*old(buf)) + error_field(code, value@),
{
    put_u8(buf, code);
    put_cstr(buf, value);
    assert(buffer::buffered(*buf) =~= buffer::buffered(*old(buf)) + error_field(code, value@));
}

/// Appends an error: its severity, code and message, and its detail where that says more.
pub fn push_error_response(
    buf: &mut BytesMut,
    severity: &str,
    code: &str,
    message_text: &str,
    detail: &str,
)
    ensures
        buffer::buffered(*final(buf)) == buffer::buffered(*old(buf)) + error_response(
            severity@,
            code@,
            message_text@,
            detail@,
        ),
{
    let ghost before = buffer::buffered(*buf);
    let len_pos: usize = start_message(buf, 0x45);
    let ghost head = before.push(0x45) + int4(0);
    put_error_field(buf, 0x53, severity);
    put_error_field(buf, 0x43, code);
    put_error_field(buf, 0x4D, message_text);
    let ghost fields = error_field(0x53, severity@) + error_field(0x43, code@) + error_field(
        0x4D,
        message_text@,
    );
    assert(buffer::buffered(*buf) =~= head + fields);
    if !detail.is_empty() && !text::same_text(detail, message_text) {
        put_error_field(buf, 0x44, detail);
        assert(buffer::buffered(*buf) =~= head + (fields + error_field(0x44, detail@)));
    }
    let ghost all = if detail@.len() > 0 && detail@ != message_text@ {
        fields + error_field(0x44, detail@)
    } else {
        fields
    };
    put_u8(buf, 0);
    proof {
        assert(buffer::buffered(*buf) =~= head + all.push(0));
        lemma_finished(before, 0x45, all.push(0));
    }
    finish_message(buf, len_pos);
}

} // verus!
