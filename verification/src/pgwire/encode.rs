//! Rows of changes as they are sent to a client.

use bytes::BytesMut;
use vstd::prelude::*;
use vstd::utf8::*;

use super::buffer;
use super::buffer::put_i16;
use super::cells;
use super::cells::{rows_texts, CellError};
use super::messages;
use super::messages::{finish_message, put_cells, put_null_field, put_text_field, start_message};
use crate::columns::ColumnBatch;
use crate::text;
use crate::text::{push_signed_decimal, string_of};

verus! {

/// A row of changes: the version, the operation and the time, which is not known, before the
/// cells.
pub open spec fn tail_row(cells: Seq<Option<Seq<char>>>, version: i64) -> Seq<u8> {
    messages::message(
        0x44,
        messages::int2(cells.len() as int + 3) + messages::text_field(
            text::signed_decimal(version as int),
        ) + messages::text_field("1"@) + messages::null_field() + messages::cell_fields(
            cells,
            cells.len(),
        ),
    )
}

/// The first `n` rows of changes.
pub open spec fn tail_rows(rows: Seq<Seq<Option<Seq<char>>>>, version: i64, n: nat) -> Seq<u8>
    decreases n,
{
    if n == 0 {
        Seq::empty()
    } else {
        tail_rows(rows, version, (n - 1) as nat) + tail_row(rows[n - 1], version)
    }
}

/// Appends a row of changes.
fn encode_tail_row(buf: &mut BytesMut, cells: &Vec<Option<String>>, version: i64)
    requires
        cells@.len() + 3 <= i16::MAX,
        messages::cells_fit(cells@),
    ensures
        buffer::buffered(*final(buf)) == buffer::buffered(*old(buf)) + tail_row(
            messages::cell_texts(cells@),
            version,
        ),
{
    let ghost before = buffer::buffered(*buf);
    let len_pos: usize = start_message(buf, 0x44);
    let columns: usize = cells.len() + 3;
    put_i16(buf, columns as i16);
    let mut chars: Vec<char> = Vec::new();
    push_signed_decimal(&mut chars, version);
    let shown = string_of(chars);
    proof {
        assert(shown@ =~= text::signed_decimal(version as int));
        messages::lemma_signed_decimal_bytes(version as int);
        reveal_strlit("1");
        assert(is_ascii_chars("1"@));
        is_ascii_chars_encode_utf8("1"@);
    }
    put_text_field(buf, shown.as_str());
    put_text_field(buf, "1");
    put_null_field(buf);
    put_cells(buf, cells);
    proof {
        let head = before.push(0x44) + messages::int4(0);
        let count = messages::int2(cells@.len() as int + 3);
        let first = messages::text_field(text::signed_decimal(version as int));
        let second = messages::text_field("1"@);
        let third = messages::null_field();
        let fields = messages::cell_fields(messages::cell_texts(cells@), cells@.len());
        assert(buffer::buffered(*buf) =~= head + (count + first + second + third + fields));
        messages::lemma_finished(before, 0x44, count + first + second + third + fields);
    }
    finish_message(buf, len_pos);
}

/// Appends rows `from..to` of a batch of changes. Nothing is appended where a cell has no text.
pub fn encode_tail_rows(
    buf: &mut BytesMut,
    batch: &ColumnBatch,
    from: usize,
    to: usize,
    version: i64,
) -> (result: Result<(), CellError>)
    requires
        cells::level(*batch),
        from <= to <= batch.rows,
        batch.columns@.len() + 3 <= i16::MAX,
    ensures
        match cells::sent_rows(*batch, from as int, to as int) {
            Ok(rows) => result is Ok && buffer::buffered(*final(buf)) == buffer::buffered(
                *old(buf),
            ) + tail_rows(rows, version, rows.len()),
            Err(error) => result == Err::<(), CellError>(error) && buffer::buffered(*final(buf))
                == buffer::buffered(*old(buf)),
        },
{
    let ghost before = buffer::buffered(*buf);
    let rows: Vec<Vec<Option<String>>> = match rows_texts(batch, from, to) {
        Ok(rows) => rows,
        Err(error) => {
            return Err(error);
        },
    };
    let ghost texts = cells::text_rows(rows@);
    let mut i: usize = 0;
    assert(before + tail_rows(texts, version, 0) =~= before);
    while i < rows.len()
        invariant
            i <= rows@.len(),
            texts == cells::text_rows(rows@),
            batch.columns@.len() + 3 <= i16::MAX,
            forall|k: int|
                0 <= k < rows@.len() ==> messages::cells_fit((#[trigger] rows@[k])@)
                    && rows@[k]@.len() == batch.columns@.len(),
            buffer::buffered(*buf) == before + tail_rows(texts, version, i as nat),
        decreases rows@.len() - i,
    {
        assert(messages::cells_fit(rows@[i as int]@));
        encode_tail_row(buf, &rows[i], version);
        assert(buffer::buffered(*buf) =~= before + tail_rows(texts, version, (i + 1) as nat));
        i = i + 1;
    }
    Ok(())
}

/// Appends all rows of a batch of changes, with the version, the operation and the time before
/// the cells of each. Nothing is appended where a cell has no text.
pub fn encode_tail_batch(buf: &mut BytesMut, batch: &ColumnBatch, version: i64) -> (result: Result<
    (),
    CellError,
>)
    requires
        cells::level(*batch),
        batch.columns@.len() + 3 <= i16::MAX,
    ensures
        match cells::sent_rows(*batch, 0, batch.rows as int) {
            Ok(rows) => result is Ok && buffer::buffered(*final(buf)) == buffer::buffered(
                *old(buf),
            ) + tail_rows(rows, version, rows.len()),
            Err(error) => result == Err::<(), CellError>(error) && buffer::buffered(*final(buf))
                == buffer::buffered(*old(buf)),
        },
{
    encode_tail_rows(buf, batch, 0, batch.rows, version)
}

} // verus!
