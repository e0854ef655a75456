//! Encoded rows: a column count followed by one tagged field per column.

use vstd::prelude::*;
use vstd::utf8::*;

use crate::byte_order;
use crate::byte_order::{push_u32_le, read_u128_le, read_u32_le, read_u64_le, to_i128, to_i32, to_i64};

verus! {

/// A non-null value decoded from one field of an encoded row.
#[derive(Debug, Eq, Hash, Ord, PartialEq, PartialOrd)]
pub enum EncodedRowScalar {
    Int64(i64),
    Utf8(String),
    TimestampMillis(i64),
    Bool(bool),
    DateDays(i32),
    Decimal128(i128),
}

/// What an `EncodedRowScalar` stands for, with text as a sequence of characters.
pub enum EncodedScalarView {
    Int64(i64),
    Utf8(Seq<char>),
    TimestampMillis(i64),
    Bool(bool),
    DateDays(i32),
    Decimal128(i128),
}

impl Clone for EncodedRowScalar {
    fn clone(&self) -> (copy: Self)
        ensures
            copy == *self,
    {
        match self {
            EncodedRowScalar::Int64(v) => EncodedRowScalar::Int64(*v),
            EncodedRowScalar::Utf8(v) => EncodedRowScalar::Utf8(v.clone()),
            EncodedRowScalar::TimestampMillis(v) => EncodedRowScalar::TimestampMillis(*v),
            EncodedRowScalar::Bool(v) => EncodedRowScalar::Bool(*v),
            EncodedRowScalar::DateDays(v) => EncodedRowScalar::DateDays(*v),
            EncodedRowScalar::Decimal128(v) => EncodedRowScalar::Decimal128(*v),
        }
    }
}

impl View for EncodedRowScalar {
    type V = EncodedScalarView;

    open spec fn view(&self) -> EncodedScalarView {
        match *self {
            EncodedRowScalar::Int64(v) => EncodedScalarView::Int64(v),
            EncodedRowScalar::Utf8(v) => EncodedScalarView::Utf8(v@),
            EncodedRowScalar::TimestampMillis(v) => EncodedScalarView::TimestampMillis(v),
            EncodedRowScalar::Bool(v) => EncodedScalarView::Bool(v),
            EncodedRowScalar::DateDays(v) => EncodedScalarView::DateDays(v),
            EncodedRowScalar::Decimal128(v) => EncodedScalarView::Decimal128(v),
        }
    }
}

/// Why an encoded row could not be read or built.
#[derive(Clone, Copy, Debug, PartialEq, Eq, Structural)]
pub enum EncodingError {
    /// Fewer bytes than the column count takes.
    RowTooShort,
    /// The row ends where a field tag was expected.
    MissingTag,
    /// No field starts with this tag.
    UnknownTag(u8),
    /// An eight byte value runs past the end of the row.
    TruncatedFixedWidth,
    /// A text length runs past the end of the row.
    TruncatedStringLength,
    /// A text payload runs past the end of the row.
    TruncatedString,
    /// The byte of a boolean is missing.
    MissingBool,
    /// A date runs past the end of the row.
    TruncatedDate,
    /// A decimal runs past the end of the row.
    TruncatedDecimal,
    /// A text payload is not UTF-8.
    InvalidUtf8,
    /// A requested column does not exist in a row of this many columns.
    IndexOutOfBounds(usize),
    /// The requested column holds neither an integer nor a timestamp.
    NotI64Like(usize),
    /// More columns than a column count can hold.
    TooManyColumns,
}

/// Tags of fields that hold no value.
pub open spec fn null_tag(tag: u8) -> bool {
    tag == 0x00 || tag == 0x05 || tag == 0x06 || tag == 0x07 || tag == 0x08 || tag == 0x0A || tag
        == 0x0C
}

/// How many bytes the payload behind `tag` takes at the front of `rest`.
pub open spec fn payload_len(tag: u8, rest: Seq<u8>) -> Result<int, EncodingError> {
    if null_tag(tag) {
        Ok(0)
    } else if tag == 0x01 || tag == 0x03 {
        if rest.len() < 8 {
            Err(EncodingError::TruncatedFixedWidth)
        } else {
            Ok(8)
        }
    } else if tag == 0x02 {
        if rest.len() < 4 {
            Err(EncodingError::TruncatedStringLength)
        } else if rest.len() < 4 + byte_order::le4(rest) {
            Err(EncodingError::TruncatedString)
        } else {
            Ok((4 + byte_order::le4(rest)) as int)
        }
    } else if tag == 0x04 {
        if rest.len() < 1 {
            Err(EncodingError::MissingBool)
        } else {
            Ok(1)
        }
    } else if tag == 0x09 {
        if rest.len() < 4 {
            Err(EncodingError::TruncatedDate)
        } else {
            Ok(4)
        }
    } else if tag == 0x0B {
        if rest.len() < 16 {
            Err(EncodingError::TruncatedDecimal)
        } else {
            Ok(16)
        }
    } else {
        Err(EncodingError::UnknownTag(tag))
    }
}

/// The value of a field with this tag and payload; `Ok(None)` is a null.
pub open spec fn field_value(tag: u8, payload: Seq<u8>) -> Result<
    Option<EncodedScalarView>,
    EncodingError,
> {
    if tag == 0x01 {
        Ok(Some(EncodedScalarView::Int64(byte_order::signed64(byte_order::le8(payload)) as i64)))
    } else if tag == 0x02 {
        let text = payload.skip(4);
        if valid_utf8(text) {
            Ok(Some(EncodedScalarView::Utf8(decode_utf8(text))))
        } else {
            Err(EncodingError::InvalidUtf8)
        }
    } else if tag == 0x03 {
        Ok(Some(EncodedScalarView::TimestampMillis(byte_order::signed64(byte_order::le8(payload)) as i64)))
    } else if tag == 0x04 {
        Ok(Some(EncodedScalarView::Bool(payload[0] != 0)))
    } else if tag == 0x09 {
        Ok(Some(EncodedScalarView::DateDays(byte_order::signed32(byte_order::le4(payload)) as i32)))
    } else if tag == 0x0B {
        Ok(Some(EncodedScalarView::Decimal128(byte_order::signed128(byte_order::le16(payload)) as i128)))
    } else {
        Ok(None)
    }
}

/// Where the field that starts at `start` ends.
pub open spec fn field_end(bytes: Seq<u8>, start: int) -> Result<int, EncodingError> {
    if start >= bytes.len() {
        Err(EncodingError::MissingTag)
    } else {
        match payload_len(bytes[start], bytes.skip(start + 1)) {
            Ok(len) => Ok(start + 1 + len),
            Err(error) => Err(error),
        }
    }
}

/// Where column `i` starts, or the first fault found before it.
pub open spec fn column_start(bytes: Seq<u8>, i: nat) -> Result<int, EncodingError>
    decreases i,
{
    if i == 0 {
        Ok(4)
    } else {
        match column_start(bytes, (i - 1) as nat) {
            Ok(start) => field_end(bytes, start),
            Err(error) => Err(error),
        }
    }
}

/// The number of columns that a row announces.
pub open spec fn announced_columns(bytes: Seq<u8>) -> nat {
    byte_order::le4(bytes)
}

/// The number of columns of a row whose fields all fit, or the first fault.
pub open spec fn row_columns(bytes: Seq<u8>) -> Result<nat, EncodingError> {
    if bytes.len() < 4 {
        Err(EncodingError::RowTooShort)
    } else {
        match column_start(bytes, announced_columns(bytes)) {
            Ok(_) => Ok(announced_columns(bytes)),
            Err(error) => Err(error),
        }
    }
}

/// The bytes of column `i`, its tag included.
pub open spec fn column_bytes(bytes: Seq<u8>, i: int) -> Seq<u8> {
    bytes.subrange(column_start(bytes, i as nat)->Ok_0, column_start(bytes, (i + 1) as nat)->Ok_0)
}

/// The value of column `i`.
pub open spec fn column_value(bytes: Seq<u8>, i: int) -> Result<
    Option<EncodedScalarView>,
    EncodingError,
> {
    let field = column_bytes(bytes, i);
    field_value(field[0], field.skip(1))
}

/// Whether column `i` is a null.
pub open spec fn column_is_null(bytes: Seq<u8>, i: int) -> bool {
    null_tag(column_bytes(bytes, i)[0])
}

/// The fields of the columns named by `indices`, one behind the other.
pub open spec fn selected_fields(bytes: Seq<u8>, indices: Seq<usize>) -> Seq<u8>
    decreases indices.len(),
{
    if indices.len() == 0 {
        Seq::empty()
    } else {
        selected_fields(bytes, indices.drop_last()) + column_bytes(bytes, indices.last() as int)
    }
}

/// The row made of the columns named by `indices`, in that order.
pub open spec fn selected_row(bytes: Seq<u8>, indices: Seq<usize>) -> Seq<u8> {
    byte_order::le4_bytes(indices.len()) + selected_fields(bytes, indices)
}

/// Some requested index lies beyond the last column.
pub open spec fn some_index_out_of_bounds(indices: Seq<usize>, count: nat) -> bool {
    exists|k: int| 0 <= k < indices.len() && #[trigger] indices[k] >= count
}

/// Some requested column with an index of at most `limit` is a null.
pub open spec fn some_null_selected(bytes: Seq<u8>, indices: Seq<usize>, limit: int) -> bool {
    exists|k: int|
        0 <= k < indices.len() && #[trigger] indices[k] <= limit && column_is_null(
            bytes,
            indices[k] as int,
        )
}

/// Decoded scalars as the values they stand for.
pub open spec fn scalar_views(values: Seq<Option<EncodedRowScalar>>) -> Seq<
    Option<EncodedScalarView>,
> {
    Seq::new(values.len(), |i: int| scalar_view(values[i]))
}

/// A decoded scalar as the value it stands for.
pub open spec fn scalar_view(value: Option<EncodedRowScalar>) -> Option<EncodedScalarView> {
    match value {
        Some(scalar) => Some(scalar@),
        None => None,
    }
}

/// The integer that an integer or timestamp value holds.
pub open spec fn i64_like(value: EncodedScalarView) -> Option<i64> {
    match value {
        EncodedScalarView::Int64(v) => Some(v),
        EncodedScalarView::TimestampMillis(v) => Some(v),
        _ => None,
    }
}


/// The value of the text held by `bytes`, from `std::str::from_utf8`: the text is handed back
/// exactly when the bytes are valid UTF-8, and its characters are the ones they decode to.
#[verifier::external_body]
pub(crate) fn utf8_text(bytes: &[u8]) -> (text: Option<String>)
    ensures
        match text {
            Some(t) => valid_utf8(bytes@) && t@ == decode_utf8(bytes@),
            None => !valid_utf8(bytes@),
        },
{
    match std::str::from_utf8(bytes) {
        Ok(text) => Some(text.to_string()),
        Err(_) => None,
    }
}

/// Columns before a readable column start at increasing offsets inside the row.
pub proof fn lemma_column_starts(bytes: Seq<u8>, n: nat, i: nat)
    requires
        bytes.len() >= 4,
        column_start(bytes, n) is Ok,
        i <= n,
    ensures
        column_start(bytes, i) is Ok,
        4 + i <= column_start(bytes, i)->Ok_0,
        column_start(bytes, i)->Ok_0 + (n - i) <= column_start(bytes, n)->Ok_0,
        column_start(bytes, n)->Ok_0 <= bytes.len(),
    decreases n,
{
    if n > 0 {
        if i < n {
            lemma_column_starts(bytes, (n - 1) as nat, i);
        } else {
            lemma_column_starts(bytes, (n - 1) as nat, (n - 1) as nat);
        }
    }
}

/// Where the payload behind `tag` ends when it starts at `cursor`.
fn encoded_field_end(bytes: &[u8], cursor: usize, tag: u8) -> (end: Result<usize, EncodingError>)
    requires
        cursor <= bytes.len(),
    ensures
        match end {
            Ok(end) => payload_len(tag, bytes@.skip(cursor as int)) == Ok::<int, EncodingError>(
                end - cursor,
            ) && end <= bytes@.len(),
            Err(error) => payload_len(tag, bytes@.skip(cursor as int)) == Err::<int, EncodingError>(
                error,
            ),
        },
{
    let left: usize = bytes.len() - cursor;
    match tag {
        0x00 | 0x05 | 0x06 | 0x07 | 0x08 | 0x0A | 0x0C => Ok(cursor),
        0x01 | 0x03 => {
            if left < 8 {
                return Err(EncodingError::TruncatedFixedWidth);
            }
            Ok(cursor + 8)
        },
        0x02 => {
            if left < 4 {
                return Err(EncodingError::TruncatedStringLength);
            }
            let len: u32 = read_u32_le(bytes, cursor);
            if ((left - 4) as u64) < (len as u64) {
                return Err(EncodingError::TruncatedString);
            }
            Ok(cursor + 4 + len as usize)
        },
        0x04 => {
            if left < 1 {
                return Err(EncodingError::MissingBool);
            }
            Ok(cursor + 1)
        },
        0x09 => {
            if left < 4 {
                return Err(EncodingError::TruncatedDate);
            }
            Ok(cursor + 4)
        },
        0x0B => {
            if left < 16 {
                return Err(EncodingError::TruncatedDecimal);
            }
            Ok(cursor + 16)
        },
        _ => Err(EncodingError::UnknownTag(tag)),
    }
}

/// Whether a field with this tag holds no value.
fn is_null_field_tag(tag: u8) -> (null: bool)
    ensures
        null == null_tag(tag),
{
    matches!(tag, 0x00 | 0x05 | 0x06 | 0x07 | 0x08 | 0x0A | 0x0C)
}

/// The value behind `tag`, whose payload starts at `cursor` and fits.
fn decode_encoded_scalar(bytes: &[u8], cursor: usize, tag: u8) -> (value: Result<
    Option<EncodedRowScalar>,
    EncodingError,
>)
    requires
        cursor <= bytes.len(),
        payload_len(tag, bytes@.skip(cursor as int)) is Ok,
    ensures
        ({
            let len = payload_len(tag, bytes@.skip(cursor as int))->Ok_0;
            let expected = field_value(tag, bytes@.subrange(cursor as int, cursor + len));
            match value {
                Ok(scalar) => expected == Ok::<Option<EncodedScalarView>, EncodingError>(
                    scalar_view(scalar),
                ),
                Err(error) => expected == Err::<Option<EncodedScalarView>, EncodingError>(error),
            }
        }),
{
    let ghost len = payload_len(tag, bytes@.skip(cursor as int))->Ok_0;
    let ghost payload = bytes@.subrange(cursor as int, cursor + len);
    match tag {
        0x01 => {
            let value: i64 = to_i64(read_u64_le(bytes, cursor));
            assert(byte_order::le8(payload) == byte_order::le8(bytes@.skip(cursor as int)));
            Ok(Some(EncodedRowScalar::Int64(value)))
        },
        0x02 => {
            let text_len: usize = read_u32_le(bytes, cursor) as usize;
            let start: usize = cursor + 4;
            let chunk = vstd::slice::slice_subrange(bytes, start, start + text_len);
            assert(chunk@ =~= payload.skip(4));
            match utf8_text(chunk) {
                Some(text) => Ok(Some(EncodedRowScalar::Utf8(text))),
                None => Err(EncodingError::InvalidUtf8),
            }
        },
        0x03 => {
            let value: i64 = to_i64(read_u64_le(bytes, cursor));
            assert(byte_order::le8(payload) == byte_order::le8(bytes@.skip(cursor as int)));
            Ok(Some(EncodedRowScalar::TimestampMillis(value)))
        },
        0x04 => {
            let flag: u8 = bytes[cursor];
            Ok(Some(EncodedRowScalar::Bool(flag != 0)))
        },
        0x09 => {
            let value: i32 = to_i32(read_u32_le(bytes, cursor));
            assert(byte_order::le4(payload) == byte_order::le4(bytes@.skip(cursor as int)));
            Ok(Some(EncodedRowScalar::DateDays(value)))
        },
        0x0B => {
            let value: i128 = to_i128(read_u128_le(bytes, cursor));
            assert(byte_order::le8(payload) == byte_order::le8(bytes@.skip(cursor as int)));
            assert(byte_order::le8(payload.skip(8)) == byte_order::le8(bytes@.skip(cursor as int).skip(8)));
            Ok(Some(EncodedRowScalar::Decimal128(value)))
        },
        _ => Ok(None),
    }
}

/// The number of columns of an encoded row; fails on the first field that does not fit.
pub fn encoded_row_column_count(bytes: &[u8]) -> (count: Result<usize, EncodingError>)
    ensures
        match count {
            Ok(n) => row_columns(bytes@) == Ok::<nat, EncodingError>(n as nat) && n
                <= bytes@.len(),
            Err(error) => row_columns(bytes@) == Err::<nat, EncodingError>(error),
        },
{
    if bytes.len() < 4 {
        return Err(EncodingError::RowTooShort);
    }
    let count: u32 = read_u32_le(bytes, 0);
    assert(bytes@.skip(0) =~= bytes@);
    let mut cursor: usize = 4;
    let mut i: u32 = 0;
    while i < count
        invariant
            bytes@.len() >= 4,
            count == announced_columns(bytes@),
            i <= count,
            4 + i <= cursor <= bytes@.len(),
            column_start(bytes@, i as nat) == Ok::<int, EncodingError>(cursor as int),
        decreases count - i,
    {
        let ghost before = cursor;
        if cursor >= bytes.len() {
            proof {
                lemma_column_start_error(bytes@, count as nat, (i + 1) as nat);
            }
            return Err(EncodingError::MissingTag);
        }
        let tag: u8 = bytes[cursor];
        match encoded_field_end(bytes, cursor + 1, tag) {
            Ok(end) => {
                cursor = end;
            },
            Err(error) => {
                proof {
                    lemma_column_start_error(bytes@, count as nat, (i + 1) as nat);
                }
                return Err(error);
            },
        }
        i = i + 1;
    }
    Ok(count as usize)
}

/// A fault before column `i` is the fault found before every later column.
proof fn lemma_column_start_error(bytes: Seq<u8>, n: nat, i: nat)
    requires
        column_start(bytes, i) is Err,
        i <= n,
    ensures
        column_start(bytes, n) == column_start(bytes, i),
    decreases n,
{
    if i < n {
        lemma_column_start_error(bytes, (n - 1) as nat, i);
    }
}

/// The offsets where each column starts and ends.
fn column_spans(bytes: &[u8], count: usize) -> (spans: Vec<(usize, usize)>)
    requires
        row_columns(bytes@) == Ok::<nat, EncodingError>(count as nat),
    ensures
        spans@.len() == count,
        spans_of(bytes@, spans@),
{
    let mut spans: Vec<(usize, usize)> = Vec::new();
    let mut cursor: usize = 4;
    let mut i: usize = 0;
    while i < count
        invariant
            row_columns(bytes@) == Ok::<nat, EncodingError>(count as nat),
            i <= count,
            spans@.len() == i,
            cursor <= bytes.len(),
            column_start(bytes@, i as nat) == Ok::<int, EncodingError>(cursor as int),
            forall|j: int|
                0 <= j < i ==> {
                    &&& column_start(bytes@, j as nat) == Ok::<int, EncodingError>(
                        (#[trigger] spans@[j]).0 as int,
                    )
                    &&& column_start(bytes@, (j + 1) as nat) == Ok::<int, EncodingError>(
                        spans@[j].1 as int,
                    )
                    &&& spans@[j].0 < spans@[j].1 <= bytes@.len()
                },
        decreases count - i,
    {
        proof {
            lemma_column_starts(bytes@, count as nat, (i + 1) as nat);
            lemma_column_starts(bytes@, count as nat, i as nat);
        }
        let tag: u8 = bytes[cursor];
        let end: usize = match encoded_field_end(bytes, cursor + 1, tag) {
            Ok(end) => end,
            Err(_) => {
                assert(false);
                cursor
            },
        };
        spans.push((cursor, end));
        cursor = end;
        i = i + 1;
    }
    spans
}


/// What extracting the columns named by `indices` gives.
pub open spec fn extracted_columns(
    bytes: Seq<u8>,
    indices: Seq<usize>,
    require_non_null: bool,
) -> Result<Option<Seq<u8>>, EncodingError> {
    match row_columns(bytes) {
        Err(error) => Err(error),
        Ok(count) => if some_index_out_of_bounds(indices, count) {
            Err(EncodingError::IndexOutOfBounds(count as usize))
        } else if require_non_null && some_null_selected(bytes, indices, count as int) {
            Ok(None)
        } else if indices.len() > u32::MAX {
            Err(EncodingError::TooManyColumns)
        } else {
            Ok(Some(selected_row(bytes, indices)))
        },
    }
}

/// What extracting the columns named by `indices` and the integer of one more column gives.
///
/// Columns are looked at from the first to the last, so a null among the requested columns up to
/// the target column is noticed before the target value.
pub open spec fn extracted_columns_and_i64(
    bytes: Seq<u8>,
    indices: Seq<usize>,
    target: usize,
    require_non_null: bool,
) -> Result<Option<(Seq<u8>, i64)>, EncodingError> {
    match row_columns(bytes) {
        Err(error) => Err(error),
        Ok(count) => if some_index_out_of_bounds(indices, count) || target >= count {
            Err(EncodingError::IndexOutOfBounds(count as usize))
        } else if require_non_null && some_null_selected(bytes, indices, target as int) {
            Ok(None)
        } else {
            match column_value(bytes, target as int) {
                Err(error) => Err(error),
                Ok(None) => Ok(None),
                Ok(Some(value)) => match i64_like(value) {
                    None => Err(EncodingError::NotI64Like(target)),
                    Some(number) => if require_non_null && some_null_selected(
                        bytes,
                        indices,
                        count as int,
                    ) {
                        Ok(None)
                    } else if indices.len() > u32::MAX {
                        Err(EncodingError::TooManyColumns)
                    } else {
                        Ok(Some((selected_row(bytes, indices), number)))
                    },
                },
            }
        },
    }
}

/// The text of some requested column is not UTF-8.
pub open spec fn some_text_invalid(bytes: Seq<u8>, indices: Seq<usize>) -> bool {
    exists|k: int|
        0 <= k < indices.len() && column_value(bytes, #[trigger] indices[k] as int) is Err
}

/// What decoding the columns named by `indices` gives.
pub open spec fn requested_scalars(bytes: Seq<u8>, indices: Seq<usize>) -> Result<
    Seq<Option<EncodedScalarView>>,
    EncodingError,
> {
    match row_columns(bytes) {
        Err(error) => Err(error),
        Ok(count) => if some_index_out_of_bounds(indices, count) {
            Err(EncodingError::IndexOutOfBounds(count as usize))
        } else if some_text_invalid(bytes, indices) {
            Err(EncodingError::InvalidUtf8)
        } else {
            Ok(
                Seq::new(
                    indices.len(),
                    |k: int| column_value(bytes, indices[k] as int)->Ok_0,
                ),
            )
        },
    }
}

/// The values of all columns.
pub open spec fn row_values(bytes: Seq<u8>) -> Seq<Option<EncodedScalarView>> {
    Seq::new(row_columns(bytes)->Ok_0, |i: int| column_value(bytes, i)->Ok_0)
}

/// Every text in the row is UTF-8.
pub open spec fn row_texts_valid(bytes: Seq<u8>) -> bool {
    forall|i: int| 0 <= i < row_columns(bytes)->Ok_0 ==> #[trigger] column_value(bytes, i) is Ok
}

/// What decoding all columns gives.
pub open spec fn decoded_row(bytes: Seq<u8>) -> Result<
    Seq<Option<EncodedScalarView>>,
    EncodingError,
> {
    match row_columns(bytes) {
        Err(error) => Err(error),
        Ok(_) => if row_texts_valid(bytes) {
            Ok(row_values(bytes))
        } else {
            Err(EncodingError::InvalidUtf8)
        },
    }
}

/// What concatenating the columns of two rows gives.
pub open spec fn concatenated_rows(left: Seq<u8>, right: Seq<u8>) -> Result<
    Seq<u8>,
    EncodingError,
> {
    match (row_columns(left), row_columns(right)) {
        (Err(error), _) => Err(error),
        (Ok(_), Err(error)) => Err(error),
        (Ok(left_count), Ok(right_count)) => if left_count + right_count > u32::MAX {
            Err(EncodingError::TooManyColumns)
        } else {
            Ok(byte_order::le4_bytes(left_count + right_count) + left.skip(4) + right.skip(4))
        },
    }
}

/// A decoding result as the values it stands for.
pub open spec fn scalars_result(
    result: Result<Vec<Option<EncodedRowScalar>>, EncodingError>,
) -> Result<Seq<Option<EncodedScalarView>>, EncodingError> {
    match result {
        Ok(values) => Ok(scalar_views(values@)),
        Err(error) => Err(error),
    }
}

/// An extraction result as the bytes it stands for.
pub open spec fn columns_result(
    result: Result<Option<Vec<u8>>, EncodingError>,
) -> Result<Option<Seq<u8>>, EncodingError> {
    match result {
        Ok(Some(row)) => Ok(Some(row@)),
        Ok(None) => Ok(None),
        Err(error) => Err(error),
    }
}

/// An extraction result with an integer as the values it stands for.
pub open spec fn columns_and_i64_result(
    result: Result<Option<(Vec<u8>, i64)>, EncodingError>,
) -> Result<Option<(Seq<u8>, i64)>, EncodingError> {
    match result {
        Ok(Some(pair)) => Ok(Some((pair.0@, pair.1))),
        Ok(None) => Ok(None),
        Err(error) => Err(error),
    }
}

/// A row result as the bytes it stands for.
pub open spec fn row_result(result: Result<Vec<u8>, EncodingError>) -> Result<
    Seq<u8>,
    EncodingError,
> {
    match result {
        Ok(row) => Ok(row@),
        Err(error) => Err(error),
    }
}

fn any_index_out_of_bounds(indices: &[usize], count: usize) -> (found: bool)
    ensures
        found == some_index_out_of_bounds(indices@, count as nat),
{
    let mut k: usize = 0;
    while k < indices.len()
        invariant
            k <= indices@.len(),
            forall|j: int| 0 <= j < k ==> #[trigger] indices@[j] < count,
        decreases indices@.len() - k,
    {
        if indices[k] >= count {
            assert(indices@[k as int] >= count);
            return true;
        }
        k = k + 1;
    }
    false
}

/// Whether some requested column with an index of at most `limit` is a null.
fn any_null_selected(
    bytes: &[u8],
    spans: &Vec<(usize, usize)>,
    indices: &[usize],
    limit: usize,
) -> (found: bool)
    requires
        spans_of(bytes@, spans@),
        !some_index_out_of_bounds(indices@, spans@.len()),
    ensures
        found == some_null_selected(bytes@, indices@, limit as int),
{
    let mut k: usize = 0;
    while k < indices.len()
        invariant
            spans_of(bytes@, spans@),
            !some_index_out_of_bounds(indices@, spans@.len()),
            k <= indices@.len(),
            forall|j: int|
                0 <= j < k ==> !(#[trigger] indices@[j] <= limit && column_is_null(
                    bytes@,
                    indices@[j] as int,
                )),
        decreases indices@.len() - k,
    {
        let index: usize = indices[k];
        assert(!(indices@[k as int] >= spans@.len()));
        let span: (usize, usize) = spans[index];
        assert(span == spans@[index as int]);
        assert(column_bytes(bytes@, index as int)[0] == bytes@[span.0 as int]);
        if index <= limit && is_null_field_tag(bytes[span.0]) {
            assert(indices@[k as int] <= limit);
            return true;
        }
        k = k + 1;
    }
    false
}

/// `spans` holds where each column of the row starts and ends.
spec fn spans_of(bytes: Seq<u8>, spans: Seq<(usize, usize)>) -> bool {
    &&& bytes.len() >= 4
    &&& row_columns(bytes) == Ok::<nat, EncodingError>(spans.len())
    &&& forall|i: int|
        0 <= i < spans.len() ==> {
            &&& column_start(bytes, i as nat) == Ok::<int, EncodingError>(
                (#[trigger] spans[i]).0 as int,
            )
            &&& column_start(bytes, (i + 1) as nat) == Ok::<int, EncodingError>(
                spans[i].1 as int,
            )
            &&& spans[i].0 < spans[i].1 <= bytes.len()
        }
}

/// The row made of the columns named by `indices`.
fn select_columns(bytes: &[u8], spans: &Vec<(usize, usize)>, indices: &[usize]) -> (row: Vec<u8>)
    requires
        spans_of(bytes@, spans@),
        !some_index_out_of_bounds(indices@, spans@.len()),
        indices@.len() <= u32::MAX,
    ensures
        row@ == selected_row(bytes@, indices@),
{
    let mut row: Vec<u8> = Vec::new();
    push_u32_le(&mut row, indices.len() as u32);
    let mut k: usize = 0;
    assert(indices@.take(0) =~= Seq::<usize>::empty());
    while k < indices.len()
        invariant
            spans_of(bytes@, spans@),
            !some_index_out_of_bounds(indices@, spans@.len()),
            k <= indices@.len(),
            row@ == byte_order::le4_bytes(indices@.len()) + selected_fields(bytes@, indices@.take(k as int)),
        decreases indices@.len() - k,
    {
        let index: usize = indices[k];
        assert(!(indices@[k as int] >= spans@.len()));
        let span: (usize, usize) = spans[index];
        assert(span == spans@[index as int]);
        let field = vstd::slice::slice_subrange(bytes, span.0, span.1);
        row.extend_from_slice(field);
        proof {
            let next = indices@.take(k + 1);
            assert(next.drop_last() =~= indices@.take(k as int));
            assert(field@ == column_bytes(bytes@, index as int));
            assert(row@ =~= byte_order::le4_bytes(indices@.len()) + selected_fields(bytes@, next));
        }
        k = k + 1;
    }
    assert(indices@.take(k as int) =~= indices@);
    row
}

/// Builds the row made of the columns named by `indices`, or hands back nothing when a requested
/// column is a null and nulls are not wanted.
pub fn extract_encoded_row_columns(
    bytes: &[u8],
    indices: &[usize],
    require_non_null: bool,
) -> (row: Result<Option<Vec<u8>>, EncodingError>)
    ensures
        columns_result(row) == extracted_columns(bytes@, indices@, require_non_null),
{
    let count: usize = match encoded_row_column_count(bytes) {
        Ok(count) => count,
        Err(error) => {
            return Err(error);
        },
    };
    if any_index_out_of_bounds(indices, count) {
        return Err(EncodingError::IndexOutOfBounds(count));
    }
    let spans = column_spans(bytes, count);
    if require_non_null && any_null_selected(bytes, &spans, indices, count) {
        return Ok(None);
    }
    if indices.len() as u64 > u32::MAX as u64 {
        return Err(EncodingError::TooManyColumns);
    }
    Ok(Some(select_columns(bytes, &spans, indices)))
}

/// The value of the column that `span` covers.
fn decode_column(bytes: &[u8], spans: &Vec<(usize, usize)>, index: usize) -> (value: Result<
    Option<EncodedRowScalar>,
    EncodingError,
>)
    requires
        spans_of(bytes@, spans@),
        index < spans@.len(),
    ensures
        match value {
            Ok(scalar) => column_value(bytes@, index as int) == Ok::<
                Option<EncodedScalarView>,
                EncodingError,
            >(scalar_view(scalar)),
            Err(error) => column_value(bytes@, index as int) == Err::<
                Option<EncodedScalarView>,
                EncodingError,
            >(error) && error == EncodingError::InvalidUtf8,
        },
{
    let span: (usize, usize) = spans[index];
    assert(span == spans@[index as int]);
    let tag: u8 = bytes[span.0];
    proof {
        let field = column_bytes(bytes@, index as int);
        assert(field[0] == tag);
        assert(field.skip(1) =~= bytes@.subrange(span.0 + 1, span.1 as int));
    }
    decode_encoded_scalar(bytes, span.0 + 1, tag)
}

/// Decodes the columns named by `indices`, in that order.
///
/// The target is emptied first. When the text of a requested column is not UTF-8, the slots of the
/// columns before the first such column are filled and the others are left empty.
pub fn decode_encoded_row_scalars_into(
    bytes: &[u8],
    indices: &[usize],
    decoded: &mut Vec<Option<EncodedRowScalar>>,
) -> (outcome: Result<(), EncodingError>)
    ensures
        final(decoded)@.len() == indices@.len(),
        match outcome {
            Ok(_) => requested_scalars(bytes@, indices@) == Ok::<
                Seq<Option<EncodedScalarView>>,
                EncodingError,
            >(scalar_views(final(decoded)@)),
            Err(error) => requested_scalars(bytes@, indices@) == Err::<
                Seq<Option<EncodedScalarView>>,
                EncodingError,
            >(error) && if error == EncodingError::InvalidUtf8 {
                exists|bad: int|
                    {
                        &&& #[trigger] first_invalid_text(bytes@, indices@, bad)
                        &&& forall|k: int|
                            0 <= k < indices@.len() ==> scalar_view(#[trigger] final(decoded)@[k])
                                == if indices@[k] < bad {
                                column_value(bytes@, indices@[k] as int)->Ok_0
                            } else {
                                None
                            }
                    }
            } else {
                forall|k: int| 0 <= k < indices@.len() ==> #[trigger] final(decoded)@[k] is None
            },
        },
{
    decoded.clear();
    let count: usize = match encoded_row_column_count(bytes) {
        Ok(count) => count,
        Err(error) => {
            proof {
                lemma_row_error_kind(bytes@);
            }
            fill_empty(decoded, indices.len());
            return Err(error);
        },
    };
    if any_index_out_of_bounds(indices, count) {
        fill_empty(decoded, indices.len());
        return Err(EncodingError::IndexOutOfBounds(count));
    }
    let spans = column_spans(bytes, count);
    let mut bad: usize = count;
    let mut k: usize = 0;
    while k < indices.len()
        invariant
            spans_of(bytes@, spans@),
            spans@.len() == count,
            !some_index_out_of_bounds(indices@, count as nat),
            k <= indices@.len(),
            decoded@.len() == k,
            bad <= count,
            bad < count ==> exists|j: int|
                0 <= j < k && #[trigger] indices@[j] == bad && column_value(bytes@, bad as int) is Err,
            forall|j: int|
                0 <= j < k ==> match column_value(bytes@, #[trigger] indices@[j] as int) {
                    Ok(value) => scalar_view(decoded@[j]) == value,
                    Err(_) => bad <= indices@[j] && decoded@[j] is None,
                },
        decreases indices@.len() - k,
    {
        let index: usize = indices[k];
        assert(!(indices@[k as int] >= count));
        match decode_column(bytes, &spans, index) {
            Ok(value) => {
                decoded.push(value);
            },
            Err(_) => {
                decoded.push(None);
                if index < bad {
                    bad = index;
                }
                assert(indices@[k as int] == index);
            },
        }
        k = k + 1;
    }
    if bad < count {
        blank_from(decoded, indices, bad);
        proof {
            assert(first_invalid_text(bytes@, indices@, bad as int));
            assert(some_text_invalid(bytes@, indices@));
        }
        return Err(EncodingError::InvalidUtf8);
    }
    proof {
        assert forall|j: int| 0 <= j < indices@.len() implies column_value(
            bytes@,
            #[trigger] indices@[j] as int,
        ) is Ok by {
            assert(!(indices@[j] >= count));
        }
        assert(scalar_views(decoded@) =~= Seq::new(
            indices@.len(),
            |k: int| column_value(bytes@, indices@[k] as int)->Ok_0,
        ));
    }
    Ok(())
}

/// Column `bad` is the first requested column whose text is not UTF-8.
pub open spec fn first_invalid_text(bytes: Seq<u8>, indices: Seq<usize>, bad: int) -> bool {
    &&& exists|k: int| 0 <= k < indices.len() && #[trigger] indices[k] == bad
    &&& column_value(bytes, bad) is Err
    &&& forall|k: int|
        0 <= k < indices.len() && indices[k] < bad ==> column_value(
            bytes,
            #[trigger] indices[k] as int,
        ) is Ok
}

/// A row whose fields do not fit is never reported as holding invalid text.
proof fn lemma_row_error_kind(bytes: Seq<u8>)
    ensures
        row_columns(bytes) != Err::<nat, EncodingError>(EncodingError::InvalidUtf8),
{
    lemma_column_error_kind(bytes, announced_columns(bytes));
}

proof fn lemma_column_error_kind(bytes: Seq<u8>, n: nat)
    ensures
        column_start(bytes, n) != Err::<int, EncodingError>(EncodingError::InvalidUtf8),
    decreases n,
{
    if n > 0 {
        lemma_column_error_kind(bytes, (n - 1) as nat);
    }
}

fn fill_empty(decoded: &mut Vec<Option<EncodedRowScalar>>, len: usize)
    requires
        old(decoded)@.len() == 0,
    ensures
        final(decoded)@.len() == len,
        forall|k: int| 0 <= k < len ==> #[trigger] final(decoded)@[k] is None,
{
    let mut k: usize = 0;
    while k < len
        invariant
            k <= len,
            decoded@.len() == k,
            forall|j: int| 0 <= j < k ==> #[trigger] decoded@[j] is None,
        decreases len - k,
    {
        decoded.push(None);
        k = k + 1;
    }
}

/// Empties the slots of the columns from `bad` on.
fn blank_from(decoded: &mut Vec<Option<EncodedRowScalar>>, indices: &[usize], bad: usize)
    requires
        old(decoded)@.len() == indices@.len(),
    ensures
        final(decoded)@.len() == indices@.len(),
        forall|k: int|
            0 <= k < indices@.len() ==> #[trigger] final(decoded)@[k] == if indices@[k] < bad {
                old(decoded)@[k]
            } else {
                None
            },
{
    let mut k: usize = 0;
    while k < indices.len()
        invariant
            k <= indices@.len(),
            decoded@.len() == indices@.len(),
            old(decoded)@.len() == indices@.len(),
            forall|j: int|
                0 <= j < k ==> #[trigger] decoded@[j] == if indices@[j] < bad {
                    old(decoded)@[j]
                } else {
                    None
                },
            forall|j: int| k <= j < indices@.len() ==> #[trigger] decoded@[j] == old(decoded)@[j],
        decreases indices@.len() - k,
    {
        if indices[k] >= bad {
            decoded.set(k, None);
        }
        k = k + 1;
    }
}


/// Decodes the columns named by `indices`, in that order.
pub fn extract_encoded_row_scalars(bytes: &[u8], indices: &[usize]) -> (values: Result<
    Vec<Option<EncodedRowScalar>>,
    EncodingError,
>)
    ensures
        scalars_result(values) == requested_scalars(bytes@, indices@),
{
    let mut decoded: Vec<Option<EncodedRowScalar>> = Vec::new();
    match decode_encoded_row_scalars_into(bytes, indices, &mut decoded) {
        Ok(_) => Ok(decoded),
        Err(error) => Err(error),
    }
}

/// What decoding one column gives.
pub open spec fn requested_scalar(bytes: Seq<u8>, index: usize) -> Result<
    Option<EncodedScalarView>,
    EncodingError,
> {
    match row_columns(bytes) {
        Err(error) => Err(error),
        Ok(count) => if index >= count {
            Err(EncodingError::IndexOutOfBounds(count as usize))
        } else {
            column_value(bytes, index as int)
        },
    }
}

/// Decodes one column.
pub fn extract_encoded_row_scalar(bytes: &[u8], target_index: usize) -> (value: Result<
    Option<EncodedRowScalar>,
    EncodingError,
>)
    ensures
        match value {
            Ok(scalar) => requested_scalar(bytes@, target_index) == Ok::<
                Option<EncodedScalarView>,
                EncodingError,
            >(scalar_view(scalar)),
            Err(error) => requested_scalar(bytes@, target_index) == Err::<
                Option<EncodedScalarView>,
                EncodingError,
            >(error),
        },
{
    let count: usize = match encoded_row_column_count(bytes) {
        Ok(count) => count,
        Err(error) => {
            return Err(error);
        },
    };
    if target_index >= count {
        return Err(EncodingError::IndexOutOfBounds(count));
    }
    let spans = column_spans(bytes, count);
    decode_column(bytes, &spans, target_index)
}

/// Decodes every column.
pub fn decode_all_encoded_row_scalars(bytes: &[u8]) -> (values: Result<
    Vec<Option<EncodedRowScalar>>,
    EncodingError,
>)
    ensures
        scalars_result(values) == decoded_row(bytes@),
{
    let mut decoded: Vec<Option<EncodedRowScalar>> = Vec::new();
    match decode_all_encoded_row_scalars_into(bytes, &mut decoded) {
        Ok(_) => Ok(decoded),
        Err(error) => Err(error),
    }
}

/// Decodes every column into `decoded`.
///
/// The target is left alone when a field does not fit. When the text of a column is not UTF-8, the
/// columns before it are filled and the rest is left empty.
pub fn decode_all_encoded_row_scalars_into(
    bytes: &[u8],
    decoded: &mut Vec<Option<EncodedRowScalar>>,
) -> (outcome: Result<(), EncodingError>)
    ensures
        match outcome {
            Ok(_) => decoded_row(bytes@) == Ok::<Seq<Option<EncodedScalarView>>, EncodingError>(
                scalar_views(final(decoded)@),
            ),
            Err(error) => decoded_row(bytes@) == Err::<
                Seq<Option<EncodedScalarView>>,
                EncodingError,
            >(error) && if row_columns(bytes@) is Err {
                *final(decoded) == *old(decoded)
            } else {
                exists|bad: int|
                    {
                        &&& 0 <= bad < final(decoded)@.len() == row_columns(bytes@)->Ok_0
                        &&& #[trigger] column_value(bytes@, bad) is Err
                        &&& forall|k: int|
                            0 <= k < final(decoded)@.len() ==> scalar_view(
                                #[trigger] final(decoded)@[k],
                            ) == if k < bad {
                                column_value(bytes@, k)->Ok_0
                            } else {
                                None
                            }
                    }
            },
        },
{
    let count: usize = match encoded_row_column_count(bytes) {
        Ok(count) => count,
        Err(error) => {
            return Err(error);
        },
    };
    decoded.clear();
    let spans = column_spans(bytes, count);
    let mut i: usize = 0;
    while i < count
        invariant
            spans_of(bytes@, spans@),
            spans@.len() == count,
            i <= count,
            decoded@.len() == i,
            forall|j: int|
                0 <= j < i ==> #[trigger] column_value(bytes@, j) == Ok::<
                    Option<EncodedScalarView>,
                    EncodingError,
                >(scalar_view(decoded@[j])),
        decreases count - i,
    {
        match decode_column(bytes, &spans, i) {
            Ok(value) => {
                decoded.push(value);
            },
            Err(error) => {
                let ghost filled = decoded@;
                let mut k: usize = i;
                while k < count
                    invariant
                        i < count,
                        i <= k <= count,
                        decoded@.len() == k,
                        filled.len() == i,
                        forall|j: int| 0 <= j < i ==> #[trigger] decoded@[j] == filled[j],
                        forall|j: int| i <= j < k ==> #[trigger] decoded@[j] is None,
                    decreases count - k,
                {
                    decoded.push(None);
                    k = k + 1;
                }
                assert forall|k: int| 0 <= k < decoded@.len() implies scalar_view(
                    #[trigger] decoded@[k],
                ) == if k < i {
                    column_value(bytes@, k)->Ok_0
                } else {
                    None
                } by {
                    if k < i {
                        assert(decoded@[k] == filled[k]);
                        assert(column_value(bytes@, k) is Ok);
                    }
                }
                assert(column_value(bytes@, i as int) is Err);
                return Err(error);
            },
        }
        i = i + 1;
    }
    assert(scalar_views(decoded@) =~= row_values(bytes@));
    Ok(())
}

/// What reading the integer of one column gives.
pub open spec fn extracted_i64(bytes: Seq<u8>, index: usize) -> Result<
    Option<i64>,
    EncodingError,
> {
    match requested_scalar(bytes, index) {
        Err(error) => Err(error),
        Ok(None) => Ok(None),
        Ok(Some(value)) => match i64_like(value) {
            Some(number) => Ok(Some(number)),
            None => Err(EncodingError::NotI64Like(index)),
        },
    }
}

/// Reads the integer held by an integer or timestamp column.
pub fn extract_encoded_row_i64_like_column(bytes: &[u8], target_index: usize) -> (value: Result<
    Option<i64>,
    EncodingError,
>)
    ensures
        value == extracted_i64(bytes@, target_index),
{
    match extract_encoded_row_scalar(bytes, target_index) {
        Ok(Some(EncodedRowScalar::Int64(value))) => Ok(Some(value)),
        Ok(Some(EncodedRowScalar::TimestampMillis(value))) => Ok(Some(value)),
        Ok(Some(_)) => Err(EncodingError::NotI64Like(target_index)),
        Ok(None) => Ok(None),
        Err(error) => Err(error),
    }
}

/// Builds the row made of the columns named by `indices` together with the integer of one more
/// column.
pub fn extract_encoded_row_columns_and_i64_like_column(
    bytes: &[u8],
    indices: &[usize],
    target_index: usize,
    require_non_null: bool,
) -> (row: Result<Option<(Vec<u8>, i64)>, EncodingError>)
    ensures
        columns_and_i64_result(row) == extracted_columns_and_i64(
            bytes@,
            indices@,
            target_index,
            require_non_null,
        ),
{
    let count: usize = match encoded_row_column_count(bytes) {
        Ok(count) => count,
        Err(error) => {
            return Err(error);
        },
    };
    if any_index_out_of_bounds(indices, count) || target_index >= count {
        return Err(EncodingError::IndexOutOfBounds(count));
    }
    let spans = column_spans(bytes, count);
    if require_non_null && any_null_selected(bytes, &spans, indices, target_index) {
        return Ok(None);
    }
    let value: i64 = match decode_column(bytes, &spans, target_index) {
        Ok(Some(EncodedRowScalar::Int64(value))) => value,
        Ok(Some(EncodedRowScalar::TimestampMillis(value))) => value,
        Ok(Some(_)) => {
            return Err(EncodingError::NotI64Like(target_index));
        },
        Ok(None) => {
            return Ok(None);
        },
        Err(error) => {
            return Err(error);
        },
    };
    if require_non_null && any_null_selected(bytes, &spans, indices, count) {
        return Ok(None);
    }
    if indices.len() as u64 > u32::MAX as u64 {
        return Err(EncodingError::TooManyColumns);
    }
    Ok(Some((select_columns(bytes, &spans, indices), value)))
}

/// Builds the row made of the columns of `left` followed by those of `right`.
pub fn concat_encoded_rows(left: &[u8], right: &[u8]) -> (row: Result<Vec<u8>, EncodingError>)
    ensures
        row_result(row) == concatenated_rows(left@, right@),
{
    let left_count: usize = match encoded_row_column_count(left) {
        Ok(count) => count,
        Err(error) => {
            return Err(error);
        },
    };
    let right_count: usize = match encoded_row_column_count(right) {
        Ok(count) => count,
        Err(error) => {
            return Err(error);
        },
    };
    proof {
        byte_order::lemma_le4_bound(left@);
        byte_order::lemma_le4_bound(right@);
    }
    let total: u64 = left_count as u64 + right_count as u64;
    if total > u32::MAX as u64 {
        return Err(EncodingError::TooManyColumns);
    }
    let mut row: Vec<u8> = Vec::new();
    push_u32_le(&mut row, total as u32);
    row.extend_from_slice(vstd::slice::slice_subrange(left, 4, left.len()));
    row.extend_from_slice(vstd::slice::slice_subrange(right, 4, right.len()));
    assert(row@ =~= byte_order::le4_bytes((left_count + right_count) as nat) + left@.skip(4) + right@.skip(4));
    Ok(row)
}


/// A tag together with exactly the payload that it asks for.
pub open spec fn is_field(field: Seq<u8>) -> bool {
    field.len() >= 1 && payload_len(field[0], field.skip(1)) == Ok::<int, EncodingError>(
        field.len() - 1,
    )
}

/// Byte strings one behind the other.
pub open spec fn joined(fields: Seq<Seq<u8>>) -> Seq<u8>
    decreases fields.len(),
{
    if fields.len() == 0 {
        Seq::empty()
    } else {
        joined(fields.drop_last()) + fields.last()
    }
}

/// The row that holds `fields`.
pub open spec fn row_of(fields: Seq<Seq<u8>>) -> Seq<u8> {
    byte_order::le4_bytes(fields.len()) + joined(fields)
}

/// The fields of a row.
pub open spec fn row_fields(bytes: Seq<u8>) -> Seq<Seq<u8>> {
    Seq::new(row_columns(bytes)->Ok_0, |i: int| column_bytes(bytes, i))
}

/// The row holds nothing behind its last column.
pub open spec fn row_ends_with_last_column(bytes: Seq<u8>) -> bool {
    column_start(bytes, announced_columns(bytes)) == Ok::<int, EncodingError>(bytes.len() as int)
}

/// A payload is recognised by its own bytes, whatever follows them.
proof fn lemma_payload_prefix(tag: u8, payload: Seq<u8>, after: Seq<u8>)
    requires
        payload_len(tag, payload) == Ok::<int, EncodingError>(payload.len() as int),
    ensures
        payload_len(tag, payload + after) == Ok::<int, EncodingError>(payload.len() as int),
{
    if tag == 0x02 {
        assert(byte_order::le4(payload + after) == byte_order::le4(payload));
    }
}

proof fn lemma_joined_split(fields: Seq<Seq<u8>>, i: int)
    requires
        0 <= i <= fields.len(),
    ensures
        joined(fields) == joined(fields.take(i)) + joined(fields.skip(i)),
    decreases fields.len(),
{
    if i == fields.len() {
        assert(fields.take(i) =~= fields);
        assert(fields.skip(i) =~= Seq::empty());
        assert(joined(fields) =~= joined(fields.take(i)) + joined(fields.skip(i)));
    } else {
        let front = fields.drop_last();
        lemma_joined_split(front, i);
        assert(front.take(i) =~= fields.take(i));
        assert(front.skip(i) =~= fields.skip(i).drop_last());
        assert(joined(fields) =~= joined(fields.take(i)) + joined(fields.skip(i)));
    }
}

/// In a row made of fields, each column starts behind the fields before it.
proof fn lemma_row_of_starts(fields: Seq<Seq<u8>>, tail: Seq<u8>, i: nat)
    requires
        forall|k: int| 0 <= k < fields.len() ==> is_field(#[trigger] fields[k]),
        i <= fields.len(),
    ensures
        column_start(row_of(fields) + tail, i) == Ok::<int, EncodingError>(
            (4 + joined(fields.take(i as int)).len()) as int,
        ),
    decreases i,
{
    let row = row_of(fields) + tail;
    if i == 0 {
        assert(fields.take(0) =~= Seq::empty());
    } else {
        let j = (i - 1) as nat;
        lemma_row_of_starts(fields, tail, j);
        let start = (4 + joined(fields.take(j as int)).len()) as int;
        let field = fields[j as int];
        assert(is_field(field));
        lemma_joined_split(fields, i as int);
        assert(fields.take(i as int).drop_last() =~= fields.take(j as int));
        let after = joined(fields.skip(i as int)) + tail;
        assert(row =~= byte_order::le4_bytes(fields.len()) + joined(fields.take(j as int)) + field + after);
        assert(row.skip(start + 1) =~= field.skip(1) + after);
        assert(row[start] == field[0]);
        lemma_payload_prefix(field[0], field.skip(1), after);
    }
}

/// A row made of fields has exactly those fields as its columns.
pub proof fn lemma_row_of_columns(fields: Seq<Seq<u8>>, tail: Seq<u8>)
    requires
        forall|k: int| 0 <= k < fields.len() ==> is_field(#[trigger] fields[k]),
        fields.len() <= u32::MAX,
    ensures
        row_columns(row_of(fields) + tail) == Ok::<nat, EncodingError>(fields.len()),
        forall|k: int|
            0 <= k < fields.len() ==> #[trigger] column_bytes(row_of(fields) + tail, k)
                == fields[k],
        tail.len() == 0 ==> row_ends_with_last_column(row_of(fields)),
{
    let row = row_of(fields) + tail;
    byte_order::lemma_le4_round_trip(fields.len());
    assert(byte_order::le4(row) == byte_order::le4(byte_order::le4_bytes(fields.len())));
    lemma_row_of_starts(fields, tail, fields.len());
    assert forall|k: int| 0 <= k < fields.len() implies #[trigger] column_bytes(row, k)
        == fields[k] by {
        lemma_row_of_starts(fields, tail, k as nat);
        lemma_row_of_starts(fields, tail, (k + 1) as nat);
        lemma_joined_split(fields, k + 1);
        assert(fields.take(k + 1).drop_last() =~= fields.take(k));
        assert(row =~= byte_order::le4_bytes(fields.len()) + joined(fields.take(k)) + fields[k] + (joined(
            fields.skip(k + 1),
        ) + tail));
        assert(column_bytes(row, k) =~= fields[k]);
    }
    if tail.len() == 0 {
        assert(row =~= row_of(fields));
        assert(fields.take(fields.len() as int) =~= fields);
    }
}

/// Every column of a readable row is a field.
proof fn lemma_columns_are_fields(bytes: Seq<u8>, i: int)
    requires
        row_columns(bytes) is Ok,
        0 <= i < row_columns(bytes)->Ok_0,
    ensures
        is_field(column_bytes(bytes, i)),
{
    let count = announced_columns(bytes);
    lemma_column_starts(bytes, count, i as nat);
    lemma_column_starts(bytes, count, (i + 1) as nat);
    let start = column_start(bytes, i as nat)->Ok_0;
    let end = column_start(bytes, (i + 1) as nat)->Ok_0;
    let field = column_bytes(bytes, i);
    assert(field[0] == bytes[start]);
    let rest = bytes.skip(start + 1);
    assert(field.skip(1) =~= rest.take(end - start - 1));
    if bytes[start] == 0x02 {
        assert(byte_order::le4(field.skip(1)) == byte_order::le4(rest));
    }
}

/// The bytes of a readable row up to column `n` are its fields one behind the other.
proof fn lemma_row_prefix(bytes: Seq<u8>, n: nat)
    requires
        row_columns(bytes) is Ok,
        n <= row_columns(bytes)->Ok_0,
    ensures
        bytes.subrange(4, column_start(bytes, n)->Ok_0) == joined(
            row_fields(bytes).take(n as int),
        ),
    decreases n,
{
    let count = announced_columns(bytes);
    lemma_column_starts(bytes, count, n);
    if n == 0 {
        assert(bytes.subrange(4, 4) =~= joined(row_fields(bytes).take(0)));
    } else {
        lemma_row_prefix(bytes, (n - 1) as nat);
        lemma_column_starts(bytes, count, (n - 1) as nat);
        let taken = row_fields(bytes).take(n as int);
        assert(taken.drop_last() =~= row_fields(bytes).take(n - 1));
        assert(taken.last() == column_bytes(bytes, n - 1));
        assert(bytes.subrange(4, column_start(bytes, n)->Ok_0) =~= joined(taken));
    }
}

proof fn lemma_selected_fields_joined(bytes: Seq<u8>, indices: Seq<usize>)
    ensures
        selected_fields(bytes, indices) == joined(
            Seq::new(indices.len(), |k: int| column_bytes(bytes, indices[k] as int)),
        ),
    decreases indices.len(),
{
    let fields = Seq::new(indices.len(), |k: int| column_bytes(bytes, indices[k] as int));
    if indices.len() > 0 {
        lemma_selected_fields_joined(bytes, indices.drop_last());
        assert(fields.drop_last() =~= Seq::new(
            indices.drop_last().len(),
            |k: int| column_bytes(bytes, indices.drop_last()[k] as int),
        ));
    }
}

/// Extracting columns and decoding the resulting row gives the same values as decoding those
/// columns of the row they came from.
pub proof fn law_selection_commutes_with_decoding(
    bytes: Seq<u8>,
    indices: Seq<usize>,
    require_non_null: bool,
)
    requires
        extracted_columns(bytes, indices, require_non_null) matches Ok(Some(_)),
    ensures
        ({
            let row = extracted_columns(bytes, indices, require_non_null)->Ok_0->Some_0;
            &&& decoded_row(row) == requested_scalars(bytes, indices)
            &&& row_columns(row) == Ok::<nat, EncodingError>(indices.len())
            &&& forall|k: int|
                0 <= k < indices.len() ==> #[trigger] column_bytes(row, k) == column_bytes(
                    bytes,
                    indices[k] as int,
                )
        }),
{
    let row = selected_row(bytes, indices);
    let fields = Seq::new(indices.len(), |k: int| column_bytes(bytes, indices[k] as int));
    assert forall|k: int| 0 <= k < fields.len() implies is_field(#[trigger] fields[k]) by {
        assert(!(indices[k] >= row_columns(bytes)->Ok_0));
        lemma_columns_are_fields(bytes, indices[k] as int);
    }
    lemma_selected_fields_joined(bytes, indices);
    lemma_row_of_columns(fields, Seq::empty());
    assert(row_of(fields) + Seq::<u8>::empty() =~= row);
    assert forall|k: int| 0 <= k < indices.len() implies #[trigger] column_value(row, k)
        == column_value(bytes, indices[k] as int) && column_bytes(row, k) == column_bytes(
        bytes,
        indices[k] as int,
    ) by {
        assert(column_bytes(row, k) == fields[k]);
    }
    if some_text_invalid(bytes, indices) {
        let k = choose|k: int|
            0 <= k < indices.len() && column_value(bytes, #[trigger] indices[k] as int) is Err;
        assert(column_value(row, k) is Err);
        assert(!row_texts_valid(row));
    } else {
        assert forall|k: int| 0 <= k < row_columns(row)->Ok_0 implies #[trigger] column_value(
            row,
            k,
        ) is Ok by {
            assert(column_value(bytes, indices[k] as int) is Ok);
        }
        assert(row_values(row) =~= requested_scalars(bytes, indices)->Ok_0);
    }
}

/// Decoding a concatenation gives the values of the left row followed by those of the right row.
///
/// The left row must end with its last column: bytes behind it would be taken for columns.
pub proof fn law_concatenation_appends_values(left: Seq<u8>, right: Seq<u8>)
    requires
        row_ends_with_last_column(left),
        concatenated_rows(left, right) is Ok,
    ensures
        ({
            let row = concatenated_rows(left, right)->Ok_0;
            &&& row_columns(row) == Ok::<nat, EncodingError>(
                row_columns(left)->Ok_0 + row_columns(right)->Ok_0,
            )
            &&& row_texts_valid(row) <==> row_texts_valid(left) && row_texts_valid(right)
            &&& decoded_row(left) is Ok && decoded_row(right) is Ok ==> decoded_row(row) == Ok::<
                Seq<Option<EncodedScalarView>>,
                EncodingError,
            >(decoded_row(left)->Ok_0 + decoded_row(right)->Ok_0)
        }),
{
    let row = concatenated_rows(left, right)->Ok_0;
    let ln = row_columns(left)->Ok_0;
    let rn = row_columns(right)->Ok_0;
    let fields = row_fields(left) + row_fields(right);
    let right_end = column_start(right, rn)->Ok_0;
    let tail = right.skip(right_end);
    lemma_column_starts(right, rn, rn);
    assert forall|k: int| 0 <= k < fields.len() implies is_field(#[trigger] fields[k]) by {
        if k < ln {
            lemma_columns_are_fields(left, k);
        } else {
            lemma_columns_are_fields(right, k - ln);
        }
    }
    lemma_row_prefix(left, ln);
    lemma_row_prefix(right, rn);
    lemma_joined_split(fields, ln as int);
    assert(row_fields(left).take(ln as int) =~= row_fields(left));
    assert(row_fields(right).take(rn as int) =~= row_fields(right));
    assert(fields.take(ln as int) =~= row_fields(left));
    assert(fields.skip(ln as int) =~= row_fields(right));
    assert(left.skip(4) =~= joined(row_fields(left)));
    assert(right.skip(4) =~= joined(row_fields(right)) + tail);
    assert(row =~= row_of(fields) + tail);
    lemma_row_of_columns(fields, tail);
    assert forall|k: int| 0 <= k < ln + rn implies #[trigger] column_value(row, k) == if k < ln {
        column_value(left, k)
    } else {
        column_value(right, k - ln)
    } by {
        assert(column_bytes(row, k) == fields[k]);
    }
    if row_texts_valid(row) {
        assert forall|k: int| 0 <= k < ln implies #[trigger] column_value(left, k) is Ok by {
            assert(column_value(row, k) is Ok);
        }
        assert forall|k: int| 0 <= k < rn implies #[trigger] column_value(right, k) is Ok by {
            assert(column_value(row, k + ln) is Ok);
        }
    }
    if row_texts_valid(left) && row_texts_valid(right) {
        assert(row_values(row) =~= row_values(left) + row_values(right));
    }
}

/// The field of a value: a byte that tells its type, and then the value, integers least significant
/// byte first, and texts behind their length.
pub open spec fn field_of(value: EncodedScalarView) -> Seq<u8> {
    match value {
        EncodedScalarView::Int64(v) => seq![0x01u8] + byte_order::le8_bytes(
            byte_order::unsigned64(v as int),
        ),
        EncodedScalarView::Utf8(shown) => seq![0x02u8] + byte_order::le4_bytes(
            encode_utf8(shown).len(),
        ) + encode_utf8(shown),
        EncodedScalarView::TimestampMillis(v) => seq![0x03u8] + byte_order::le8_bytes(
            byte_order::unsigned64(v as int),
        ),
        EncodedScalarView::Bool(b) => seq![
            0x04u8,
            if b {
                1u8
            } else {
                0u8
            },
        ],
        EncodedScalarView::DateDays(d) => seq![0x09u8] + byte_order::le4_bytes(
            byte_order::unsigned32(d as int),
        ),
        EncodedScalarView::Decimal128(v) => {
            let n = if v < 0 {
                (v + 0x1_0000_0000_0000_0000_0000_0000_0000_0000) as nat
            } else {
                v as nat
            };
            seq![0x0Bu8] + byte_order::le8_bytes(n % 0x1_0000_0000_0000_0000)
                + byte_order::le8_bytes(n / 0x1_0000_0000_0000_0000)
        },
    }
}

/// A byte that tells a null of one of the types.
pub open spec fn tells_null(tag: u8) -> bool {
    tag == 0x00 || 0x05 <= tag <= 0x08 || tag == 0x0A || tag == 0x0C
}

/// A field is that of a value, or of a null.
pub open spec fn is_field_of(field: Seq<u8>, value: Option<EncodedScalarView>) -> bool {
    match value {
        Some(v) => field == field_of(v) && (v matches EncodedScalarView::Utf8(shown) ==> encode_utf8(
            shown,
        ).len() <= u32::MAX),
        None => field.len() == 1 && tells_null(field[0]),
    }
}

proof fn lemma_integer_field(v: i64)
    ensures
        ({
            let n = byte_order::unsigned64(v as int);
            let rest = byte_order::le8_bytes(n);
            &&& rest.len() == 8
            &&& byte_order::signed64(byte_order::le8(rest)) as i64 == v
        }),
{
    byte_order::lemma_le8_round_trip(byte_order::unsigned64(v as int));
}

proof fn lemma_text_field(shown: Seq<char>)
    requires
        encode_utf8(shown).len() <= u32::MAX,
    ensures
        ({
            let bytes = encode_utf8(shown);
            let rest = byte_order::le4_bytes(bytes.len()) + bytes;
            &&& rest.len() == 4 + bytes.len()
            &&& byte_order::le4(rest) == bytes.len()
            &&& rest.skip(4) == bytes
            &&& valid_utf8(bytes)
            &&& decode_utf8(bytes) == shown
        }),
{
    let bytes = encode_utf8(shown);
    let rest = byte_order::le4_bytes(bytes.len()) + bytes;
    byte_order::lemma_le4_round_trip(bytes.len());
    assert(byte_order::le4(rest) == byte_order::le4(byte_order::le4_bytes(bytes.len())));
    assert(rest.skip(4) =~= bytes);
    vstd::utf8::encode_utf8_valid_utf8(shown);
    vstd::utf8::encode_utf8_decode_utf8(shown);
}

proof fn lemma_tagged(tag: u8, rest: Seq<u8>)
    ensures
        (seq![tag] + rest)[0] == tag,
        (seq![tag] + rest).skip(1) == rest,
        (seq![tag] + rest).len() == rest.len() + 1,
{
    assert((seq![tag] + rest).skip(1) =~= rest);
}

proof fn lemma_number_fields(v: i64)
    ensures
        ({
            let rest = byte_order::le8_bytes(byte_order::unsigned64(v as int));
            &&& payload_len(0x01, rest) == Ok::<int, EncodingError>(rest.len() as int)
            &&& payload_len(0x03, rest) == Ok::<int, EncodingError>(rest.len() as int)
            &&& field_value(0x01, rest) == Ok::<Option<EncodedScalarView>, EncodingError>(
                Some(EncodedScalarView::Int64(v)),
            )
            &&& field_value(0x03, rest) == Ok::<Option<EncodedScalarView>, EncodingError>(
                Some(EncodedScalarView::TimestampMillis(v)),
            )
        }),
{
    lemma_integer_field(v);
}

proof fn lemma_date_field(d: i32)
    ensures
        ({
            let rest = byte_order::le4_bytes(byte_order::unsigned32(d as int));
            &&& payload_len(0x09, rest) == Ok::<int, EncodingError>(rest.len() as int)
            &&& field_value(0x09, rest) == Ok::<Option<EncodedScalarView>, EncodingError>(
                Some(EncodedScalarView::DateDays(d)),
            )
        }),
{
    byte_order::lemma_le4_round_trip(byte_order::unsigned32(d as int));
}

proof fn lemma_decimal_field(v: i128)
    ensures
        ({
            let rest = field_of(EncodedScalarView::Decimal128(v)).skip(1);
            &&& payload_len(0x0B, rest) == Ok::<int, EncodingError>(rest.len() as int)
            &&& field_value(0x0B, rest) == Ok::<Option<EncodedScalarView>, EncodingError>(
                Some(EncodedScalarView::Decimal128(v)),
            )
        }),
{
    let n = if v < 0 {
        (v + 0x1_0000_0000_0000_0000_0000_0000_0000_0000) as nat
    } else {
        v as nat
    };
    let rest = byte_order::le8_bytes(n % 0x1_0000_0000_0000_0000) + byte_order::le8_bytes(
        n / 0x1_0000_0000_0000_0000,
    );
    byte_order::lemma_le16_round_trip(n);
    assert(field_of(EncodedScalarView::Decimal128(v)) =~= seq![0x0Bu8] + rest);
    lemma_tagged(0x0B, rest);
}

proof fn lemma_field_of(field: Seq<u8>, value: Option<EncodedScalarView>)
    requires
        is_field_of(field, value),
    ensures
        is_field(field),
        field_value(field[0], field.skip(1)) == Ok::<Option<EncodedScalarView>, EncodingError>(
            value,
        ),
        null_tag(field[0]) == (value is None),
{
    match value {
        None => {},
        Some(EncodedScalarView::Int64(v)) => {
            lemma_number_fields(v);
            lemma_tagged(0x01, byte_order::le8_bytes(byte_order::unsigned64(v as int)));
        },
        Some(EncodedScalarView::TimestampMillis(v)) => {
            lemma_number_fields(v);
            lemma_tagged(0x03, byte_order::le8_bytes(byte_order::unsigned64(v as int)));
        },
        Some(EncodedScalarView::DateDays(d)) => {
            lemma_date_field(d);
            lemma_tagged(0x09, byte_order::le4_bytes(byte_order::unsigned32(d as int)));
        },
        Some(EncodedScalarView::Bool(b)) => {
            assert(field.skip(1).len() == 1);
        },
        Some(EncodedScalarView::Utf8(shown)) => {
            lemma_text_field(shown);
            let bytes = encode_utf8(shown);
            let rest = byte_order::le4_bytes(bytes.len()) + bytes;
            assert(field =~= seq![0x02u8] + rest);
            lemma_tagged(0x02, rest);
        },
        Some(EncodedScalarView::Decimal128(v)) => {
            lemma_decimal_field(v);
            assert(field.len() == 17);
        },
    }
}

/// An encoded row is decoded to its values: a row made of the number of its columns and of the
/// fields of values, in their order, gives these values, with a null for each field of one. So does
/// reading any one of its columns.
#[verifier::rlimit(40)]
pub proof fn law_encoded_row_is_decoded(
    fields: Seq<Seq<u8>>,
    values: Seq<Option<EncodedScalarView>>,
)
    requires
        fields.len() == values.len(),
        fields.len() <= u32::MAX,
        forall|i: int| 0 <= i < fields.len() ==> is_field_of(#[trigger] fields[i], values[i]),
    ensures
        decoded_row(byte_order::le4_bytes(fields.len()) + joined(fields)) == Ok::<
            Seq<Option<EncodedScalarView>>,
            EncodingError,
        >(values),
        forall|i: usize|
            i < values.len() ==> #[trigger] requested_scalar(
                byte_order::le4_bytes(fields.len()) + joined(fields),
                i,
            ) == Ok::<Option<EncodedScalarView>, EncodingError>(values[i as int]),
        forall|i: int|
            0 <= i < values.len() ==> #[trigger] column_is_null(
                byte_order::le4_bytes(fields.len()) + joined(fields),
                i,
            ) == (values[i] is None),
{
    let row = row_of(fields);
    assert forall|i: int| 0 <= i < fields.len() implies is_field(#[trigger] fields[i]) by {
        lemma_field_of(fields[i], values[i]);
    }
    lemma_row_of_columns(fields, Seq::empty());
    assert(row + Seq::<u8>::empty() =~= row);
    assert forall|i: int| 0 <= i < fields.len() implies #[trigger] column_value(row, i) == Ok::<
        Option<EncodedScalarView>,
        EncodingError,
    >(values[i]) by {
        assert(column_bytes(row, i) == fields[i]);
        lemma_field_of(fields[i], values[i]);
    }
    assert forall|i: int| 0 <= i < values.len() implies #[trigger] column_is_null(row, i) == (
    values[i] is None) by {
        assert(column_bytes(row, i) == fields[i]);
        lemma_field_of(fields[i], values[i]);
    }
    assert(row_values(row) =~= values);
}

/// Integers and moments are read as integers, and a value of another type is not one.
pub proof fn law_integers_are_extracted(
    fields: Seq<Seq<u8>>,
    values: Seq<Option<EncodedScalarView>>,
    index: usize,
)
    requires
        fields.len() == values.len(),
        fields.len() <= u32::MAX,
        index < fields.len(),
        forall|i: int| 0 <= i < fields.len() ==> is_field_of(#[trigger] fields[i], values[i]),
    ensures
        extracted_i64(byte_order::le4_bytes(fields.len()) + joined(fields), index)
            == match values[index as int] {
            None => Ok::<Option<i64>, EncodingError>(None),
            Some(EncodedScalarView::Int64(v)) => Ok(Some(v)),
            Some(EncodedScalarView::TimestampMillis(v)) => Ok(Some(v)),
            Some(_) => Err(EncodingError::NotI64Like(index)),
        },
{
    law_encoded_row_is_decoded(fields, values);
}

/// Columns that are asked for without nulls are none where one of them is null, and otherwise they
/// are the same as those that are asked for with nulls.
pub proof fn law_nulls_end_the_selection(bytes: Seq<u8>, indices: Seq<usize>)
    ensures
        ({
            let with_nulls = extracted_columns(bytes, indices, false);
            let without = extracted_columns(bytes, indices, true);
            let null = exists|k: int|
                0 <= k < indices.len() && column_is_null(bytes, #[trigger] indices[k] as int);
            &&& with_nulls is Err && with_nulls != Err::<Option<Seq<u8>>, EncodingError>(
                EncodingError::TooManyColumns,
            ) ==> without == with_nulls
            &&& with_nulls is Ok && null ==> without == Ok::<Option<Seq<u8>>, EncodingError>(None)
            &&& with_nulls is Ok && !null ==> without == with_nulls
            &&& with_nulls is Ok ==> with_nulls->Ok_0 is Some
        }),
{
    if let Ok(count) = row_columns(bytes) {
        if !some_index_out_of_bounds(indices, count) {
            if exists|k: int|
                0 <= k < indices.len() && column_is_null(bytes, #[trigger] indices[k] as int) {
                let k = choose|k: int|
                    0 <= k < indices.len() && column_is_null(bytes, #[trigger] indices[k] as int);
                assert(!(indices[k] >= count));
                assert(some_null_selected(bytes, indices, count as int));
            }
        }
    }
}

/// Columns and an integer that are extracted together are those that are extracted one after the
/// other; where one of them cannot be had there is neither.
pub proof fn law_columns_and_integer_together(
    bytes: Seq<u8>,
    indices: Seq<usize>,
    target: usize,
    require_non_null: bool,
)
    ensures
        extracted_columns_and_i64(bytes, indices, target, require_non_null) matches Ok(Some(
            (row, number),
        )) ==> extracted_columns(bytes, indices, require_non_null) == Ok::<
            Option<Seq<u8>>,
            EncodingError,
        >(Some(row)) && extracted_i64(bytes, target) == Ok::<Option<i64>, EncodingError>(
            Some(number),
        ),
        (extracted_columns(bytes, indices, require_non_null) matches Ok(Some(_))) && (
        extracted_i64(bytes, target) matches Ok(Some(_))) ==> extracted_columns_and_i64(
            bytes,
            indices,
            target,
            require_non_null,
        ) matches Ok(Some(_)),
{
    if let Ok(count) = row_columns(bytes) {
        if require_non_null && some_null_selected(bytes, indices, target as int) && target < count {
            assert(some_null_selected(bytes, indices, count as int));
        }
    }
}

} // verus!
