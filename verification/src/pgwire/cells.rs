//! Cells of batches as the texts that are sent to a client.

use chrono::{DateTime, Offset, TimeZone};
use datafusion::arrow::array::timezone::Tz;
use datafusion::arrow::array::{
    BinaryArray, BooleanArray, Date32Array, Decimal128Array, Int64Array, TimestampMillisecondArray,
    UInt64Array,
};
use datafusion::arrow::util::display::array_value_to_string;
use vstd::prelude::*;
use vstd::utf8::*;

use super::messages;
use crate::columns::{Cell, CellView, Column, ColumnBatch};
use crate::expression_eval::scalar_functions;
use crate::text;
use crate::values;
use crate::values::DataType;

verus! {

/// Why a cell has no text.
#[derive(Clone, Copy, Debug, PartialEq, Eq, Structural)]
pub enum CellError {
    /// A value of its type cannot be shown.
    Unshown,
    /// The text is longer than a message can tell.
    TooLong,
}

/// By how many seconds a time zone is ahead of UTC at a moment.
pub uninterp spec fn zone_offset(millis: i64, zone: Seq<char>) -> Option<i32>;

/// The text of a timestamp in milliseconds, with its time zone where it has one.
pub uninterp spec fn timestamp_text(millis: i64, zone: Option<Seq<char>>) -> Option<Seq<char>>;

/// The text of a date in days since the epoch.
pub uninterp spec fn date_text(days: i32) -> Option<Seq<char>>;

/// Zeros.
pub open spec fn zeros(n: int) -> Seq<char> {
    Seq::new(n as nat, |i: int| '0')
}

/// The text of a decimal with its precision and scale, where these fit together: its first digits,
/// as many as the precision says, with the decimal point in front of the last ones, as many as the
/// scale says. A negative scale stands for that many zeros behind the digits.
pub open spec fn decimal_text(value: i128, precision: u8, scale: i8) -> Option<Seq<char>> {
    if 1 <= precision <= 38 && scale <= 38 && (scale <= 0 || scale <= precision) {
        let sign = if value < 0 {
            seq!['-']
        } else {
            Seq::empty()
        };
        let digits = text::signed_decimal(value as int).skip(sign.len() as int);
        let kept = if digits.len() <= precision {
            digits
        } else {
            digits.take(precision as int)
        };
        Some(
            if scale <= 0 {
                sign + kept + zeros(-scale)
            } else if digits.len() > scale {
                sign + kept.take(kept.len() - scale) + seq!['.'] + kept.skip(kept.len() - scale)
            } else {
                sign + seq!['0', '.'] + zeros(scale - digits.len()) + digits
            },
        )
    } else {
        None
    }
}

/// A digit to the base sixteen.
pub open spec fn hex_digit(n: int) -> char {
    if n < 10 {
        (n + '0' as int) as char
    } else {
        (n - 10 + 'a' as int) as char
    }
}

/// Two digits for each byte.
pub open spec fn hex_text(bytes: Seq<u8>) -> Seq<char> {
    Seq::new(
        2 * bytes.len(),
        |i: int|
            hex_digit(
                if i % 2 == 0 {
                    bytes[i / 2] as int / 16
                } else {
                    bytes[i / 2] as int % 16
                },
            ),
    )
}

/// `array_value_to_string` for a boolean.
#[verifier::external_body]
fn show_bool(value: bool) -> (shown: Option<String>)
    ensures
        values::opt_text(shown) == Some(
            if value {
                "true"@
            } else {
                "false"@
            },
        ),
{
    array_value_to_string(&BooleanArray::from(vec![value]), 0).ok()
}

/// `array_value_to_string` for an integer: its decimal text.
#[verifier::external_body]
fn show_int64(value: i64) -> (shown: Option<String>)
    ensures
        values::opt_text(shown) == Some(text::signed_decimal(value as int)),
{
    array_value_to_string(&Int64Array::from(vec![value]), 0).ok()
}

/// `array_value_to_string` for an unsigned integer: its decimal text.
#[verifier::external_body]
fn show_uint64(value: u64) -> (shown: Option<String>)
    ensures
        values::opt_text(shown) == Some(text::decimal(value as nat)),
{
    array_value_to_string(&UInt64Array::from(vec![value]), 0).ok()
}

/// `array_value_to_string` for a byte string: two small hexadecimal digits for each byte.
#[verifier::external_body]
fn show_binary(value: &[u8]) -> (shown: Option<String>)
    requires
        value@.len() <= i32::MAX,
    ensures
        values::opt_text(shown) == Some(hex_text(value@)),
{
    array_value_to_string(&BinaryArray::from(vec![value]), 0).ok()
}

/// `Tz::from_str`, `TimeZone::offset_from_utc_datetime` and `FixedOffset::local_minus_utc`: by how
/// many seconds a time zone is ahead of UTC at a moment; nothing for a time zone that arrow does
/// not know and for a moment that chrono cannot hold. How many those are is left to the name of the
/// result.
#[verifier::external_body]
fn offset_at(millis: i64, zone: &str) -> (offset: Option<i32>)
    ensures
        offset == zone_offset(millis, zone@),
{
    let known: Tz = zone.parse().ok()?;
    let moment = DateTime::from_timestamp_millis(millis)?;
    Some(known.offset_from_utc_datetime(&moment.naive_utc()).fix().local_minus_utc())
}

/// The local time of a moment in a time zone is one that chrono can hold, or there is none because
/// the zone is not known or the moment is no moment.
pub open spec fn local_time_in_range(millis: i64, zone: Seq<char>) -> bool {
    match zone_offset(millis, zone) {
        Some(seconds) => scalar_functions::moment_in_range(millis + 1000 * seconds),
        None => true,
    }
}

/// The local time of a moment in a time zone is one that chrono can hold, or there is none.
fn has_local_time(millis: i64, zone: &str) -> (held: bool)
    ensures
        held == local_time_in_range(millis, zone@),
{
    match offset_at(millis, zone) {
        Some(seconds) => {
            let local: i128 = millis as i128 + 1000 * (seconds as i128);
            -8_334_601_228_800_000 <= local && local <= 8_210_266_876_799_999
        },
        None => true,
    }
}

/// `array_value_to_string` for a timestamp whose local time chrono can hold, or that is itself no
/// moment that chrono can hold; nothing for a time zone that arrow does not know. Which text it
/// gives is left to the name of the result.
#[verifier::external_body]
fn show_timestamp(millis: i64, zone: &Option<String>) -> (shown: Option<String>)
    requires
        zone matches Some(known) ==> local_time_in_range(millis, known@),
    ensures
        values::opt_text(shown) == timestamp_text(millis, values::opt_text(*zone)),
{
    let array = TimestampMillisecondArray::from(vec![millis]).with_timezone_opt(zone.clone());
    array_value_to_string(&array, 0).ok()
}

/// `array_value_to_string` for a date. Which text it gives is left to the name of the result.
#[verifier::external_body]
fn show_date(days: i32) -> (shown: Option<String>)
    ensures
        values::opt_text(shown) == date_text(days),
{
    array_value_to_string(&Date32Array::from(vec![days]), 0).ok()
}

/// `array_value_to_string` for a decimal: its digits up to the precision, with the decimal point
/// that the scale asks for; nothing for a precision and scale that `with_precision_and_scale`
/// refuses.
#[verifier::external_body]
fn show_decimal(value: i128, precision: u8, scale: i8) -> (shown: Option<String>)
    ensures
        values::opt_text(shown) == decimal_text(value, precision, scale),
{
    let array = Decimal128Array::from(vec![value]).with_precision_and_scale(precision, scale);
    array_value_to_string(&array.ok()?, 0).ok()
}

/// The time zone of a type.
pub open spec fn zone_of(data_type: DataType) -> Option<Seq<char>> {
    match data_type {
        DataType::Timestamp(_, zone) => values::opt_text(zone),
        _ => None,
    }
}

/// The text of a value in a column of a type.
pub open spec fn value_text(cell: CellView, data_type: DataType) -> Option<Seq<char>> {
    match cell {
        CellView::Null => None,
        CellView::Bool(value) => Some(
            if value {
                "true"@
            } else {
                "false"@
            },
        ),
        CellView::Int64(value) => Some(text::signed_decimal(value as int)),
        CellView::UInt64(value) => Some(text::decimal(value as nat)),
        CellView::Utf8(value) => Some(value),
        CellView::TimestampMillis(millis) => match zone_of(data_type) {
            Some(zone) if !local_time_in_range(millis, zone) => None,
            zone => timestamp_text(millis, zone),
        },
        CellView::DateDays(days) => date_text(days),
        CellView::Decimal128(value) => match data_type {
            DataType::Decimal128(precision, scale) => decimal_text(value, precision, scale),
            _ => None,
        },
        CellView::Binary(bytes) => if bytes.len() <= i32::MAX {
            Some(hex_text(bytes))
        } else {
            None
        },
        CellView::Other(shown) => Some(shown),
    }
}

/// What is sent of a cell: nothing of a null.
pub open spec fn sent_text(cell: CellView, data_type: DataType) -> Result<
    Option<Seq<char>>,
    CellError,
> {
    if cell is Null {
        Ok(None)
    } else {
        match value_text(cell, data_type) {
            None => Err(CellError::Unshown),
            Some(shown) => if encode_utf8(shown).len() <= i32::MAX {
                Ok(Some(shown))
            } else {
                Err(CellError::TooLong)
            },
        }
    }
}

/// A text that is sent, or why there is none.
pub open spec fn sent_result(result: Result<Option<String>, CellError>) -> Result<
    Option<Seq<char>>,
    CellError,
> {
    match result {
        Ok(shown) => Ok(values::opt_text(shown)),
        Err(error) => Err(error),
    }
}

/// The text of a value in a column of a type.
fn show_value(cell: &Cell, data_type: &DataType) -> (shown: Option<String>)
    ensures
        values::opt_text(shown) == value_text(cell@, *data_type),
{
    match cell {
        Cell::Null => None,
        Cell::Bool(value) => show_bool(*value),
        Cell::Int64(value) => show_int64(*value),
        Cell::UInt64(value) => show_uint64(*value),
        Cell::Utf8(value) => Some(value.clone()),
        Cell::TimestampMillis(millis) => match data_type {
            DataType::Timestamp(_, zone) => {
                let shown: bool = match zone {
                    Some(known) => has_local_time(*millis, known.as_str()),
                    None => true,
                };
                if shown {
                    show_timestamp(*millis, zone)
                } else {
                    None
                }
            },
            _ => show_timestamp(*millis, &None),
        },
        Cell::DateDays(days) => show_date(*days),
        Cell::Decimal128(value) => match data_type {
            DataType::Decimal128(precision, scale) => show_decimal(*value, *precision, *scale),
            _ => None,
        },
        Cell::Binary(bytes) => if bytes.len() <= 0x7fff_ffff {
            show_binary(bytes.as_slice())
        } else {
            None
        },
        Cell::Other(shown) => Some(shown.clone()),
    }
}

/// What is sent of a cell of a column: nothing of a null.
pub fn cell_text(cell: &Cell, data_type: &DataType) -> (result: Result<Option<String>, CellError>)
    ensures
        sent_result(result) == sent_text(cell@, *data_type),
{
    match cell {
        Cell::Null => Ok(None),
        _ => match show_value(cell, data_type) {
            None => Err(CellError::Unshown),
            Some(shown) => if shown.as_str().as_bytes().len() <= 0x7fff_ffff {
                Ok(Some(shown))
            } else {
                Err(CellError::TooLong)
            },
        },
    }
}

/// What is sent of the first `n` cells of a row, or why one has no text.
pub open spec fn sent_cells(columns: Seq<Column>, row: int, n: nat) -> Result<
    Seq<Option<Seq<char>>>,
    CellError,
>
    decreases n,
{
    if n == 0 {
        Ok(Seq::empty())
    } else {
        match sent_cells(columns, row, (n - 1) as nat) {
            Err(error) => Err(error),
            Ok(front) => match sent_text(columns[n - 1].cells@[row]@, columns[n - 1].data_type) {
                Err(error) => Err(error),
                Ok(shown) => Ok(front.push(shown)),
            },
        }
    }
}

proof fn lemma_sent_cells_ended(columns: Seq<Column>, row: int, n: nat, m: nat)
    requires
        n <= m,
        sent_cells(columns, row, n) is Err,
    ensures
        sent_cells(columns, row, m) == sent_cells(columns, row, n),
    decreases m,
{
    if n < m {
        lemma_sent_cells_ended(columns, row, n, (m - 1) as nat);
    }
}

/// Every column of a batch has a cell in every row.
pub open spec fn level(batch: ColumnBatch) -> bool {
    forall|i: int|
        0 <= i < batch.columns@.len() ==> (#[trigger] batch.columns@[i]).cells@.len() == batch.rows
}

/// What is sent of a row of a batch, or why one of its cells has no text.
pub open spec fn sent_row(batch: ColumnBatch, row: int) -> Result<
    Seq<Option<Seq<char>>>,
    CellError,
> {
    sent_cells(batch.columns@, row, batch.columns@.len())
}

/// What is sent of a row of a batch, or why one of its cells has no text.
pub fn row_texts(batch: &ColumnBatch, row: usize) -> (result: Result<
    Vec<Option<String>>,
    CellError,
>)
    requires
        level(*batch),
        row < batch.rows,
    ensures
        match result {
            Ok(cells) => sent_row(*batch, row as int) == Ok::<Seq<Option<Seq<char>>>, CellError>(
                messages::cell_texts(cells@),
            ) && messages::cells_fit(cells@) && cells@.len() == batch.columns@.len(),
            Err(error) => sent_row(*batch, row as int) == Err::<
                Seq<Option<Seq<char>>>,
                CellError,
            >(error),
        },
{
    let mut cells: Vec<Option<String>> = Vec::new();
    let mut i: usize = 0;
    assert(messages::cell_texts(cells@) =~= Seq::<Option<Seq<char>>>::empty());
    while i < batch.columns.len()
        invariant
            i <= batch.columns@.len(),
            level(*batch),
            row < batch.rows,
            cells@.len() == i,
            messages::cells_fit(cells@),
            sent_cells(batch.columns@, row as int, i as nat) == Ok::<
                Seq<Option<Seq<char>>>,
                CellError,
            >(messages::cell_texts(cells@)),
        decreases batch.columns@.len() - i,
    {
        let ghost before = messages::cell_texts(cells@);
        assert(batch.columns@[i as int].cells@.len() == batch.rows);
        match cell_text(&batch.columns[i].cells[row], &batch.columns[i].data_type) {
            Err(error) => {
                proof {
                    lemma_sent_cells_ended(
                        batch.columns@,
                        row as int,
                        (i + 1) as nat,
                        batch.columns@.len(),
                    );
                }
                return Err(error);
            },
            Ok(shown) => {
                cells.push(shown);
                assert(messages::cell_texts(cells@) =~= before.push(values::opt_text(shown)));
            },
        }
        i = i + 1;
    }
    Ok(cells)
}

/// What is sent of rows `from..to` of a batch, or why one of their cells has no text.
pub open spec fn sent_rows(batch: ColumnBatch, from: int, to: int) -> Result<
    Seq<Seq<Option<Seq<char>>>>,
    CellError,
>
    decreases to - from,
{
    if to <= from {
        Ok(Seq::empty())
    } else {
        match sent_rows(batch, from, to - 1) {
            Err(error) => Err(error),
            Ok(front) => match sent_row(batch, to - 1) {
                Err(error) => Err(error),
                Ok(cells) => Ok(front.push(cells)),
            },
        }
    }
}

proof fn lemma_sent_rows_ended(batch: ColumnBatch, from: int, n: int, m: int)
    requires
        n <= m,
        sent_rows(batch, from, n) is Err,
    ensures
        sent_rows(batch, from, m) == sent_rows(batch, from, n),
    decreases m - n,
{
    if n < m {
        lemma_sent_rows_ended(batch, from, n, m - 1);
    }
}

/// Rows of texts as what they stand for.
pub open spec fn text_rows(rows: Seq<Vec<Option<String>>>) -> Seq<Seq<Option<Seq<char>>>> {
    Seq::new(rows.len(), |i: int| messages::cell_texts(rows[i]@))
}

/// What is sent of rows `from..to` of a batch, or why one of their cells has no text.
pub fn rows_texts(batch: &ColumnBatch, from: usize, to: usize) -> (result: Result<
    Vec<Vec<Option<String>>>,
    CellError,
>)
    requires
        level(*batch),
        from <= to <= batch.rows,
    ensures
        match result {
            Ok(rows) => sent_rows(*batch, from as int, to as int) == Ok::<
                Seq<Seq<Option<Seq<char>>>>,
                CellError,
            >(text_rows(rows@)) && rows@.len() == to - from && (forall|i: int|
                0 <= i < rows@.len() ==> messages::cells_fit((#[trigger] rows@[i])@)
                    && rows@[i]@.len() == batch.columns@.len()),
            Err(error) => sent_rows(*batch, from as int, to as int) == Err::<
                Seq<Seq<Option<Seq<char>>>>,
                CellError,
            >(error),
        },
{
    let mut rows: Vec<Vec<Option<String>>> = Vec::new();
    let mut i: usize = from;
    assert(text_rows(rows@) =~= Seq::<Seq<Option<Seq<char>>>>::empty());
    while i < to
        invariant
            from <= i <= to <= batch.rows,
            level(*batch),
            rows@.len() == i - from,
            forall|k: int|
                0 <= k < rows@.len() ==> messages::cells_fit((#[trigger] rows@[k])@)
                    && rows@[k]@.len() == batch.columns@.len(),
            sent_rows(*batch, from as int, i as int) == Ok::<
                Seq<Seq<Option<Seq<char>>>>,
                CellError,
            >(text_rows(rows@)),
        decreases to - i,
    {
        let ghost before = text_rows(rows@);
        match row_texts(batch, i) {
            Err(error) => {
                proof {
                    lemma_sent_rows_ended(*batch, from as int, i + 1, to as int);
                }
                return Err(error);
            },
            Ok(cells) => {
                let ghost shown = messages::cell_texts(cells@);
                rows.push(cells);
                assert(text_rows(rows@) =~= before.push(shown));
            },
        }
        i = i + 1;
    }
    Ok(rows)
}

/// The number that a digit of sixteen stands for.
pub open spec fn hex_value(c: char) -> int {
    if '0' <= c <= '9' {
        c as int - '0' as int
    } else {
        c as int - 'a' as int + 10
    }
}

/// Bytes are shown by two digits each: the upper four bits and then the lower ones.
pub proof fn law_bytes_are_two_digits(bytes: Seq<u8>, i: int)
    requires
        0 <= i < bytes.len(),
    ensures
        hex_text(bytes).len() == 2 * bytes.len(),
        16 * hex_value(hex_text(bytes)[2 * i]) + hex_value(hex_text(bytes)[2 * i + 1]) == bytes[i],
        ('0' <= hex_text(bytes)[2 * i] <= '9') || ('a' <= hex_text(bytes)[2 * i] <= 'f'),
        ('0' <= hex_text(bytes)[2 * i + 1] <= '9') || ('a' <= hex_text(bytes)[2 * i + 1] <= 'f'),
{
    assert((2 * i) % 2 == 0);
    assert((2 * i) / 2 == i);
    assert((2 * i + 1) % 2 == 1);
    assert((2 * i + 1) / 2 == i);
    let byte = bytes[i] as int;
    lemma_hex_digit(byte / 16);
    lemma_hex_digit(byte % 16);
}

proof fn lemma_hex_digit(n: int)
    requires
        0 <= n < 16,
    ensures
        hex_value(hex_digit(n)) == n,
        ('0' <= hex_digit(n) <= '9') || ('a' <= hex_digit(n) <= 'f'),
{
}

/// A decimal number with digits behind the point has as many as the scale tells, and its digits
/// are those of the number.
pub proof fn law_decimals_have_their_scale(value: i128, precision: u8, scale: i8)
    requires
        0 < scale <= precision <= 38,
        text::decimal(
            (if value < 0 {
                -value
            } else {
                value as int
            }) as nat,
        ).len() <= precision,
    ensures
        decimal_text(value, precision, scale) matches Some(shown) && ({
            let point = shown.len() - scale - 1;
            let sign = if value < 0 {
                1int
            } else {
                0int
            };
            &&& point > sign
            &&& shown[point] == '.'
            &&& value < 0 <==> shown[0] == '-'
            &&& text::all_digits(shown.subrange(sign, point) + shown.skip(point + 1))
            &&& text::digits_value(shown.subrange(sign, point) + shown.skip(point + 1)) == if value
                < 0 {
                -value
            } else {
                value as int
            }
        }),
{
    let magnitude = (if value < 0 {
        -value
    } else {
        value as int
    }) as nat;
    let digits = text::decimal(magnitude);
    text::lemma_decimal_digits(magnitude);
    let sign = if value < 0 {
        seq!['-']
    } else {
        Seq::empty()
    };
    assert(text::signed_decimal(value as int).skip(sign.len() as int) =~= digits);
    let shown = decimal_text(value, precision, scale)->0;
    let point = shown.len() - scale - 1;
    let whole = shown.subrange(sign.len() as int, point);
    let part = shown.skip(point + 1);
    assert(text::ascii_digit(digits[0]));
    if digits.len() > scale {
        assert(whole + part =~= digits);
    } else {
        let filled = zeros(scale - digits.len() + 1);
        assert(whole + part =~= filled + digits);
        lemma_leading_zeros(filled.len(), digits);
    }
}

proof fn lemma_leading_zeros(n: nat, digits: Seq<char>)
    requires
        text::all_digits(digits),
    ensures
        text::all_digits(zeros(n as int) + digits),
        text::digits_value(zeros(n as int) + digits) == text::digits_value(digits),
    decreases digits.len(), n,
{
    let all = zeros(n as int) + digits;
    if digits.len() > 0 {
        assert(text::all_digits(digits.drop_last())) by {
            assert forall|i: int| 0 <= i < digits.len() - 1 implies text::ascii_digit(
                #[trigger] digits.drop_last()[i],
            ) by {
                assert(text::ascii_digit(digits[i]));
            }
        }
        lemma_leading_zeros(n, digits.drop_last());
        assert(all.drop_last() =~= zeros(n as int) + digits.drop_last());
        assert(text::ascii_digit(digits[digits.len() - 1]));
    } else if n > 0 {
        lemma_leading_zeros((n - 1) as nat, digits);
        assert(all.drop_last() =~= zeros(n - 1) + digits);
        assert(all.last() == '0');
    } else {
        assert(all =~= digits);
    }
}

/// A decimal number without digits behind the point is the number with as many zeros behind it as
/// the scale is below zero.
pub proof fn law_whole_decimals(value: i128, precision: u8, scale: i8)
    requires
        scale <= 0,
        1 <= precision <= 38,
        text::decimal(
            (if value < 0 {
                -value
            } else {
                value as int
            }) as nat,
        ).len() <= precision,
    ensures
        decimal_text(value, precision, scale) == Some(
            text::signed_decimal(value as int) + zeros(-scale),
        ),
{
    let sign = if value < 0 {
        seq!['-']
    } else {
        Seq::empty()
    };
    let shown = text::signed_decimal(value as int);
    if value < 0 {
        assert(shown.skip(1) =~= text::decimal((-value) as nat));
    } else {
        assert(shown.skip(0) =~= shown);
    }
    assert(sign + shown.skip(sign.len() as int) =~= shown);
}

/// Cells are shown so that they can be read again: a number is its decimal form, a text itself, and
/// only a null has no text.
pub proof fn law_shown_cells_are_read_back(cell: CellView, data_type: DataType)
    ensures
        sent_text(cell, data_type) == Ok::<Option<Seq<char>>, CellError>(None) <==> cell is Null,
        cell matches CellView::Int64(value) ==> (sent_text(cell, data_type) matches Ok(Some(
            shown,
        )) ==> text::i64_text(shown) == Some(value)) && value_text(cell, data_type) is Some,
        cell matches CellView::UInt64(value) ==> (value_text(cell, data_type) matches Some(shown)
            && text::all_digits(shown) && text::digits_value(shown) == value),
        cell matches CellView::Utf8(value) ==> value_text(cell, data_type) == Some(value),
        cell matches CellView::Bool(value) ==> value_text(cell, data_type) == Some(
            if value {
                "true"@
            } else {
                "false"@
            },
        ),
        sent_text(cell, data_type) matches Ok(Some(shown)) ==> value_text(cell, data_type) == Some(
            shown,
        ) && encode_utf8(shown).len() <= i32::MAX,
{
    match cell {
        CellView::Int64(value) => {
            text::law_decimal_round_trip(value);
        },
        CellView::UInt64(value) => {
            text::lemma_decimal_digits(value as nat);
        },
        _ => {},
    }
}

/// A row is sent cell by cell: one text for each column, in their order.
pub proof fn law_each_column_is_sent(columns: Seq<Column>, row: int, n: nat)
    requires
        n <= columns.len(),
    ensures
        match sent_cells(columns, row, n) {
            Ok(shown) => {
                &&& shown.len() == n
                &&& forall|i: int|
                    0 <= i < n ==> sent_text(columns[i].cells@[row]@, columns[i].data_type) == Ok::<
                        Option<Seq<char>>,
                        CellError,
                    >(#[trigger] shown[i])
            },
            Err(error) => exists|i: int|
                0 <= i < n && sent_text(
                    (#[trigger] columns[i]).cells@[row]@,
                    columns[i].data_type,
                ) == Err::<Option<Seq<char>>, CellError>(error),
        },
    decreases n,
{
    if n > 0 {
        law_each_column_is_sent(columns, row, (n - 1) as nat);
        match sent_cells(columns, row, (n - 1) as nat) {
            Err(error) => {},
            Ok(front) => {
                match sent_text(columns[n - 1].cells@[row]@, columns[n - 1].data_type) {
                    Ok(shown) => {
                        let all = front.push(shown);
                        assert forall|i: int| 0 <= i < n implies sent_text(
                            columns[i].cells@[row]@,
                            columns[i].data_type,
                        ) == Ok::<Option<Seq<char>>, CellError>(#[trigger] all[i]) by {
                            if i < n - 1 {
                                assert(all[i] == front[i]);
                            }
                        }
                    },
                    Err(error) => {},
                }
            },
        }
    }
}

/// Rows are sent in their order, from the first that is asked for up to the last.
pub proof fn law_rows_are_sent_in_order(batch: ColumnBatch, from: int, to: int)
    requires
        from <= to,
    ensures
        sent_rows(batch, from, to) matches Ok(rows) ==> {
            &&& rows.len() == to - from
            &&& forall|i: int|
                0 <= i < rows.len() ==> sent_row(batch, from + i) == Ok::<
                    Seq<Option<Seq<char>>>,
                    CellError,
                >(#[trigger] rows[i])
        },
    decreases to - from,
{
    if from < to {
        law_rows_are_sent_in_order(batch, from, to - 1);
        if sent_rows(batch, from, to) is Ok {
            let front = sent_rows(batch, from, to - 1)->Ok_0;
            let rows = sent_rows(batch, from, to)->Ok_0;
            assert forall|i: int| 0 <= i < rows.len() implies sent_row(batch, from + i) == Ok::<
                Seq<Option<Seq<char>>>,
                CellError,
            >(#[trigger] rows[i]) by {
                if i < front.len() {
                    assert(rows[i] == front[i]);
                }
            }
        }
    }
}

} // verus!
