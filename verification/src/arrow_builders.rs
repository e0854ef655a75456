//! Columns that are filled value by value, kept in the builders of typed arrays.

use datafusion::arrow::array::{
    BinaryBuilder, BooleanBuilder, Date32Builder, Decimal128Builder, Int64Builder, StringBuilder,
    TimestampMillisecondBuilder, UInt64Builder,
};
use vstd::prelude::*;
use vstd::utf8::*;

use crate::columns;
use crate::columns::{Cell, CellView};
use crate::values;

verus! {

/// An array of booleans that is being built.
#[verifier::external_type_specification]
#[verifier::external_body]
pub struct ExBooleanBuilder(BooleanBuilder);

/// An array of sixty-four bit integers that is being built.
#[verifier::external_body]
pub struct Int64Values {
    builder: Int64Builder,
}

/// An array of unsigned sixty-four bit integers that is being built.
#[verifier::external_body]
pub struct UInt64Values {
    builder: UInt64Builder,
}

/// An array of timestamps that is being built.
#[verifier::external_body]
pub struct TimestampValues {
    builder: TimestampMillisecondBuilder,
}

/// An array of dates that is being built.
#[verifier::external_body]
pub struct DateValues {
    builder: Date32Builder,
}

/// An array of decimals that is being built.
#[verifier::external_body]
pub struct DecimalValues {
    builder: Decimal128Builder,
}

/// An array of texts that is being built.
#[verifier::external_body]
pub struct TextValues {
    builder: StringBuilder,
}

/// An array of byte strings that is being built.
#[verifier::external_body]
pub struct BinaryValues {
    builder: BinaryBuilder,
}

/// The booleans in the order in which they were appended.
pub uninterp spec fn booleans(builder: BooleanBuilder) -> Seq<Option<bool>>;

/// The integers in the order in which they were appended.
pub uninterp spec fn int64s(values: Int64Values) -> Seq<Option<i64>>;

/// The unsigned integers in the order in which they were appended.
pub uninterp spec fn uint64s(values: UInt64Values) -> Seq<Option<u64>>;

/// The timestamps in the order in which they were appended.
pub uninterp spec fn timestamps(values: TimestampValues) -> Seq<Option<i64>>;

/// The dates in the order in which they were appended.
pub uninterp spec fn dates(values: DateValues) -> Seq<Option<i32>>;

/// The decimals in the order in which they were appended.
pub uninterp spec fn decimals(values: DecimalValues) -> Seq<Option<i128>>;

/// The texts in the order in which they were appended.
pub uninterp spec fn texts(values: TextValues) -> Seq<Option<Seq<char>>>;

/// The byte strings in the order in which they were appended.
pub uninterp spec fn binaries(values: BinaryValues) -> Seq<Option<Seq<u8>>>;

/// Room for as many values can be asked for.
pub open spec fn capacity_fits(capacity: usize) -> bool {
    16 * capacity + 128 <= isize::MAX
}

/// The number of bytes of texts.
pub open spec fn text_bytes(values: Seq<Option<Seq<char>>>) -> nat
    decreases values.len(),
{
    if values.len() == 0 {
        0
    } else {
        text_bytes(values.drop_last()) + match values.last() {
            Some(value) => encode_utf8(value).len(),
            None => 0,
        }
    }
}

/// The number of bytes of byte strings.
pub open spec fn binary_bytes(values: Seq<Option<Seq<u8>>>) -> nat
    decreases values.len(),
{
    if values.len() == 0 {
        0
    } else {
        binary_bytes(values.drop_last()) + match values.last() {
            Some(value) => value.len(),
            None => 0,
        }
    }
}

/// `BooleanBuilder::with_capacity`: a builder without values.
#[verifier::external_body]
fn new_booleans(capacity: usize) -> (builder: BooleanBuilder)
    requires
        capacity_fits(capacity),
    ensures
        booleans(builder) == Seq::<Option<bool>>::empty(),
{
    BooleanBuilder::with_capacity(capacity)
}

/// `BooleanBuilder::append_option`: appends a value or a null.
#[verifier::external_body]
fn append_boolean(builder: &mut BooleanBuilder, value: Option<bool>)
    ensures
        booleans(*final(builder)) == booleans(*old(builder)).push(value),
{
    builder.append_option(value);
}

/// `BooleanBuilder::finish`: hands the values out and leaves the builder without any.
#[verifier::external_body]
fn finish_booleans(builder: &mut BooleanBuilder) -> (values: Vec<Option<bool>>)
    ensures
        values@ == booleans(*old(builder)),
        booleans(*final(builder)) == Seq::<Option<bool>>::empty(),
{
    builder.finish().iter().collect()
}

/// `PrimitiveBuilder::with_capacity` for integers: a builder without values.
#[verifier::external_body]
fn new_int64s(capacity: usize) -> (values: Int64Values)
    requires
        capacity_fits(capacity),
    ensures
        int64s(values) == Seq::<Option<i64>>::empty(),
{
    Int64Values { builder: Int64Builder::with_capacity(capacity) }
}

/// `PrimitiveBuilder::append_option` for integers: appends a value or a null.
#[verifier::external_body]
fn append_int64(values: &mut Int64Values, value: Option<i64>)
    ensures
        int64s(*final(values)) == int64s(*old(values)).push(value),
{
    values.builder.append_option(value);
}

/// `PrimitiveBuilder::finish` for integers: hands the values out and leaves the builder without
/// any.
#[verifier::external_body]
fn finish_int64s(values: &mut Int64Values) -> (out: Vec<Option<i64>>)
    ensures
        out@ == int64s(*old(values)),
        int64s(*final(values)) == Seq::<Option<i64>>::empty(),
{
    values.builder.finish().iter().collect()
}

/// `PrimitiveBuilder::with_capacity` for unsigned integers: a builder without values.
#[verifier::external_body]
fn new_uint64s(capacity: usize) -> (values: UInt64Values)
    requires
        capacity_fits(capacity),
    ensures
        uint64s(values) == Seq::<Option<u64>>::empty(),
{
    UInt64Values { builder: UInt64Builder::with_capacity(capacity) }
}

/// `PrimitiveBuilder::append_option` for unsigned integers: appends a value or a null.
#[verifier::external_body]
fn append_uint64(values: &mut UInt64Values, value: Option<u64>)
    ensures
        uint64s(*final(values)) == uint64s(*old(values)).push(value),
{
    values.builder.append_option(value);
}

/// `PrimitiveBuilder::finish` for unsigned integers: hands the values out and leaves the builder
/// without any.
#[verifier::external_body]
fn finish_uint64s(values: &mut UInt64Values) -> (out: Vec<Option<u64>>)
    ensures
        out@ == uint64s(*old(values)),
        uint64s(*final(values)) == Seq::<Option<u64>>::empty(),
{
    values.builder.finish().iter().collect()
}

/// `PrimitiveBuilder::with_capacity` for timestamps: a builder without values.
#[verifier::external_body]
fn new_timestamps(capacity: usize) -> (values: TimestampValues)
    requires
        capacity_fits(capacity),
    ensures
        timestamps(values) == Seq::<Option<i64>>::empty(),
{
    TimestampValues { builder: TimestampMillisecondBuilder::with_capacity(capacity) }
}

/// `PrimitiveBuilder::append_option` for timestamps: appends a value or a null.
#[verifier::external_body]
fn append_timestamp(values: &mut TimestampValues, value: Option<i64>)
    ensures
        timestamps(*final(values)) == timestamps(*old(values)).push(value),
{
    values.builder.append_option(value);
}

/// `PrimitiveBuilder::finish` for timestamps: hands the values out and leaves the builder without
/// any.
#[verifier::external_body]
fn finish_timestamps(values: &mut TimestampValues) -> (out: Vec<Option<i64>>)
    ensures
        out@ == timestamps(*old(values)),
        timestamps(*final(values)) == Seq::<Option<i64>>::empty(),
{
    values.builder.finish().iter().collect()
}

/// `PrimitiveBuilder::with_capacity` for dates: a builder without values.
#[verifier::external_body]
fn new_dates(capacity: usize) -> (values: DateValues)
    requires
        capacity_fits(capacity),
    ensures
        dates(values) == Seq::<Option<i32>>::empty(),
{
    DateValues { builder: Date32Builder::with_capacity(capacity) }
}

/// `PrimitiveBuilder::append_option` for dates: appends a value or a null.
#[verifier::external_body]
fn append_date(values: &mut DateValues, value: Option<i32>)
    ensures
        dates(*final(values)) == dates(*old(values)).push(value),
{
    values.builder.append_option(value);
}

/// `PrimitiveBuilder::finish` for dates: hands the values out and leaves the builder without any.
#[verifier::external_body]
fn finish_dates(values: &mut DateValues) -> (out: Vec<Option<i32>>)
    ensures
        out@ == dates(*old(values)),
        dates(*final(values)) == Seq::<Option<i32>>::empty(),
{
    values.builder.finish().iter().collect()
}

/// `PrimitiveBuilder::with_capacity` for decimals: a builder without values.
#[verifier::external_body]
fn new_decimals(capacity: usize) -> (values: DecimalValues)
    requires
        capacity_fits(capacity),
    ensures
        decimals(values) == Seq::<Option<i128>>::empty(),
{
    DecimalValues { builder: Decimal128Builder::with_capacity(capacity) }
}

/// `PrimitiveBuilder::append_option` for decimals: appends a value or a null.
#[verifier::external_body]
fn append_decimal(values: &mut DecimalValues, value: Option<i128>)
    ensures
        decimals(*final(values)) == decimals(*old(values)).push(value),
{
    values.builder.append_option(value);
}

/// `PrimitiveBuilder::finish` for decimals: hands the values out and leaves the builder without
/// any.
#[verifier::external_body]
fn finish_decimals(values: &mut DecimalValues) -> (out: Vec<Option<i128>>)
    ensures
        out@ == decimals(*old(values)),
        decimals(*final(values)) == Seq::<Option<i128>>::empty(),
{
    values.builder.finish().iter().collect()
}

/// `GenericByteBuilder::with_capacity` for texts: a builder without values.
#[verifier::external_body]
fn new_texts(capacity: usize, data_capacity: usize) -> (values: TextValues)
    requires
        capacity_fits(capacity),
        data_capacity + 128 <= isize::MAX,
    ensures
        texts(values) == Seq::<Option<Seq<char>>>::empty(),
{
    TextValues { builder: StringBuilder::with_capacity(capacity, data_capacity) }
}

/// `GenericByteBuilder::append_option` for texts: appends a value or a null. All values together
/// must have no more bytes than a thirty-two bit offset can tell.
#[verifier::external_body]
fn append_text(values: &mut TextValues, value: Option<&str>)
    requires
        text_bytes(texts(*old(values))) + match value {
            Some(text) => encode_utf8(text@).len(),
            None => 0,
        } <= i32::MAX,
    ensures
        texts(*final(values)) == texts(*old(values)).push(
            match value {
                Some(text) => Some(text@),
                None => None,
            },
        ),
{
    values.builder.append_option(value);
}

/// `GenericByteBuilder::finish` for texts: hands the values out and leaves the builder without
/// any.
#[verifier::external_body]
fn finish_texts(values: &mut TextValues) -> (out: Vec<Option<String>>)
    ensures
        out@.len() == texts(*old(values)).len(),
        forall|i: int|
            0 <= i < out@.len() ==> values::opt_text(#[trigger] out@[i]) == texts(*old(values))[i],
        texts(*final(values)) == Seq::<Option<Seq<char>>>::empty(),
{
    values.builder.finish().iter().map(|value| value.map(String::from)).collect()
}

/// `GenericByteBuilder::with_capacity` for byte strings: a builder without values.
#[verifier::external_body]
fn new_binaries(capacity: usize, data_capacity: usize) -> (values: BinaryValues)
    requires
        capacity_fits(capacity),
        data_capacity + 128 <= isize::MAX,
    ensures
        binaries(values) == Seq::<Option<Seq<u8>>>::empty(),
{
    BinaryValues { builder: BinaryBuilder::with_capacity(capacity, data_capacity) }
}

/// `GenericByteBuilder::append_option` for byte strings: appends a value or a null. All values
/// together must have no more bytes than a thirty-two bit offset can tell.
#[verifier::external_body]
fn append_binary(values: &mut BinaryValues, value: Option<&[u8]>)
    requires
        binary_bytes(binaries(*old(values))) + match value {
            Some(bytes) => bytes@.len(),
            None => 0,
        } <= i32::MAX,
    ensures
        binaries(*final(values)) == binaries(*old(values)).push(
            match value {
                Some(bytes) => Some(bytes@),
                None => None,
            },
        ),
{
    values.builder.append_option(value);
}

/// An optional byte string as a sequence.
pub open spec fn opt_bytes(value: Option<Vec<u8>>) -> Option<Seq<u8>> {
    match value {
        Some(bytes) => Some(bytes@),
        None => None,
    }
}

/// `GenericByteBuilder::finish` for byte strings: hands the values out and leaves the builder
/// without any.
#[verifier::external_body]
fn finish_binaries(values: &mut BinaryValues) -> (out: Vec<Option<Vec<u8>>>)
    ensures
        out@.len() == binaries(*old(values)).len(),
        forall|i: int|
            0 <= i < out@.len() ==> opt_bytes(#[trigger] out@[i]) == binaries(*old(values))[i],
        binaries(*final(values)) == Seq::<Option<Seq<u8>>>::empty(),
{
    values.builder.finish().iter().map(|value| value.map(<[u8]>::to_vec)).collect()
}

/// What a column holds.
#[derive(Clone, Copy, Debug, PartialEq, Eq, Structural)]
pub enum CellKind {
    Null,
    Bool,
    Int64,
    UInt64,
    Utf8,
    TimestampMillis,
    DateDays,
    Decimal128,
    Binary,
}

/// Why a cell cannot be appended.
#[derive(Clone, Copy, Debug, PartialEq, Eq, Structural)]
pub enum AppendError {
    /// The column holds values of another kind.
    WrongKind,
    /// The column cannot hold as much.
    Full,
}

/// A column that is being filled.
pub enum ColumnBuilder {
    Int64(Int64Values),
    UInt64(UInt64Values),
    TimestampMillis(TimestampValues),
    DateDays(DateValues),
    Decimal128(DecimalValues),
    Bool(BooleanBuilder),
    /// Texts and the number of their bytes.
    Utf8(TextValues, usize),
    /// Byte strings and the number of their bytes.
    Binary(BinaryValues, usize),
    /// Nulls by their number.
    Null(usize),
}

/// The kind of a cell; a null is of none.
pub open spec fn kind_of_cell(cell: CellView) -> Option<CellKind> {
    match cell {
        CellView::Null => None,
        CellView::Bool(_) => Some(CellKind::Bool),
        CellView::Int64(_) => Some(CellKind::Int64),
        CellView::UInt64(_) => Some(CellKind::UInt64),
        CellView::Utf8(_) => Some(CellKind::Utf8),
        CellView::TimestampMillis(_) => Some(CellKind::TimestampMillis),
        CellView::DateDays(_) => Some(CellKind::DateDays),
        CellView::Decimal128(_) => Some(CellKind::Decimal128),
        CellView::Binary(_) => Some(CellKind::Binary),
        CellView::Other(_) => None,
    }
}

/// A column of this kind takes the cell: a null, or a value of its kind.
pub open spec fn takes(kind: CellKind, cell: CellView) -> bool {
    cell is Null || kind_of_cell(cell) == Some(kind)
}

/// The number of bytes of the texts or byte strings among cells.
pub open spec fn cell_bytes(cells: Seq<CellView>) -> nat
    decreases cells.len(),
{
    if cells.len() == 0 {
        0
    } else {
        cell_bytes(cells.drop_last()) + cell_size(cells.last())
    }
}

/// The number of bytes of a text or byte string.
pub open spec fn cell_size(cell: CellView) -> nat {
    match cell {
        CellView::Utf8(text) => encode_utf8(text).len(),
        CellView::Binary(bytes) => bytes.len(),
        _ => 0,
    }
}

/// There is room for one more cell: texts and byte strings are limited by their bytes, nulls by
/// their number.
pub open spec fn has_room(kind: CellKind, cells: Seq<CellView>, cell: CellView) -> bool {
    match kind {
        CellKind::Utf8 => cell_bytes(cells) + cell_size(cell) <= i32::MAX,
        CellKind::Binary => cell_bytes(cells) + cell_size(cell) <= i32::MAX,
        CellKind::Null => cells.len() < usize::MAX,
        _ => true,
    }
}

/// What appending a cell to a column does.
pub open spec fn appended(kind: CellKind, cells: Seq<CellView>, cell: CellView) -> Result<
    Seq<CellView>,
    AppendError,
> {
    if !takes(kind, cell) {
        Err(AppendError::WrongKind)
    } else if !has_room(kind, cells, cell) {
        Err(AppendError::Full)
    } else {
        Ok(cells.push(cell))
    }
}

/// Optional values as cells.
spec fn as_cells<T>(values: Seq<Option<T>>, cell: spec_fn(T) -> CellView) -> Seq<CellView> {
    Seq::new(
        values.len(),
        |i: int|
            match values[i] {
                Some(value) => cell(value),
                None => CellView::Null,
            },
    )
}

proof fn lemma_as_cells_push<T>(
    values: Seq<Option<T>>,
    value: Option<T>,
    cell: spec_fn(T) -> CellView,
)
    ensures
        as_cells(values.push(value), cell) == as_cells(values, cell).push(
            match value {
                Some(v) => cell(v),
                None => CellView::Null,
            },
        ),
{
    assert(as_cells(values.push(value), cell) =~= as_cells(values, cell).push(
        match value {
            Some(v) => cell(v),
            None => CellView::Null,
        },
    ));
}

proof fn lemma_text_cell_bytes(values: Seq<Option<Seq<char>>>)
    ensures
        cell_bytes(as_cells(values, |v: Seq<char>| CellView::Utf8(v))) == text_bytes(values),
    decreases values.len(),
{
    let cells = as_cells(values, |v: Seq<char>| CellView::Utf8(v));
    if values.len() > 0 {
        lemma_text_cell_bytes(values.drop_last());
        assert(cells.drop_last() =~= as_cells(
            values.drop_last(),
            |v: Seq<char>| CellView::Utf8(v),
        ));
    }
}

proof fn lemma_binary_cell_bytes(values: Seq<Option<Seq<u8>>>)
    ensures
        cell_bytes(as_cells(values, |v: Seq<u8>| CellView::Binary(v))) == binary_bytes(values),
    decreases values.len(),
{
    let cells = as_cells(values, |v: Seq<u8>| CellView::Binary(v));
    if values.len() > 0 {
        lemma_binary_cell_bytes(values.drop_last());
        assert(cells.drop_last() =~= as_cells(
            values.drop_last(),
            |v: Seq<u8>| CellView::Binary(v),
        ));
    }
}

impl ColumnBuilder {
    /// What the column holds.
    pub open spec fn kind(&self) -> CellKind {
        match *self {
            ColumnBuilder::Int64(_) => CellKind::Int64,
            ColumnBuilder::UInt64(_) => CellKind::UInt64,
            ColumnBuilder::TimestampMillis(_) => CellKind::TimestampMillis,
            ColumnBuilder::DateDays(_) => CellKind::DateDays,
            ColumnBuilder::Decimal128(_) => CellKind::Decimal128,
            ColumnBuilder::Bool(_) => CellKind::Bool,
            ColumnBuilder::Utf8(_, _) => CellKind::Utf8,
            ColumnBuilder::Binary(_, _) => CellKind::Binary,
            ColumnBuilder::Null(_) => CellKind::Null,
        }
    }

    /// The cells in the order in which they were appended.
    pub closed spec fn cells(&self) -> Seq<CellView> {
        match *self {
            ColumnBuilder::Int64(values) => as_cells(int64s(values), |v: i64| CellView::Int64(v)),
            ColumnBuilder::UInt64(values) => as_cells(
                uint64s(values),
                |v: u64| CellView::UInt64(v),
            ),
            ColumnBuilder::TimestampMillis(values) => as_cells(
                timestamps(values),
                |v: i64| CellView::TimestampMillis(v),
            ),
            ColumnBuilder::DateDays(values) => as_cells(
                dates(values),
                |v: i32| CellView::DateDays(v),
            ),
            ColumnBuilder::Decimal128(values) => as_cells(
                decimals(values),
                |v: i128| CellView::Decimal128(v),
            ),
            ColumnBuilder::Bool(builder) => as_cells(
                booleans(builder),
                |v: bool| CellView::Bool(v),
            ),
            ColumnBuilder::Utf8(values, _) => as_cells(
                texts(values),
                |v: Seq<char>| CellView::Utf8(v),
            ),
            ColumnBuilder::Binary(values, _) => as_cells(
                binaries(values),
                |v: Seq<u8>| CellView::Binary(v),
            ),
            ColumnBuilder::Null(count) => Seq::new(count as nat, |i: int| CellView::Null),
        }
    }

    /// The number of bytes that is kept is that of the texts or byte strings.
    pub closed spec fn well_formed(&self) -> bool {
        match *self {
            ColumnBuilder::Utf8(values, bytes) => bytes == text_bytes(texts(values)),
            ColumnBuilder::Binary(values, bytes) => bytes == binary_bytes(binaries(values)),
            _ => true,
        }
    }

    /// A column of a kind without cells.
    pub fn new(kind: CellKind, capacity: usize, data_capacity: usize) -> (builder: Self)
        requires
            capacity_fits(capacity),
            data_capacity + 128 <= isize::MAX,
        ensures
            builder.well_formed(),
            builder.kind() == kind,
            builder.cells() == Seq::<CellView>::empty(),
    {
        let builder = match kind {
            CellKind::Int64 => ColumnBuilder::Int64(new_int64s(capacity)),
            CellKind::UInt64 => ColumnBuilder::UInt64(new_uint64s(capacity)),
            CellKind::TimestampMillis => ColumnBuilder::TimestampMillis(new_timestamps(capacity)),
            CellKind::DateDays => ColumnBuilder::DateDays(new_dates(capacity)),
            CellKind::Decimal128 => ColumnBuilder::Decimal128(new_decimals(capacity)),
            CellKind::Bool => ColumnBuilder::Bool(new_booleans(capacity)),
            CellKind::Utf8 => ColumnBuilder::Utf8(new_texts(capacity, data_capacity), 0),
            CellKind::Binary => ColumnBuilder::Binary(new_binaries(capacity, data_capacity), 0),
            CellKind::Null => ColumnBuilder::Null(0),
        };
        assert(builder.cells() =~= Seq::<CellView>::empty());
        builder
    }

    /// What the column holds.
    pub fn cell_kind(&self) -> (kind: CellKind)
        ensures
            kind == self.kind(),
    {
        match self {
            ColumnBuilder::Int64(_) => CellKind::Int64,
            ColumnBuilder::UInt64(_) => CellKind::UInt64,
            ColumnBuilder::TimestampMillis(_) => CellKind::TimestampMillis,
            ColumnBuilder::DateDays(_) => CellKind::DateDays,
            ColumnBuilder::Decimal128(_) => CellKind::Decimal128,
            ColumnBuilder::Bool(_) => CellKind::Bool,
            ColumnBuilder::Utf8(_, _) => CellKind::Utf8,
            ColumnBuilder::Binary(_, _) => CellKind::Binary,
            ColumnBuilder::Null(_) => CellKind::Null,
        }
    }

    /// Appends a cell, unless it is of another kind or there is no room for it.
    pub fn append(&mut self, cell: &Cell) -> (result: Result<(), AppendError>)
        requires
            old(self).well_formed(),
        ensures
            final(self).well_formed(),
            final(self).kind() == old(self).kind(),
            match appended(old(self).kind(), old(self).cells(), cell@) {
                Ok(cells) => result is Ok && final(self).cells() == cells,
                Err(error) => result == Err::<(), AppendError>(error) && final(self).cells() == old(
                    self,
                ).cells(),
            },
    {
        match self {
            ColumnBuilder::Int64(values) => {
                let value: Option<i64> = match cell {
                    Cell::Int64(v) => Some(*v),
                    Cell::Null => None,
                    _ => {
                        return Err(AppendError::WrongKind);
                    },
                };
                proof {
                    lemma_as_cells_push(int64s(*values), value, |v: i64| CellView::Int64(v));
                }
                append_int64(values, value);
            },
            ColumnBuilder::UInt64(values) => {
                let value: Option<u64> = match cell {
                    Cell::UInt64(v) => Some(*v),
                    Cell::Null => None,
                    _ => {
                        return Err(AppendError::WrongKind);
                    },
                };
                proof {
                    lemma_as_cells_push(uint64s(*values), value, |v: u64| CellView::UInt64(v));
                }
                append_uint64(values, value);
            },
            ColumnBuilder::TimestampMillis(values) => {
                let value: Option<i64> = match cell {
                    Cell::TimestampMillis(v) => Some(*v),
                    Cell::Null => None,
                    _ => {
                        return Err(AppendError::WrongKind);
                    },
                };
                proof {
                    lemma_as_cells_push(
                        timestamps(*values),
                        value,
                        |v: i64| CellView::TimestampMillis(v),
                    );
                }
                append_timestamp(values, value);
            },
            ColumnBuilder::DateDays(values) => {
                let value: Option<i32> = match cell {
                    Cell::DateDays(v) => Some(*v),
                    Cell::Null => None,
                    _ => {
                        return Err(AppendError::WrongKind);
                    },
                };
                proof {
                    lemma_as_cells_push(dates(*values), value, |v: i32| CellView::DateDays(v));
                }
                append_date(values, value);
            },
            ColumnBuilder::Decimal128(values) => {
                let value: Option<i128> = match cell {
                    Cell::Decimal128(v) => Some(*v),
                    Cell::Null => None,
                    _ => {
                        return Err(AppendError::WrongKind);
                    },
                };
                proof {
                    lemma_as_cells_push(
                        decimals(*values),
                        value,
                        |v: i128| CellView::Decimal128(v),
                    );
                }
                append_decimal(values, value);
            },
            ColumnBuilder::Bool(builder) => {
                let value: Option<bool> = match cell {
                    Cell::Bool(v) => Some(*v),
                    Cell::Null => None,
                    _ => {
                        return Err(AppendError::WrongKind);
                    },
                };
                proof {
                    lemma_as_cells_push(booleans(*builder), value, |v: bool| CellView::Bool(v));
                }
                append_boolean(builder, value);
            },
            ColumnBuilder::Utf8(values, bytes) => {
                let ghost before = texts(*values);
                let value: Option<&str> = match cell {
                    Cell::Utf8(v) => Some(v.as_str()),
                    Cell::Null => None,
                    _ => {
                        return Err(AppendError::WrongKind);
                    },
                };
                let size: usize = match value {
                    Some(text) => text.as_bytes().len(),
                    None => 0,
                };
                proof {
                    lemma_text_cell_bytes(before);
                }
                if *bytes > 0x7FFF_FFFF || size > 0x7FFF_FFFF - *bytes {
                    return Err(AppendError::Full);
                }
                proof {
                    let added = match value {
                        Some(text) => Some(text@),
                        None => None,
                    };
                    lemma_as_cells_push(before, added, |v: Seq<char>| CellView::Utf8(v));
                    assert(before.push(added).drop_last() =~= before);
                }
                append_text(values, value);
                *bytes = *bytes + size;
            },
            ColumnBuilder::Binary(values, bytes) => {
                let ghost before = binaries(*values);
                let value: Option<&[u8]> = match cell {
                    Cell::Binary(v) => Some(v.as_slice()),
                    Cell::Null => None,
                    _ => {
                        return Err(AppendError::WrongKind);
                    },
                };
                let size: usize = match value {
                    Some(slice) => slice.len(),
                    None => 0,
                };
                proof {
                    lemma_binary_cell_bytes(before);
                }
                if *bytes > 0x7FFF_FFFF || size > 0x7FFF_FFFF - *bytes {
                    return Err(AppendError::Full);
                }
                proof {
                    let added = match value {
                        Some(slice) => Some(slice@),
                        None => None,
                    };
                    lemma_as_cells_push(before, added, |v: Seq<u8>| CellView::Binary(v));
                    assert(before.push(added).drop_last() =~= before);
                }
                append_binary(values, value);
                *bytes = *bytes + size;
            },
            ColumnBuilder::Null(count) => {
                match cell {
                    Cell::Null => {},
                    _ => {
                        return Err(AppendError::WrongKind);
                    },
                }
                if *count == usize::MAX {
                    return Err(AppendError::Full);
                }
                *count = *count + 1;
                assert(Seq::new(*count as nat, |i: int| CellView::Null) =~= Seq::new(
                    (*count - 1) as nat,
                    |i: int| CellView::Null,
                ).push(CellView::Null));
            },
        }
        Ok(())
    }
}

/// The cell of a value.
fn int64_cell(v: i64) -> (cell: Cell)
    ensures
        cell@ == CellView::Int64(v),
{
    Cell::Int64(v)
}

/// The cell of a value.
fn uint64_cell(v: u64) -> (cell: Cell)
    ensures
        cell@ == CellView::UInt64(v),
{
    Cell::UInt64(v)
}

/// The cell of a value.
fn timestamp_cell(v: i64) -> (cell: Cell)
    ensures
        cell@ == CellView::TimestampMillis(v),
{
    Cell::TimestampMillis(v)
}

/// The cell of a value.
fn date_cell(v: i32) -> (cell: Cell)
    ensures
        cell@ == CellView::DateDays(v),
{
    Cell::DateDays(v)
}

/// The cell of a value.
fn decimal_cell(v: i128) -> (cell: Cell)
    ensures
        cell@ == CellView::Decimal128(v),
{
    Cell::Decimal128(v)
}

/// The cell of a value.
fn boolean_cell(v: bool) -> (cell: Cell)
    ensures
        cell@ == CellView::Bool(v),
{
    Cell::Bool(v)
}

/// The cell of a value.
fn text_cell(v: String) -> (cell: Cell)
    ensures
        cell@ == CellView::Utf8(v@),
{
    Cell::Utf8(v)
}

/// The cell of a value.
fn binary_cell(v: Vec<u8>) -> (cell: Cell)
    ensures
        cell@ == CellView::Binary(v@),
{
    Cell::Binary(v)
}

/// Optional values as cells.
fn to_cells<T>(
    values: Vec<Option<T>>,
    make: impl Fn(T) -> Cell,
    Ghost(cell): Ghost<spec_fn(T) -> CellView>,
) -> (cells: Vec<Cell>)
    requires
        forall|value: T| call_requires(make, (value,)),
        forall|value: T, made: Cell| call_ensures(make, (value,), made) ==> made@ == cell(value),
    ensures
        columns::cell_views(cells@) == as_cells(values@, cell),
{
    let ghost all = values@;
    let mut cells: Vec<Cell> = Vec::new();
    for value in it: values
        invariant
            it.seq() == all,
            forall|value: T| call_requires(make, (value,)),
            forall|value: T, made: Cell|
                call_ensures(make, (value,), made) ==> made@ == cell(value),
            columns::cell_views(cells@) == as_cells(all.take(it.index()), cell),
    {
        let ghost before = all.take(it.index());
        let ghost views = columns::cell_views(cells@);
        let made = match value {
            Some(value) => make(value),
            None => Cell::Null,
        };
        cells.push(made);
        proof {
            assert(all.take(it.index() + 1) =~= before.push(value));
            lemma_as_cells_push(before, value, cell);
            assert(columns::cell_views(cells@) =~= views.push(made@));
        }
    }
    assert(all.take(all.len() as int) =~= all);
    cells
}

impl ColumnBuilder {
    /// Hands the cells out and leaves the column without any.
    pub fn finish(&mut self) -> (cells: Vec<Cell>)
        requires
            old(self).well_formed(),
        ensures
            columns::cell_views(cells@) == old(self).cells(),
            final(self).well_formed(),
            final(self).kind() == old(self).kind(),
            final(self).cells() == Seq::<CellView>::empty(),
    {
        let cells = match self {
            ColumnBuilder::Int64(values) => to_cells(
                finish_int64s(values),
                int64_cell,
                Ghost(|v: i64| CellView::Int64(v)),
            ),
            ColumnBuilder::UInt64(values) => to_cells(
                finish_uint64s(values),
                uint64_cell,
                Ghost(|v: u64| CellView::UInt64(v)),
            ),
            ColumnBuilder::TimestampMillis(values) => to_cells(
                finish_timestamps(values),
                timestamp_cell,
                Ghost(|v: i64| CellView::TimestampMillis(v)),
            ),
            ColumnBuilder::DateDays(values) => to_cells(
                finish_dates(values),
                date_cell,
                Ghost(|v: i32| CellView::DateDays(v)),
            ),
            ColumnBuilder::Decimal128(values) => to_cells(
                finish_decimals(values),
                decimal_cell,
                Ghost(|v: i128| CellView::Decimal128(v)),
            ),
            ColumnBuilder::Bool(builder) => to_cells(
                finish_booleans(builder),
                boolean_cell,
                Ghost(|v: bool| CellView::Bool(v)),
            ),
            ColumnBuilder::Utf8(values, bytes) => {
                let ghost before = texts(*values);
                let out = finish_texts(values);
                *bytes = 0;
                assert(as_cells(out@, |v: String| CellView::Utf8(v@)) =~= as_cells(
                    before,
                    |v: Seq<char>| CellView::Utf8(v),
                )) by {
                    assert forall|i: int| 0 <= i < out@.len() implies values::opt_text(
                        #[trigger] out@[i],
                    ) == before[i] by {}
                }
                to_cells(
                    out,
                    text_cell,
                    Ghost(|v: String| CellView::Utf8(v@)),
                )
            },
            ColumnBuilder::Binary(values, bytes) => {
                let ghost before = binaries(*values);
                let out = finish_binaries(values);
                *bytes = 0;
                assert(as_cells(out@, |v: Vec<u8>| CellView::Binary(v@)) =~= as_cells(
                    before,
                    |v: Seq<u8>| CellView::Binary(v),
                )) by {
                    assert forall|i: int| 0 <= i < out@.len() implies opt_bytes(#[trigger] out@[i])
                        == before[i] by {}
                }
                to_cells(
                    out,
                    binary_cell,
                    Ghost(|v: Vec<u8>| CellView::Binary(v@)),
                )
            },
            ColumnBuilder::Null(count) => {
                let cells = null_cells(*count);
                *count = 0;
                cells
            },
        };
        assert(self.cells() =~= Seq::<CellView>::empty());
        cells
    }
}

/// As many nulls.
fn null_cells(count: usize) -> (cells: Vec<Cell>)
    ensures
        columns::cell_views(cells@) == Seq::new(count as nat, |i: int| CellView::Null),
{
    let mut cells: Vec<Cell> = Vec::new();
    let mut i: usize = 0;
    while i < count
        invariant
            i <= count,
            cells@.len() == i,
            forall|k: int| 0 <= k < i ==> (#[trigger] cells@[k])@ == CellView::Null,
        decreases count - i,
    {
        cells.push(Cell::Null);
        i = i + 1;
    }
    assert(columns::cell_views(cells@) =~= Seq::new(count as nat, |i: int| CellView::Null));
    cells
}

/// A cell goes behind the cells of a column, which stay as they are, if the column is of the kind
/// of the cell and has room for it; a null goes into every column.
pub proof fn law_cell_goes_behind_the_others(
    kind: CellKind,
    cells: Seq<CellView>,
    cell: CellView,
)
    ensures
        match appended(kind, cells, cell) {
            Ok(after) => {
                &&& after.len() == cells.len() + 1
                &&& after.drop_last() == cells
                &&& after.last() == cell
            },
            Err(error) => error is Full ==> kind is Utf8 || kind is Binary || kind is Null,
        },
        match (kind, cell) {
            (_, CellView::Null) => takes(kind, cell),
            (CellKind::Bool, CellView::Bool(_)) => takes(kind, cell),
            (CellKind::Int64, CellView::Int64(_)) => takes(kind, cell),
            (CellKind::UInt64, CellView::UInt64(_)) => takes(kind, cell),
            (CellKind::Utf8, CellView::Utf8(_)) => takes(kind, cell),
            (CellKind::TimestampMillis, CellView::TimestampMillis(_)) => takes(kind, cell),
            (CellKind::DateDays, CellView::DateDays(_)) => takes(kind, cell),
            (CellKind::Decimal128, CellView::Decimal128(_)) => takes(kind, cell),
            (CellKind::Binary, CellView::Binary(_)) => takes(kind, cell),
            _ => !takes(kind, cell),
        },
        !takes(kind, cell) <==> appended(kind, cells, cell) == Err::<Seq<CellView>, AppendError>(
            AppendError::WrongKind,
        ),
{
    assert(cells.push(cell).drop_last() =~= cells);
}

/// Texts and byte strings fit a column as long as they have no more than two gibibytes less one
/// together.
pub proof fn law_room_is_counted_in_bytes(cells: Seq<CellView>, bytes: Seq<u8>, text: Seq<char>)
    ensures
        has_room(CellKind::Binary, cells, CellView::Binary(bytes)) == (cell_bytes(cells)
            + bytes.len() < 0x8000_0000),
        has_room(CellKind::Utf8, cells, CellView::Utf8(text)) == (cell_bytes(cells) + encode_utf8(
            text,
        ).len() < 0x8000_0000),
        cell_bytes(cells.push(CellView::Binary(bytes))) == cell_bytes(cells) + bytes.len(),
        cell_bytes(cells.push(CellView::Utf8(text))) == cell_bytes(cells) + encode_utf8(text).len(),
        cell_bytes(cells.push(CellView::Null)) == cell_bytes(cells),
{
    assert(cells.push(CellView::Binary(bytes)).drop_last() =~= cells);
    assert(cells.push(CellView::Utf8(text)).drop_last() =~= cells);
    assert(cells.push(CellView::Null).drop_last() =~= cells);
}

} // verus!
