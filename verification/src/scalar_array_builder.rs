//! Typed columns that are filled from rows and from encoded scalars.

use vstd::prelude::*;

use crate::arrow_builders;
use crate::arrow_builders::{CellKind, ColumnBuilder};
use crate::columns;
use crate::columns::{Cell, CellView, Column};
use crate::encoding::{EncodedRowScalar, EncodedScalarView};
use crate::text::{push_text, string_of};
use crate::values::{DataType, TimeUnit};

verus! {

/// A value of a row.
#[derive(Debug, PartialEq, Eq)]
pub enum RowValue {
    Int64(i64),
    Utf8(String),
    /// A number by its text.
    Numeric(String),
    TimestampMillis(i64),
    DateDays(i32),
    Decimal128(i128),
    Bool(bool),
}

/// Why a column cannot be built or filled.
#[derive(Clone, Copy, Debug, PartialEq, Eq, Structural)]
pub enum ScalarBuilderError {
    /// No column holds values of the type.
    UnsupportedType,
    /// A row has a value of another kind in the column of this kind.
    ExpectedRowValue(CellKind),
    /// A row is too short for the column of this kind at this position.
    MissingColumn(CellKind, usize),
    /// A column of this kind is not filled from rows.
    NotFromRows(CellKind),
    /// A column of this kind takes another encoded scalar.
    ExpectedEncodedScalar(CellKind),
    /// A column of this kind takes no encoded scalar but a null.
    NotFromEncoded(CellKind),
    /// The value asks for a column of this kind.
    ExpectedBuilder(CellKind),
    /// The column cannot hold as much.
    Full,
}

/// The name of a kind in the text of an error.
pub open spec fn kind_name(kind: CellKind) -> Seq<char> {
    match kind {
        CellKind::Null => "NULL"@,
        CellKind::Bool => "Bool"@,
        CellKind::Int64 => "Int64"@,
        CellKind::UInt64 => "UInt64"@,
        CellKind::Utf8 => "Utf8"@,
        CellKind::TimestampMillis => "TimestampMillis"@,
        CellKind::DateDays => "DateDays"@,
        CellKind::Decimal128 => "Decimal128"@,
        CellKind::Binary => "Binary"@,
    }
}

/// The text of an error, without the value that was found.
pub open spec fn error_text(error: ScalarBuilderError) -> Seq<char> {
    match error {
        ScalarBuilderError::UnsupportedType =>
            "unsupported scalar column type for typed array builder"@,
        ScalarBuilderError::ExpectedRowValue(kind) => "expected "@ + kind_name(kind)
            + " row value"@,
        ScalarBuilderError::MissingColumn(kind, index) => "row missing column for "@ + kind_name(
            kind,
        ),
        ScalarBuilderError::NotFromRows(kind) => "cannot append RowValue into "@ + kind_name(kind)
            + " column builder"@,
        ScalarBuilderError::ExpectedEncodedScalar(kind) => "expected "@ + kind_name(kind)
            + " encoded scalar"@,
        ScalarBuilderError::NotFromEncoded(kind) => "cannot append encoded scalar to "@
            + kind_name(kind) + " column builder"@,
        ScalarBuilderError::ExpectedBuilder(kind) => "expected "@ + kind_name(kind)
            + " column builder"@,
        ScalarBuilderError::Full => "byte array offset overflow"@,
    }
}

fn name_of(kind: CellKind) -> (name: &'static str)
    ensures
        name@ == kind_name(kind),
{
    match kind {
        CellKind::Null => "NULL",
        CellKind::Bool => "Bool",
        CellKind::Int64 => "Int64",
        CellKind::UInt64 => "UInt64",
        CellKind::Utf8 => "Utf8",
        CellKind::TimestampMillis => "TimestampMillis",
        CellKind::DateDays => "DateDays",
        CellKind::Decimal128 => "Decimal128",
        CellKind::Binary => "Binary",
    }
}

fn around(first: &str, middle: &str, last: &str) -> (text: String)
    ensures
        text@ == first@ + middle@ + last@,
{
    let mut chars: Vec<char> = Vec::new();
    push_text(&mut chars, first);
    push_text(&mut chars, middle);
    push_text(&mut chars, last);
    assert(chars@ =~= first@ + middle@ + last@);
    string_of(chars)
}

impl ScalarBuilderError {
    /// The text of the error, without the value that was found.
    pub fn message(&self) -> (text: String)
        ensures
            text@ == error_text(*self),
    {
        match *self {
            ScalarBuilderError::UnsupportedType => String::from_str(
                "unsupported scalar column type for typed array builder",
            ),
            ScalarBuilderError::ExpectedRowValue(kind) => around(
                "expected ",
                name_of(kind),
                " row value",
            ),
            ScalarBuilderError::MissingColumn(kind, _) => {
                let text = around("row missing column for ", name_of(kind), "");
                proof {
                    reveal_strlit("");
                    assert(text@ =~= "row missing column for "@ + kind_name(kind));
                }
                text
            },
            ScalarBuilderError::NotFromRows(kind) => around(
                "cannot append RowValue into ",
                name_of(kind),
                " column builder",
            ),
            ScalarBuilderError::ExpectedEncodedScalar(kind) => around(
                "expected ",
                name_of(kind),
                " encoded scalar",
            ),
            ScalarBuilderError::NotFromEncoded(kind) => around(
                "cannot append encoded scalar to ",
                name_of(kind),
                " column builder",
            ),
            ScalarBuilderError::ExpectedBuilder(kind) => around(
                "expected ",
                name_of(kind),
                " column builder",
            ),
            ScalarBuilderError::Full => String::from_str("byte array offset overflow"),
        }
    }
}

/// What a column of a type holds.
pub open spec fn kind_for(data_type: DataType) -> Option<CellKind> {
    match data_type {
        DataType::Int64 => Some(CellKind::Int64),
        DataType::Utf8 => Some(CellKind::Utf8),
        DataType::Timestamp(TimeUnit::Millisecond, _) => Some(CellKind::TimestampMillis),
        DataType::Date32 => Some(CellKind::DateDays),
        DataType::Decimal128(_, _) => Some(CellKind::Decimal128),
        DataType::Boolean => Some(CellKind::Bool),
        DataType::Binary => Some(CellKind::Binary),
        DataType::UInt64 => Some(CellKind::UInt64),
        DataType::Null => Some(CellKind::Null),
        _ => None,
    }
}

/// Columns of this kind are filled from rows.
pub open spec fn from_rows(kind: CellKind) -> bool {
    kind != CellKind::Binary && kind != CellKind::UInt64 && kind != CellKind::Null
}

/// The cell that a value of a row gives in a column of a kind. Numbers by their text are texts.
pub open spec fn row_value_cell(kind: CellKind, value: RowValue) -> Option<CellView> {
    match (kind, value) {
        (CellKind::Int64, RowValue::Int64(v)) => Some(CellView::Int64(v)),
        (CellKind::Utf8, RowValue::Utf8(v)) => Some(CellView::Utf8(v@)),
        (CellKind::Utf8, RowValue::Numeric(v)) => Some(CellView::Utf8(v@)),
        (CellKind::TimestampMillis, RowValue::TimestampMillis(v)) => Some(
            CellView::TimestampMillis(v),
        ),
        (CellKind::DateDays, RowValue::DateDays(v)) => Some(CellView::DateDays(v)),
        (CellKind::Decimal128, RowValue::Decimal128(v)) => Some(CellView::Decimal128(v)),
        (CellKind::Bool, RowValue::Bool(v)) => Some(CellView::Bool(v)),
        _ => None,
    }
}

/// The cell that a row gives in a column of a kind.
pub open spec fn row_cell(kind: CellKind, row: Seq<RowValue>, index: usize) -> Result<
    CellView,
    ScalarBuilderError,
> {
    if index >= row.len() {
        Err(ScalarBuilderError::MissingColumn(kind, index))
    } else {
        match row_value_cell(kind, row[index as int]) {
            Some(cell) => Ok(cell),
            None => Err(ScalarBuilderError::ExpectedRowValue(kind)),
        }
    }
}

/// A column that is full or takes another cell.
pub open spec fn added(kind: CellKind, cells: Seq<CellView>, cell: CellView) -> Result<
    Seq<CellView>,
    ScalarBuilderError,
> {
    match arrow_builders::appended(kind, cells, cell) {
        Ok(after) => Ok(after),
        Err(error) => Err(ScalarBuilderError::Full),
    }
}

/// The cells of a column after the first `n` rows, and the error that ended them: rows before it
/// stay.
pub open spec fn after_rows(
    kind: CellKind,
    cells: Seq<CellView>,
    rows: Seq<Vec<RowValue>>,
    index: usize,
    n: nat,
) -> (Seq<CellView>, Option<ScalarBuilderError>)
    decreases n,
{
    if n == 0 {
        (cells, None)
    } else {
        match after_rows(kind, cells, rows, index, (n - 1) as nat) {
            (before, Some(error)) => (before, Some(error)),
            (before, None) => match row_cell(kind, rows[n - 1]@, index) {
                Err(error) => (before, Some(error)),
                Ok(cell) => match added(kind, before, cell) {
                    Err(error) => (before, Some(error)),
                    Ok(after) => (after, None),
                },
            },
        }
    }
}

/// The cell that an encoded scalar gives in a column of a kind; none is a null.
pub open spec fn encoded_cell(kind: CellKind, value: Option<EncodedScalarView>) -> Result<
    CellView,
    ScalarBuilderError,
> {
    match (kind, value) {
        (_, None) => Ok(CellView::Null),
        (CellKind::Int64, Some(EncodedScalarView::Int64(v))) => Ok(CellView::Int64(v)),
        (CellKind::Utf8, Some(EncodedScalarView::Utf8(v))) => Ok(CellView::Utf8(v)),
        (CellKind::TimestampMillis, Some(EncodedScalarView::TimestampMillis(v))) => Ok(
            CellView::TimestampMillis(v),
        ),
        (CellKind::DateDays, Some(EncodedScalarView::DateDays(v))) => Ok(CellView::DateDays(v)),
        (CellKind::Decimal128, Some(EncodedScalarView::Decimal128(v))) => Ok(
            CellView::Decimal128(v),
        ),
        (CellKind::Bool, Some(EncodedScalarView::Bool(v))) => Ok(CellView::Bool(v)),
        (CellKind::Binary, Some(_)) => Err(ScalarBuilderError::NotFromEncoded(kind)),
        (CellKind::UInt64, Some(_)) => Err(ScalarBuilderError::NotFromEncoded(kind)),
        _ => Err(ScalarBuilderError::ExpectedEncodedScalar(kind)),
    }
}

/// The cells of a column after a cell is appended `n` times, and the error that ended it.
pub open spec fn after_repeats(kind: CellKind, cells: Seq<CellView>, cell: CellView, n: nat) -> (
    Seq<CellView>,
    Option<ScalarBuilderError>,
)
    decreases n,
{
    if n == 0 {
        (cells, None)
    } else {
        match after_repeats(kind, cells, cell, (n - 1) as nat) {
            (before, Some(error)) => (before, Some(error)),
            (before, None) => match added(kind, before, cell) {
                Err(error) => (before, Some(error)),
                Ok(after) => (after, None),
            },
        }
    }
}

/// What a call left in a column, and its result.
pub open spec fn outcome(cells: Seq<CellView>, result: Result<(), ScalarBuilderError>) -> (
    Seq<CellView>,
    Option<ScalarBuilderError>,
) {
    match result {
        Ok(_) => (cells, None),
        Err(error) => (cells, Some(error)),
    }
}

proof fn lemma_rows_ended(
    kind: CellKind,
    cells: Seq<CellView>,
    rows: Seq<Vec<RowValue>>,
    index: usize,
    n: nat,
    m: nat,
)
    requires
        n <= m,
        after_rows(kind, cells, rows, index, n).1 is Some,
    ensures
        after_rows(kind, cells, rows, index, m) == after_rows(kind, cells, rows, index, n),
    decreases m,
{
    if n < m {
        lemma_rows_ended(kind, cells, rows, index, n, (m - 1) as nat);
    }
}

proof fn lemma_repeats_ended(
    kind: CellKind,
    cells: Seq<CellView>,
    cell: CellView,
    n: nat,
    m: nat,
)
    requires
        n <= m,
        after_repeats(kind, cells, cell, n).1 is Some,
    ensures
        after_repeats(kind, cells, cell, m) == after_repeats(kind, cells, cell, n),
    decreases m,
{
    if n < m {
        lemma_repeats_ended(kind, cells, cell, n, (m - 1) as nat);
    }
}

/// A typed column that is being filled.
pub struct ScalarColumnBuilder {
    data_type: DataType,
    builder: ColumnBuilder,
}

impl ScalarColumnBuilder {
    /// The column is of the kind that its type asks for.
    pub closed spec fn well_formed(&self) -> bool {
        self.builder.well_formed() && kind_for(self.data_type) == Some(self.builder.kind())
    }

    /// The type of the column.
    pub closed spec fn column_type(&self) -> DataType {
        self.data_type
    }

    /// What the column holds.
    pub closed spec fn kind(&self) -> CellKind {
        self.builder.kind()
    }

    /// The cells in the order in which they were appended.
    pub closed spec fn cells(&self) -> Seq<CellView> {
        self.builder.cells()
    }

    /// A column of a type without cells.
    pub fn new(data_type: &DataType, capacity: usize) -> (result: Result<Self, ScalarBuilderError>)
        requires
            arrow_builders::capacity_fits(capacity),
        ensures
            match result {
                Ok(builder) => builder.well_formed() && kind_for(*data_type) == Some(builder.kind())
                    && builder.column_type() == *data_type && builder.cells() == Seq::<
                    CellView,
                >::empty(),
                Err(error) => kind_for(*data_type) is None && error
                    == ScalarBuilderError::UnsupportedType,
            },
    {
        let kind = match data_type {
            DataType::Int64 => CellKind::Int64,
            DataType::Utf8 => CellKind::Utf8,
            DataType::Timestamp(TimeUnit::Millisecond, _) => CellKind::TimestampMillis,
            DataType::Date32 => CellKind::DateDays,
            DataType::Decimal128(_, _) => CellKind::Decimal128,
            DataType::Boolean => CellKind::Bool,
            DataType::Binary => CellKind::Binary,
            DataType::UInt64 => CellKind::UInt64,
            DataType::Null => CellKind::Null,
            _ => {
                return Err(ScalarBuilderError::UnsupportedType);
            },
        };
        let data_capacity: usize = if kind == CellKind::Utf8 {
            8 * capacity
        } else {
            16 * capacity
        };
        Ok(
            ScalarColumnBuilder {
                data_type: data_type.clone(),
                builder: ColumnBuilder::new(kind, capacity, data_capacity),
            },
        )
    }

    /// Appends a cell of the kind of the column.
    fn append_cell(&mut self, cell: &Cell) -> (result: Result<(), ScalarBuilderError>)
        requires
            old(self).well_formed(),
            arrow_builders::takes(old(self).kind(), cell@),
        ensures
            final(self).well_formed(),
            final(self).kind() == old(self).kind(),
            final(self).column_type() == old(self).column_type(),
            match added(old(self).kind(), old(self).cells(), cell@) {
                Ok(cells) => result is Ok && final(self).cells() == cells,
                Err(error) => result == Err::<(), ScalarBuilderError>(error) && final(self).cells()
                    == old(self).cells(),
            },
    {
        match self.builder.append(cell) {
            Ok(_) => Ok(()),
            Err(_) => Err(ScalarBuilderError::Full),
        }
    }

    /// Appends the values of a column of rows. Where one cannot be appended, those before it
    /// stay.
    pub fn append_row_values_column(&mut self, rows: &Vec<Vec<RowValue>>, column_idx: usize)
        -> (result: Result<(), ScalarBuilderError>)
        requires
            old(self).well_formed(),
        ensures
            final(self).well_formed(),
            final(self).kind() == old(self).kind(),
            final(self).column_type() == old(self).column_type(),
            outcome(final(self).cells(), result) == (if from_rows(old(self).kind()) {
                after_rows(
                    old(self).kind(),
                    old(self).cells(),
                    rows@,
                    column_idx,
                    rows@.len(),
                )
            } else {
                (old(self).cells(), Some(ScalarBuilderError::NotFromRows(old(self).kind())))
            }),
    {
        let kind = self.builder.cell_kind();
        if kind == CellKind::Binary || kind == CellKind::UInt64 || kind == CellKind::Null {
            return Err(ScalarBuilderError::NotFromRows(kind));
        }
        let ghost start = self.cells();
        let mut i: usize = 0;
        while i < rows.len()
            invariant
                i <= rows@.len(),
                self.well_formed(),
                kind == self.kind(),
                kind == old(self).kind(),
                start == old(self).cells(),
                from_rows(kind),
                self.column_type() == old(self).column_type(),
                after_rows(kind, start, rows@, column_idx, i as nat) == (self.cells(), None::<
                    ScalarBuilderError,
                >),
            decreases rows@.len() - i,
        {
            let row: &Vec<RowValue> = &rows[i];
            let cell: Result<Cell, ScalarBuilderError> = if column_idx >= row.len() {
                Err(ScalarBuilderError::MissingColumn(kind, column_idx))
            } else {
                match (kind, &row[column_idx]) {
                    (CellKind::Int64, RowValue::Int64(v)) => Ok(Cell::Int64(*v)),
                    (CellKind::Utf8, RowValue::Utf8(v)) => Ok(Cell::Utf8(v.clone())),
                    (CellKind::Utf8, RowValue::Numeric(v)) => Ok(Cell::Utf8(v.clone())),
                    (CellKind::TimestampMillis, RowValue::TimestampMillis(v)) => Ok(
                        Cell::TimestampMillis(*v),
                    ),
                    (CellKind::DateDays, RowValue::DateDays(v)) => Ok(Cell::DateDays(*v)),
                    (CellKind::Decimal128, RowValue::Decimal128(v)) => Ok(Cell::Decimal128(*v)),
                    (CellKind::Bool, RowValue::Bool(v)) => Ok(Cell::Bool(*v)),
                    _ => Err(ScalarBuilderError::ExpectedRowValue(kind)),
                }
            };
            let result = match cell {
                Ok(cell) => self.append_cell(&cell),
                Err(error) => Err(error),
            };
            if let Err(error) = result {
                proof {
                    lemma_rows_ended(
                        kind,
                        start,
                        rows@,
                        column_idx,
                        (i + 1) as nat,
                        rows@.len(),
                    );
                }
                return Err(error);
            }
            i = i + 1;
        }
        Ok(())
    }

    /// Appends an unsigned integer.
    pub fn append_u64_value(&mut self, value: u64) -> (result: Result<(), ScalarBuilderError>)
        requires
            old(self).well_formed(),
        ensures
            final(self).well_formed(),
            final(self).kind() == old(self).kind(),
            final(self).column_type() == old(self).column_type(),
            outcome(final(self).cells(), result) == (if old(self).kind() == CellKind::UInt64 {
                (old(self).cells().push(CellView::UInt64(value)), None)
            } else {
                (old(self).cells(), Some(ScalarBuilderError::ExpectedBuilder(CellKind::UInt64)))
            }),
    {
        if self.builder.cell_kind() != CellKind::UInt64 {
            return Err(ScalarBuilderError::ExpectedBuilder(CellKind::UInt64));
        }
        self.append_cell(&Cell::UInt64(value))
    }

    /// Appends an integer.
    pub fn append_i64_value(&mut self, value: i64) -> (result: Result<(), ScalarBuilderError>)
        requires
            old(self).well_formed(),
        ensures
            final(self).well_formed(),
            final(self).kind() == old(self).kind(),
            final(self).column_type() == old(self).column_type(),
            outcome(final(self).cells(), result) == (if old(self).kind() == CellKind::Int64 {
                (old(self).cells().push(CellView::Int64(value)), None)
            } else {
                (old(self).cells(), Some(ScalarBuilderError::ExpectedBuilder(CellKind::Int64)))
            }),
    {
        if self.builder.cell_kind() != CellKind::Int64 {
            return Err(ScalarBuilderError::ExpectedBuilder(CellKind::Int64));
        }
        self.append_cell(&Cell::Int64(value))
    }

    /// Appends a byte string.
    pub fn append_binary_value(&mut self, value: &Vec<u8>) -> (result: Result<
        (),
        ScalarBuilderError,
    >)
        requires
            old(self).well_formed(),
        ensures
            final(self).well_formed(),
            final(self).kind() == old(self).kind(),
            final(self).column_type() == old(self).column_type(),
            outcome(final(self).cells(), result) == (if old(self).kind() == CellKind::Binary {
                match added(CellKind::Binary, old(self).cells(), CellView::Binary(value@)) {
                    Ok(cells) => (cells, None),
                    Err(error) => (old(self).cells(), Some(error)),
                }
            } else {
                (old(self).cells(), Some(ScalarBuilderError::ExpectedBuilder(CellKind::Binary)))
            }),
    {
        if self.builder.cell_kind() != CellKind::Binary {
            return Err(ScalarBuilderError::ExpectedBuilder(CellKind::Binary));
        }
        let bytes = value.clone();
        assert(bytes@ =~= value@);
        self.append_cell(&Cell::Binary(bytes))
    }

    /// The cell that an encoded scalar gives in the column.
    fn cell_for(&self, value: Option<&EncodedRowScalar>) -> (result: Result<
        Cell,
        ScalarBuilderError,
    >)
        requires
            self.well_formed(),
        ensures
            match result {
                Ok(cell) => encoded_cell(self.kind(), opt_scalar(value)) == Ok::<
                    CellView,
                    ScalarBuilderError,
                >(cell@) && arrow_builders::takes(self.kind(), cell@),
                Err(error) => encoded_cell(self.kind(), opt_scalar(value)) == Err::<
                    CellView,
                    ScalarBuilderError,
                >(error),
            },
    {
        let kind = self.builder.cell_kind();
        match (kind, value) {
            (_, None) => Ok(Cell::Null),
            (CellKind::Int64, Some(EncodedRowScalar::Int64(v))) => Ok(Cell::Int64(*v)),
            (CellKind::Utf8, Some(EncodedRowScalar::Utf8(v))) => Ok(Cell::Utf8(v.clone())),
            (CellKind::TimestampMillis, Some(EncodedRowScalar::TimestampMillis(v))) => Ok(
                Cell::TimestampMillis(*v),
            ),
            (CellKind::DateDays, Some(EncodedRowScalar::DateDays(v))) => Ok(Cell::DateDays(*v)),
            (CellKind::Decimal128, Some(EncodedRowScalar::Decimal128(v))) => Ok(
                Cell::Decimal128(*v),
            ),
            (CellKind::Bool, Some(EncodedRowScalar::Bool(v))) => Ok(Cell::Bool(*v)),
            (CellKind::Binary, Some(_)) => Err(ScalarBuilderError::NotFromEncoded(kind)),
            (CellKind::UInt64, Some(_)) => Err(ScalarBuilderError::NotFromEncoded(kind)),
            _ => Err(ScalarBuilderError::ExpectedEncodedScalar(kind)),
        }
    }

    /// Appends an encoded scalar; none is a null.
    pub fn append_encoded_scalar(&mut self, value: Option<&EncodedRowScalar>) -> (result: Result<
        (),
        ScalarBuilderError,
    >)
        requires
            old(self).well_formed(),
        ensures
            final(self).well_formed(),
            final(self).kind() == old(self).kind(),
            final(self).column_type() == old(self).column_type(),
            outcome(final(self).cells(), result) == (match encoded_cell(
                old(self).kind(),
                opt_scalar(value),
            ) {
                Err(error) => (old(self).cells(), Some(error)),
                Ok(cell) => after_repeats(old(self).kind(), old(self).cells(), cell, 1),
            }),
    {
        proof {
            reveal_with_fuel(after_repeats, 2);
        }
        match self.cell_for(value) {
            Ok(cell) => self.append_cell(&cell),
            Err(error) => Err(error),
        }
    }

    /// Appends an encoded scalar `count` times; without repetition the scalar does not matter.
    pub fn append_encoded_scalar_repeated(
        &mut self,
        value: Option<&EncodedRowScalar>,
        count: usize,
    ) -> (result: Result<(), ScalarBuilderError>)
        requires
            old(self).well_formed(),
        ensures
            final(self).well_formed(),
            final(self).kind() == old(self).kind(),
            final(self).column_type() == old(self).column_type(),
            outcome(final(self).cells(), result) == (if count == 0 {
                (old(self).cells(), None)
            } else {
                match encoded_cell(old(self).kind(), opt_scalar(value)) {
                    Err(error) => (old(self).cells(), Some(error)),
                    Ok(cell) => after_repeats(
                        old(self).kind(),
                        old(self).cells(),
                        cell,
                        count as nat,
                    ),
                }
            }),
    {
        if count == 0 {
            return Ok(());
        }
        let cell = match self.cell_for(value) {
            Ok(cell) => cell,
            Err(error) => {
                return Err(error);
            },
        };
        let ghost kind = self.kind();
        let ghost start = self.cells();
        let mut i: usize = 0;
        while i < count
            invariant
                i <= count,
                self.well_formed(),
                kind == self.kind(),
                kind == old(self).kind(),
                start == old(self).cells(),
                self.column_type() == old(self).column_type(),
                arrow_builders::takes(kind, cell@),
                count > 0,
                encoded_cell(kind, opt_scalar(value)) == Ok::<CellView, ScalarBuilderError>(cell@),
                after_repeats(kind, start, cell@, i as nat) == (self.cells(), None::<
                    ScalarBuilderError,
                >),
            decreases count - i,
        {
            if let Err(error) = self.append_cell(&cell) {
                proof {
                    lemma_repeats_ended(kind, start, cell@, (i + 1) as nat, count as nat);
                }
                return Err(error);
            }
            i = i + 1;
        }
        Ok(())
    }

    /// Hands the column out and leaves it without cells.
    pub fn finish_array(&mut self) -> (column: Column)
        requires
            old(self).well_formed(),
        ensures
            column.data_type == old(self).column_type(),
            columns::cell_views(column.cells@) == old(self).cells(),
            final(self).well_formed(),
            final(self).kind() == old(self).kind(),
            final(self).column_type() == old(self).column_type(),
            final(self).cells() == Seq::<CellView>::empty(),
    {
        let cells = self.builder.finish();
        Column { data_type: self.data_type.clone(), cells }
    }
}

/// An optional encoded scalar as what it stands for.
pub open spec fn opt_scalar(value: Option<&EncodedRowScalar>) -> Option<EncodedScalarView> {
    match value {
        Some(scalar) => Some(scalar@),
        None => None,
    }
}

/// Appending the same encoded scalar again and again is appending it repeatedly, as long as it is
/// taken.
pub proof fn law_repetition(kind: CellKind, cells: Seq<CellView>, cell: CellView, n: nat)
    requires
        after_repeats(kind, cells, cell, n).1 is None,
    ensures
        after_repeats(kind, cells, cell, n).0 == cells + Seq::new(n, |i: int| cell),
    decreases n,
{
    if n > 0 {
        law_repetition(kind, cells, cell, (n - 1) as nat);
        assert(cells + Seq::new(n, |i: int| cell) =~= (cells + Seq::new(
            (n - 1) as nat,
            |i: int| cell,
        )).push(cell));
    } else {
        assert(cells + Seq::new(0, |i: int| cell) =~= cells);
    }
}

/// A value of a row goes unchanged into a column of its kind, and into no other column; a number
/// by its text goes into a column of texts.
pub proof fn law_row_values_stand_for_themselves(kind: CellKind, value: RowValue)
    ensures
        row_value_cell(kind, value) is Some ==> from_rows(kind),
        match value {
            RowValue::Int64(v) => (kind is Int64) == (row_value_cell(kind, value) == Some(
                CellView::Int64(v),
            )) && (row_value_cell(kind, value) is Some) == (kind is Int64),
            RowValue::Utf8(v) => (kind is Utf8) == (row_value_cell(kind, value) == Some(
                CellView::Utf8(v@),
            )) && (row_value_cell(kind, value) is Some) == (kind is Utf8),
            RowValue::Numeric(v) => (kind is Utf8) == (row_value_cell(kind, value) == Some(
                CellView::Utf8(v@),
            )) && (row_value_cell(kind, value) is Some) == (kind is Utf8),
            RowValue::TimestampMillis(v) => (kind is TimestampMillis) == (row_value_cell(
                kind,
                value,
            ) == Some(CellView::TimestampMillis(v))) && (row_value_cell(kind, value) is Some) == (
            kind is TimestampMillis),
            RowValue::DateDays(v) => (kind is DateDays) == (row_value_cell(kind, value) == Some(
                CellView::DateDays(v),
            )) && (row_value_cell(kind, value) is Some) == (kind is DateDays),
            RowValue::Decimal128(v) => (kind is Decimal128) == (row_value_cell(kind, value)
                == Some(CellView::Decimal128(v))) && (row_value_cell(kind, value) is Some) == (
            kind is Decimal128),
            RowValue::Bool(v) => (kind is Bool) == (row_value_cell(kind, value) == Some(
                CellView::Bool(v),
            )) && (row_value_cell(kind, value) is Some) == (kind is Bool),
        },
{
}

/// A row and an encoded scalar of one value give one cell, and different values of one kind give
/// different cells.
pub proof fn law_rows_and_scalars_give_the_same_cells(
    kind: CellKind,
    value: EncodedScalarView,
    other: EncodedScalarView,
)
    ensures
        encoded_cell(kind, None) == Ok::<CellView, ScalarBuilderError>(CellView::Null),
        encoded_cell(kind, Some(value)) is Ok && encoded_cell(kind, Some(value)) == encoded_cell(
            kind,
            Some(other),
        ) ==> value == other,
        encoded_cell(kind, Some(value)) is Ok ==> encoded_cell(kind, Some(value))->Ok_0 !is Null,
        value matches EncodedScalarView::Int64(v) ==> match row_value_cell(
            kind,
            RowValue::Int64(v),
        ) {
            Some(cell) => encoded_cell(kind, Some(value)) == Ok::<CellView, ScalarBuilderError>(
                cell,
            ),
            None => encoded_cell(kind, Some(value)) is Err,
        },
        value matches EncodedScalarView::TimestampMillis(v) ==> match row_value_cell(
            kind,
            RowValue::TimestampMillis(v),
        ) {
            Some(cell) => encoded_cell(kind, Some(value)) == Ok::<CellView, ScalarBuilderError>(
                cell,
            ),
            None => encoded_cell(kind, Some(value)) is Err,
        },
        value matches EncodedScalarView::DateDays(v) ==> match row_value_cell(
            kind,
            RowValue::DateDays(v),
        ) {
            Some(cell) => encoded_cell(kind, Some(value)) == Ok::<CellView, ScalarBuilderError>(
                cell,
            ),
            None => encoded_cell(kind, Some(value)) is Err,
        },
        value matches EncodedScalarView::Decimal128(v) ==> match row_value_cell(
            kind,
            RowValue::Decimal128(v),
        ) {
            Some(cell) => encoded_cell(kind, Some(value)) == Ok::<CellView, ScalarBuilderError>(
                cell,
            ),
            None => encoded_cell(kind, Some(value)) is Err,
        },
        value matches EncodedScalarView::Bool(v) ==> match row_value_cell(
            kind,
            RowValue::Bool(v),
        ) {
            Some(cell) => encoded_cell(kind, Some(value)) == Ok::<CellView, ScalarBuilderError>(
                cell,
            ),
            None => encoded_cell(kind, Some(value)) is Err,
        },
        value matches EncodedScalarView::Utf8(v) ==> if kind is Utf8 {
            encoded_cell(kind, Some(value)) == Ok::<CellView, ScalarBuilderError>(
                CellView::Utf8(v),
            )
        } else {
            encoded_cell(kind, Some(value)) is Err
        },
{
}

/// Rows add one cell each behind the others, in their order: the one of their value at the
/// position of the column. At the first row without such a value filling ends.
#[verifier::rlimit(40)]
pub proof fn law_each_row_adds_its_cell(
    kind: CellKind,
    cells: Seq<CellView>,
    rows: Seq<Vec<RowValue>>,
    index: usize,
    n: nat,
)
    requires
        n <= rows.len(),
    ensures
        ({
            let (after, fault) = after_rows(kind, cells, rows, index, n);
            let added = after.len() - cells.len();
            &&& 0 <= added <= n
            &&& after.take(cells.len() as int) == cells
            &&& forall|i: int| 0 <= i < added ==> index < (#[trigger] rows[i])@.len()
            &&& forall|k: int|
                cells.len() <= k < after.len() ==> row_value_cell(
                    kind,
                    rows[k - cells.len()]@[index as int],
                ) == Some(#[trigger] after[k])
            &&& match fault {
                None => added == n,
                Some(ScalarBuilderError::MissingColumn(told, at)) => added < n && told == kind
                    && at == index && index >= rows[added]@.len(),
                Some(ScalarBuilderError::ExpectedRowValue(told)) => added < n && told == kind
                    && index < rows[added]@.len() && row_value_cell(
                    kind,
                    rows[added]@[index as int],
                ) is None,
                Some(other) => added < n && other is Full,
            }
        }),
    decreases n,
{
    if n == 0 {
        assert(cells.take(cells.len() as int) =~= cells);
    } else {
        law_each_row_adds_its_cell(kind, cells, rows, index, (n - 1) as nat);
        let (before, fault) = after_rows(kind, cells, rows, index, (n - 1) as nat);
        let (after, _) = after_rows(kind, cells, rows, index, n);
        if fault is None {
            if row_cell(kind, rows[n - 1]@, index) is Ok {
                let cell = row_cell(kind, rows[n - 1]@, index)->Ok_0;
                if added(kind, before, cell) is Ok {
                    assert(after == before.push(cell));
                    assert(after.take(cells.len() as int) =~= before.take(cells.len() as int));
                }
            }
        }
        assert forall|k: int| cells.len() <= k < after.len() implies row_value_cell(
            kind,
            rows[k - cells.len()]@[index as int],
        ) == Some(#[trigger] after[k]) by {
            if k < before.len() {
                assert(before[k] == after[k]);
            }
        }
    }
}

/// A column takes the values of its type: what a row has for a column of a type is of that type.
pub proof fn law_columns_take_values_of_their_type(data_type: DataType, value: RowValue)
    ensures
        kind_for(data_type) matches Some(kind) ==> (row_value_cell(kind, value) is Some <==> match (
            data_type,
            value,
        ) {
            (DataType::Int64, RowValue::Int64(_)) => true,
            (DataType::Utf8, RowValue::Utf8(_)) => true,
            (DataType::Utf8, RowValue::Numeric(_)) => true,
            (DataType::Timestamp(_, _), RowValue::TimestampMillis(_)) => true,
            (DataType::Date32, RowValue::DateDays(_)) => true,
            (DataType::Decimal128(_, _), RowValue::Decimal128(_)) => true,
            (DataType::Boolean, RowValue::Bool(_)) => true,
            _ => false,
        }),
        data_type matches DataType::Timestamp(unit, _) ==> (kind_for(data_type) is Some
            <==> unit is Millisecond),
        data_type is Int64 || data_type is Utf8 || data_type is Date32 || data_type is Decimal128
            || data_type is Boolean || data_type is Binary || data_type is UInt64
            || data_type is Null ==> kind_for(data_type) is Some,
{
}

} // verus!
