//! Batches of typed columns from the events of a source.

use vstd::prelude::*;

use crate::arrow_builders;
use crate::arrow_builders::{CellKind, ColumnBuilder};
use crate::columns;
use crate::columns::{
    clone_schema, schemas_same, BatchError, Cell, CellView, Column, ColumnBatch, Field,
};
use crate::name_map::NameMap;
use crate::stream_types::Timestamp;
use crate::text::same_text;
use crate::values;
use crate::values::{DataType, TimeUnit};

verus! {

/// The type of a column of a source.
#[derive(Clone, Copy, Debug, PartialEq, Eq, Structural)]
pub enum SourceDataType {
    Int64,
    Bool,
    Utf8,
    TimestampMillis,
    DateDays,
    Decimal128(u8, i8),
    /// A number by its text.
    Numeric,
}

/// A column of a source.
#[derive(Debug, PartialEq, Eq)]
pub struct SourceColumn {
    pub name: String,
    pub data_type: SourceDataType,
    pub nullable: bool,
}

/// A source: its name and its columns.
#[derive(Debug, PartialEq, Eq)]
pub struct SourceDefinition {
    pub name: String,
    pub columns: Vec<SourceColumn>,
}

/// A number of a payload: its text and, where it is one, its integer.
#[derive(Debug, PartialEq, Eq)]
pub struct JsonNumber {
    pub integer: Option<i64>,
    pub text: String,
}

/// A value of a payload.
#[derive(Debug, PartialEq, Eq)]
pub enum JsonValue {
    Null,
    Bool(bool),
    Number(JsonNumber),
    Text(String),
    /// A list or an object.
    Other,
}

/// What a value of a payload stands for.
pub enum JsonView {
    Null,
    Bool(bool),
    Number(Option<i64>, Seq<char>),
    Text(Seq<char>),
    Other,
}

impl View for JsonValue {
    type V = JsonView;

    open spec fn view(&self) -> JsonView {
        match *self {
            JsonValue::Null => JsonView::Null,
            JsonValue::Bool(value) => JsonView::Bool(value),
            JsonValue::Number(number) => JsonView::Number(number.integer, number.text@),
            JsonValue::Text(value) => JsonView::Text(value@),
            JsonValue::Other => JsonView::Other,
        }
    }
}

/// The payload of an event.
pub enum Payload {
    Object(NameMap<JsonValue>),
    /// Something else than an object.
    Other,
}

/// An event of a source.
pub struct AppendIngestEvent {
    pub source: String,
    pub payload: Option<Payload>,
}

/// Why an event or a batch is refused. Columns are told by their position.
#[derive(Clone, Copy, Debug, PartialEq, Eq, Structural)]
pub enum SourceError {
    /// The event is of another source.
    SourceMismatch,
    /// The event has no payload.
    PayloadMissing,
    /// The payload is no object.
    NotObject,
    /// The text of the payload breaks off or is malformed.
    Malformed,
    /// The payload goes on behind its object.
    TrailingData,
    /// The payload has no such field, and the column takes no nulls.
    MissingField(usize),
    /// The field is null, and the column takes no nulls.
    NullViolation(usize),
    ExpectedInteger(usize),
    ExpectedBoolean(usize),
    ExpectedString(usize),
    ExpectedTimestamp(usize),
    ExpectedDate(usize),
    DateOutOfRange(usize),
    ExpectedDecimal(usize),
    InvalidDecimal(usize),
    ExpectedNumeric(usize),
    /// The column cannot hold as much.
    Full(usize),
    /// The builder makes no batches for queries.
    NoQueryBatches,
    /// The columns make no batch.
    Batch(BatchError),
    /// The batch has another schema than the source.
    SchemaMismatch,
}

/// What the columns of a type hold.
pub open spec fn source_kind(data_type: SourceDataType) -> CellKind {
    match data_type {
        SourceDataType::Int64 => CellKind::Int64,
        SourceDataType::Bool => CellKind::Bool,
        SourceDataType::Utf8 => CellKind::Utf8,
        SourceDataType::TimestampMillis => CellKind::TimestampMillis,
        SourceDataType::DateDays => CellKind::DateDays,
        SourceDataType::Decimal128(_, _) => CellKind::Decimal128,
        SourceDataType::Numeric => CellKind::Utf8,
    }
}

fn kind_of(data_type: SourceDataType) -> (kind: CellKind)
    ensures
        kind == source_kind(data_type),
{
    match data_type {
        SourceDataType::Int64 => CellKind::Int64,
        SourceDataType::Bool => CellKind::Bool,
        SourceDataType::Utf8 => CellKind::Utf8,
        SourceDataType::TimestampMillis => CellKind::TimestampMillis,
        SourceDataType::DateDays => CellKind::DateDays,
        SourceDataType::Decimal128(_, _) => CellKind::Decimal128,
        SourceDataType::Numeric => CellKind::Utf8,
    }
}

/// The type of the columns of a batch.
pub open spec fn column_type(data_type: SourceDataType) -> DataType {
    match data_type {
        SourceDataType::Int64 => DataType::Int64,
        SourceDataType::Bool => DataType::Boolean,
        SourceDataType::Utf8 => DataType::Utf8,
        SourceDataType::TimestampMillis => DataType::Timestamp(TimeUnit::Millisecond, None),
        SourceDataType::DateDays => DataType::Date32,
        SourceDataType::Decimal128(precision, scale) => DataType::Decimal128(precision, scale),
        SourceDataType::Numeric => DataType::Utf8,
    }
}

fn type_of(data_type: SourceDataType) -> (result: DataType)
    ensures
        result == column_type(data_type),
{
    match data_type {
        SourceDataType::Int64 => DataType::Int64,
        SourceDataType::Bool => DataType::Boolean,
        SourceDataType::Utf8 => DataType::Utf8,
        SourceDataType::TimestampMillis => DataType::Timestamp(TimeUnit::Millisecond, None),
        SourceDataType::DateDays => DataType::Date32,
        SourceDataType::Decimal128(precision, scale) => DataType::Decimal128(precision, scale),
        SourceDataType::Numeric => DataType::Utf8,
    }
}

/// A schema is the one of the batches of a source.
pub open spec fn is_schema_of(schema: Seq<Field>, columns: Seq<SourceColumn>) -> bool {
    schema.len() == columns.len() && forall|i: int|
        0 <= i < schema.len() ==> (#[trigger] schema[i]).name == columns[i].name
            && schema[i].data_type == column_type(columns[i].data_type) && schema[i].nullable
            == columns[i].nullable
}

impl SourceDefinition {
    /// The schema of the batches of the source.
    pub fn to_arrow_schema(&self) -> (schema: Vec<Field>)
        ensures
            is_schema_of(schema@, self.columns@),
    {
        let mut schema: Vec<Field> = Vec::new();
        let mut i: usize = 0;
        while i < self.columns.len()
            invariant
                i <= self.columns@.len(),
                schema@.len() == i,
                forall|k: int|
                    0 <= k < schema@.len() ==> (#[trigger] schema@[k]).name
                        == self.columns@[k].name && schema@[k].data_type == column_type(
                        self.columns@[k].data_type,
                    ) && schema@[k].nullable == self.columns@[k].nullable,
            decreases self.columns@.len() - i,
        {
            schema.push(
                Field {
                    name: self.columns[i].name.clone(),
                    data_type: type_of(self.columns[i].data_type),
                    nullable: self.columns[i].nullable,
                },
            );
            i = i + 1;
        }
        schema
    }
}

/// The integer that a value is.
pub open spec fn integer_of(value: JsonView) -> Option<i64> {
    match value {
        JsonView::Number(integer, text) => integer,
        _ => None,
    }
}

/// The cell that a value, which is not null, gives in a column. `decimal` is what its text or
/// number is as a decimal of the scale of the column.
pub open spec fn value_cell(
    data_type: SourceDataType,
    at: usize,
    value: JsonView,
    decimal: Option<i128>,
) -> Result<CellView, SourceError> {
    match data_type {
        SourceDataType::Int64 => match integer_of(value) {
            Some(v) => Ok(CellView::Int64(v)),
            None => Err(SourceError::ExpectedInteger(at)),
        },
        SourceDataType::Bool => match value {
            JsonView::Bool(v) => Ok(CellView::Bool(v)),
            _ => Err(SourceError::ExpectedBoolean(at)),
        },
        SourceDataType::Utf8 => match value {
            JsonView::Text(v) => Ok(CellView::Utf8(v)),
            _ => Err(SourceError::ExpectedString(at)),
        },
        SourceDataType::TimestampMillis => match integer_of(value) {
            Some(v) => Ok(CellView::TimestampMillis(v)),
            None => Err(SourceError::ExpectedTimestamp(at)),
        },
        SourceDataType::DateDays => match integer_of(value) {
            Some(v) => if i32::MIN <= v <= i32::MAX {
                Ok(CellView::DateDays(v as i32))
            } else {
                Err(SourceError::DateOutOfRange(at))
            },
            None => Err(SourceError::ExpectedDate(at)),
        },
        SourceDataType::Decimal128(_, _) => if value is Text || value is Number {
            match decimal {
                Some(v) => Ok(CellView::Decimal128(v)),
                None => Err(SourceError::InvalidDecimal(at)),
            }
        } else {
            Err(SourceError::ExpectedDecimal(at))
        },
        SourceDataType::Numeric => match value {
            JsonView::Text(v) => Ok(CellView::Utf8(v)),
            JsonView::Number(_, v) => Ok(CellView::Utf8(v)),
            _ => Err(SourceError::ExpectedNumeric(at)),
        },
    }
}

/// The cell that a field gives in a column: a field that is missing or null gives a null where
/// the column takes one.
pub open spec fn field_cell(
    column: SourceColumn,
    at: usize,
    value: Option<JsonView>,
    decimal: Option<i128>,
) -> Result<CellView, SourceError> {
    match value {
        None => if column.nullable {
            Ok(CellView::Null)
        } else {
            Err(SourceError::MissingField(at))
        },
        Some(JsonView::Null) => if column.nullable {
            Ok(CellView::Null)
        } else {
            Err(SourceError::NullViolation(at))
        },
        Some(value) => value_cell(column.data_type, at, value, decimal),
    }
}

/// The decimal of the column at a position.
pub open spec fn decimal_at(decimals: Seq<Option<i128>>, at: int) -> Option<i128> {
    if 0 <= at < decimals.len() {
        decimals[at]
    } else {
        None
    }
}

/// The time of an event after a cell: the first timestamp that is not negative.
pub open spec fn time_after(time: Option<Timestamp>, cell: CellView) -> Option<Timestamp> {
    match (time, cell) {
        (None, CellView::TimestampMillis(v)) => if v >= 0 {
            Some(v as u64)
        } else {
            None
        },
        _ => time,
    }
}

/// The time of an event after a field of a column that is not filled.
pub open spec fn time_after_skipped(
    time: Option<Timestamp>,
    column: SourceColumn,
    value: Option<JsonView>,
) -> Option<Timestamp> {
    match (time, value) {
        (None, Some(value)) => match integer_of(value) {
            Some(v) => if column.data_type == SourceDataType::TimestampMillis && v >= 0 {
                Some(v as u64)
            } else {
                None
            },
            None => None,
        },
        _ => time,
    }
}

/// An optional value as what it stands for.
pub open spec fn opt_json(value: Option<&JsonValue>) -> Option<JsonView> {
    match value {
        Some(value) => Some(value@),
        None => None,
    }
}

/// The cell that a field gives in a column.
fn cell_of_field(
    column: &SourceColumn,
    at: usize,
    value: Option<&JsonValue>,
    decimal: Option<i128>,
) -> (result: Result<Cell, SourceError>)
    ensures
        match result {
            Ok(cell) => field_cell(*column, at, opt_json(value), decimal) == Ok::<
                CellView,
                SourceError,
            >(cell@) && arrow_builders::takes(source_kind(column.data_type), cell@),
            Err(error) => field_cell(*column, at, opt_json(value), decimal) == Err::<
                CellView,
                SourceError,
            >(error),
        },
{
    let value: &JsonValue = match value {
        None => {
            return if column.nullable {
                Ok(Cell::Null)
            } else {
                Err(SourceError::MissingField(at))
            };
        },
        Some(JsonValue::Null) => {
            return if column.nullable {
                Ok(Cell::Null)
            } else {
                Err(SourceError::NullViolation(at))
            };
        },
        Some(value) => value,
    };
    let integer: Option<i64> = match value {
        JsonValue::Number(number) => number.integer,
        _ => None,
    };
    match column.data_type {
        SourceDataType::Int64 => match integer {
            Some(v) => Ok(Cell::Int64(v)),
            None => Err(SourceError::ExpectedInteger(at)),
        },
        SourceDataType::Bool => match value {
            JsonValue::Bool(v) => Ok(Cell::Bool(*v)),
            _ => Err(SourceError::ExpectedBoolean(at)),
        },
        SourceDataType::Utf8 => match value {
            JsonValue::Text(v) => Ok(Cell::Utf8(v.clone())),
            _ => Err(SourceError::ExpectedString(at)),
        },
        SourceDataType::TimestampMillis => match integer {
            Some(v) => Ok(Cell::TimestampMillis(v)),
            None => Err(SourceError::ExpectedTimestamp(at)),
        },
        SourceDataType::DateDays => match integer {
            Some(v) => if v >= i32::MIN as i64 && v <= i32::MAX as i64 {
                Ok(Cell::DateDays(v as i32))
            } else {
                Err(SourceError::DateOutOfRange(at))
            },
            None => Err(SourceError::ExpectedDate(at)),
        },
        SourceDataType::Decimal128(_, _) => match value {
            JsonValue::Text(_) | JsonValue::Number(_) => match decimal {
                Some(v) => Ok(Cell::Decimal128(v)),
                None => Err(SourceError::InvalidDecimal(at)),
            },
            _ => Err(SourceError::ExpectedDecimal(at)),
        },
        SourceDataType::Numeric => match value {
            JsonValue::Text(v) => Ok(Cell::Utf8(v.clone())),
            JsonValue::Number(number) => Ok(Cell::Utf8(number.text.clone())),
            _ => Err(SourceError::ExpectedNumeric(at)),
        },
    }
}

/// The value that stands for a column that is not filled.
pub open spec fn skipped_cell(column: SourceColumn) -> CellView {
    if column.nullable {
        CellView::Null
    } else {
        match column.data_type {
            SourceDataType::Int64 => CellView::Int64(0),
            SourceDataType::Bool => CellView::Bool(false),
            SourceDataType::Utf8 => CellView::Utf8(""@),
            SourceDataType::TimestampMillis => CellView::TimestampMillis(0),
            SourceDataType::DateDays => CellView::DateDays(0),
            SourceDataType::Decimal128(_, _) => CellView::Decimal128(0),
            SourceDataType::Numeric => CellView::Utf8("0"@),
        }
    }
}

/// The cell that stands for a column that is not filled.
fn cell_for_skipped(column: &SourceColumn) -> (cell: Cell)
    ensures
        cell@ == skipped_cell(*column),
{
    if column.nullable {
        return Cell::Null;
    }
    match column.data_type {
        SourceDataType::Int64 => Cell::Int64(0),
        SourceDataType::Bool => Cell::Bool(false),
        SourceDataType::Utf8 => Cell::Utf8(String::from_str("")),
        SourceDataType::TimestampMillis => Cell::TimestampMillis(0),
        SourceDataType::DateDays => Cell::DateDays(0),
        SourceDataType::Decimal128(_, _) => Cell::Decimal128(0),
        SourceDataType::Numeric => Cell::Utf8(String::from_str("0")),
    }
}

/// A column that is not filled, for as many rows.
fn skipped_arrow_column(column: &SourceColumn, row_count: usize) -> (result: Column)
    ensures
        result.data_type == column_type(column.data_type),
        columns::cell_views(result.cells@) == Seq::new(
            row_count as nat,
            |i: int| skipped_cell(*column),
        ),
{
    let mut cells: Vec<Cell> = Vec::new();
    let mut i: usize = 0;
    while i < row_count
        invariant
            i <= row_count,
            cells@.len() == i,
            forall|k: int| 0 <= k < i ==> (#[trigger] cells@[k])@ == skipped_cell(*column),
        decreases row_count - i,
    {
        cells.push(cell_for_skipped(column));
        i = i + 1;
    }
    assert(columns::cell_views(cells@) =~= Seq::new(
        row_count as nat,
        |i: int| skipped_cell(*column),
    ));
    Column { data_type: type_of(column.data_type), cells }
}

/// Which batches a builder makes.
#[derive(Clone, Copy, Debug, PartialEq, Eq, Structural)]
pub enum SourceArrowBatchMode {
    ExecutionAndQuery,
    ExecutionOnly,
}

impl SourceArrowBatchMode {
    /// Batches for queries are made.
    pub open spec fn with_query(self) -> bool {
        self is ExecutionAndQuery
    }

    /// Whether batches for queries are made.
    pub fn includes_query_batch(self) -> (included: bool)
        ensures
            included == self.with_query(),
    {
        match self {
            SourceArrowBatchMode::ExecutionAndQuery => true,
            SourceArrowBatchMode::ExecutionOnly => false,
        }
    }
}

/// The batches of the rows that were appended.
#[derive(Debug)]
pub enum SourceArrowBatches {
    ExecutionAndQuery { execution: ColumnBatch, query: ColumnBatch },
    ExecutionOnly { execution: ColumnBatch },
}

impl SourceArrowBatches {
    /// The batch for execution.
    pub open spec fn execution_batch(self) -> ColumnBatch {
        match self {
            SourceArrowBatches::ExecutionAndQuery { execution, query } => execution,
            SourceArrowBatches::ExecutionOnly { execution } => execution,
        }
    }

    /// The batch for queries, if there is one.
    pub open spec fn query_batch(self) -> Option<ColumnBatch> {
        match self {
            SourceArrowBatches::ExecutionAndQuery { execution, query } => Some(query),
            SourceArrowBatches::ExecutionOnly { execution } => None,
        }
    }

    /// The batch for execution.
    pub fn execution(&self) -> (batch: &ColumnBatch)
        ensures
            *batch == self.execution_batch(),
    {
        match self {
            SourceArrowBatches::ExecutionAndQuery { execution, query } => execution,
            SourceArrowBatches::ExecutionOnly { execution } => execution,
        }
    }

    /// The batch for queries, if there is one.
    pub fn query(&self) -> (batch: Option<&ColumnBatch>)
        ensures
            match batch {
                Some(batch) => self.query_batch() == Some(*batch),
                None => self.query_batch() is None,
            },
    {
        match self {
            SourceArrowBatches::ExecutionAndQuery { execution, query } => Some(query),
            SourceArrowBatches::ExecutionOnly { execution } => None,
        }
    }

    /// The batch for execution and, if there is one, the batch for queries.
    pub fn into_parts(self) -> (parts: (ColumnBatch, Option<ColumnBatch>))
        ensures
            parts == (self.execution_batch(), self.query_batch()),
    {
        match self {
            SourceArrowBatches::ExecutionAndQuery { execution, query } => (execution, Some(query)),
            SourceArrowBatches::ExecutionOnly { execution } => (execution, None),
        }
    }
}

/// Every column is asked for.
pub open spec fn all_required(required: Seq<bool>) -> bool {
    forall|i: int| 0 <= i < required.len() ==> #[trigger] required[i]
}

/// The columns that are asked for, unless all are.
pub open spec fn some_required(required: Option<Seq<bool>>) -> Option<Seq<bool>> {
    match required {
        Some(flags) => if all_required(flags) {
            None
        } else {
            Some(flags)
        },
        None => None,
    }
}

/// A column is asked for; columns of which nothing is said are.
pub open spec fn column_required(required: Option<Seq<bool>>, at: int) -> bool {
    match required {
        Some(flags) => if 0 <= at < flags.len() {
            flags[at]
        } else {
            true
        },
        None => true,
    }
}

/// Whether every column is asked for.
fn requires_all(required: &Vec<bool>) -> (all: bool)
    ensures
        all == all_required(required@),
{
    let mut i: usize = 0;
    while i < required.len()
        invariant
            i <= required@.len(),
            forall|k: int| 0 <= k < i ==> #[trigger] required@[k],
        decreases required@.len() - i,
    {
        if !required[i] {
            return false;
        }
        i = i + 1;
    }
    true
}

/// Optional flags as a sequence.
pub open spec fn opt_flags(required: Option<Vec<bool>>) -> Option<Seq<bool>> {
    match required {
        Some(flags) => Some(flags@),
        None => None,
    }
}

/// Fills batches from the events of a source.
pub struct SourceArrowBatchBuilder {
    definition: SourceDefinition,
    builders: Vec<Option<ColumnBuilder>>,
    execution_required_columns: Option<Vec<bool>>,
    batch_mode: SourceArrowBatchMode,
    row_count: usize,
}

/// What the builders of columns hold; a column that is not filled has none.
pub open spec fn builder_cells(builders: Seq<Option<ColumnBuilder>>) -> Seq<Option<Seq<CellView>>> {
    Seq::new(
        builders.len(),
        |i: int|
            match builders[i] {
                Some(builder) => Some(builder.cells()),
                None => None,
            },
    )
}

/// The builders are of the kinds of the columns.
pub open spec fn builders_fit(
    builders: Seq<Option<ColumnBuilder>>,
    columns: Seq<SourceColumn>,
) -> bool {
    builders.len() == columns.len() && forall|i: int|
        0 <= i < builders.len() ==> ((#[trigger] builders[i]) matches Some(builder)
            ==> builder.well_formed() && builder.kind() == source_kind(columns[i].data_type))
}

/// Every column is filled.
pub open spec fn all_filled(cells: Seq<Option<Seq<CellView>>>) -> bool {
    forall|i: int| 0 <= i < cells.len() ==> (#[trigger] cells[i]) is Some
}

/// What a builder stands for.
pub struct BatchView {
    /// The cells of each column that is filled.
    pub cells: Seq<Option<Seq<CellView>>>,
    /// The number of rows.
    pub rows: nat,
}

impl SourceArrowBatchBuilder {
    /// Each column has a builder of its kind, or none; for queries all have one.
    pub closed spec fn well_formed(&self) -> bool {
        builders_fit(self.builders@, self.definition.columns@) && (self.batch_mode.with_query()
            ==> all_filled(builder_cells(self.builders@)))
    }

    /// What the builder stands for.
    pub closed spec fn state(&self) -> BatchView {
        BatchView { cells: builder_cells(self.builders@), rows: self.row_count as nat }
    }

    /// The source.
    pub closed spec fn source(&self) -> SourceDefinition {
        self.definition
    }

    /// Which batches are made.
    pub closed spec fn mode(&self) -> SourceArrowBatchMode {
        self.batch_mode
    }

    /// The columns that are asked for, unless all are.
    pub closed spec fn required(&self) -> Option<Seq<bool>> {
        opt_flags(self.execution_required_columns)
    }

    /// A builder that fills every column.
    pub fn new(definition: SourceDefinition, capacity: usize) -> (builder: Self)
        requires
            arrow_builders::capacity_fits(capacity),
        ensures
            builder.well_formed(),
            builder.source() == definition,
            builder.mode() == SourceArrowBatchMode::ExecutionAndQuery,
            builder.required() is None,
            builder.state().rows == 0,
            builder.state().cells == Seq::new(
                definition.columns@.len(),
                |i: int| Some(Seq::<CellView>::empty()),
            ),
    {
        let builder = Self::new_with_execution_required_columns(definition, capacity, None);
        assert(builder.state().cells =~= Seq::new(
            definition.columns@.len(),
            |i: int| Some(Seq::<CellView>::empty()),
        ));
        builder
    }

    /// A builder that fills every column and knows the columns that execution asks for.
    pub fn new_with_execution_required_columns(
        definition: SourceDefinition,
        capacity: usize,
        execution_required_columns: Option<Vec<bool>>,
    ) -> (builder: Self)
        requires
            arrow_builders::capacity_fits(capacity),
        ensures
            builder.well_formed(),
            builder.source() == definition,
            builder.mode() == SourceArrowBatchMode::ExecutionAndQuery,
            builder.required() == some_required(opt_flags(execution_required_columns)),
            builder.state().rows == 0,
            builder.state().cells == Seq::new(
                definition.columns@.len(),
                |i: int| Some(Seq::<CellView>::empty()),
            ),
    {
        let builder = Self::new_with_execution_required_columns_and_batch_mode(
            definition,
            capacity,
            execution_required_columns,
            SourceArrowBatchMode::ExecutionAndQuery,
        );
        assert(builder.state().cells =~= Seq::new(
            definition.columns@.len(),
            |i: int| Some(Seq::<CellView>::empty()),
        ));
        builder
    }

    /// A builder: for queries it fills every column, otherwise those that execution asks for.
    pub fn new_with_execution_required_columns_and_batch_mode(
        definition: SourceDefinition,
        capacity: usize,
        execution_required_columns: Option<Vec<bool>>,
        batch_mode: SourceArrowBatchMode,
    ) -> (builder: Self)
        requires
            arrow_builders::capacity_fits(capacity),
        ensures
            builder.well_formed(),
            builder.source() == definition,
            builder.mode() == batch_mode,
            builder.required() == some_required(opt_flags(execution_required_columns)),
            builder.state().rows == 0,
            builder.state().cells == Seq::new(
                definition.columns@.len(),
                |i: int|
                    if batch_mode.with_query() || column_required(
                        some_required(opt_flags(execution_required_columns)),
                        i,
                    ) {
                        Some(Seq::<CellView>::empty())
                    } else {
                        None
                    },
            ),
    {
        let ghost asked = some_required(opt_flags(execution_required_columns));
        let required: Option<Vec<bool>> = match execution_required_columns {
            Some(flags) => if requires_all(&flags) {
                None
            } else {
                Some(flags)
            },
            None => None,
        };
        let with_query: bool = batch_mode.includes_query_batch();
        let mut builders: Vec<Option<ColumnBuilder>> = Vec::new();
        let mut i: usize = 0;
        while i < definition.columns.len()
            invariant
                i <= definition.columns@.len(),
                builders@.len() == i,
                arrow_builders::capacity_fits(capacity),
                asked == opt_flags(required),
                with_query == batch_mode.with_query(),
                forall|k: int|
                    0 <= k < i ==> match #[trigger] builders@[k] {
                        Some(builder) => (with_query || column_required(asked, k))
                            && builder.well_formed() && builder.kind() == source_kind(
                            definition.columns@[k].data_type,
                        ) && builder.cells() == Seq::<CellView>::empty(),
                        None => !(with_query || column_required(asked, k)),
                    },
            decreases definition.columns@.len() - i,
        {
            let wanted: bool = match &required {
                Some(flags) => if i < flags.len() {
                    flags[i]
                } else {
                    true
                },
                None => true,
            };
            if with_query || wanted {
                builders.push(
                    Some(
                        ColumnBuilder::new(
                            kind_of(definition.columns[i].data_type),
                            capacity,
                            16 * capacity,
                        ),
                    ),
                );
            } else {
                builders.push(None);
            }
            i = i + 1;
        }
        let builder = SourceArrowBatchBuilder {
            definition,
            builders,
            execution_required_columns: required,
            batch_mode,
            row_count: 0,
        };
        assert(builder.state().cells =~= Seq::new(
            definition.columns@.len(),
            |i: int|
                if batch_mode.with_query() || column_required(asked, i) {
                    Some(Seq::<CellView>::empty())
                } else {
                    None
                },
        ));
        builder
    }

    /// Whether no row was appended.
    pub fn is_empty(&self) -> (empty: bool)
        ensures
            empty == (self.state().rows == 0),
    {
        self.row_count == 0
    }
}

/// What filling stands at: the cells of the columns, the time of the event and the error that
/// ended it.
pub struct FillView {
    pub cells: Seq<Option<Seq<CellView>>>,
    pub time: Option<Timestamp>,
    pub error: Option<SourceError>,
}

/// What a cell, or why there is none, does to a column.
pub open spec fn with_cell(
    fill: FillView,
    columns: Seq<SourceColumn>,
    at: int,
    cell: Result<CellView, SourceError>,
) -> FillView {
    match cell {
        Err(error) => FillView { error: Some(error), ..fill },
        Ok(cell) => match arrow_builders::appended(
            source_kind(columns[at].data_type),
            fill.cells[at]->0,
            cell,
        ) {
            Err(error) => FillView { error: Some(SourceError::Full(at as usize)), ..fill },
            Ok(after) => FillView {
                cells: fill.cells.update(at, Some(after)),
                time: time_after(fill.time, cell),
                ..fill
            },
        },
    }
}

/// What a field does to the column at a position. A column that is not filled only tells the
/// time.
pub open spec fn with_field(
    fill: FillView,
    columns: Seq<SourceColumn>,
    at: int,
    value: Option<JsonView>,
    decimal: Option<i128>,
) -> FillView {
    match fill.cells[at] {
        Some(cells) => with_cell(
            fill,
            columns,
            at,
            field_cell(columns[at], at as usize, value, decimal),
        ),
        None => FillView {
            time: time_after_skipped(fill.time, columns[at], value),
            ..fill
        },
    }
}

/// The field of a payload.
pub open spec fn field_in(object: Map<Seq<char>, JsonValue>, name: Seq<char>) -> Option<JsonView> {
    if object.dom().contains(name) {
        Some(object[name]@)
    } else {
        None
    }
}

/// What a payload does to the first `n` columns; a column that cannot be filled ends it.
pub open spec fn with_object(
    fill: FillView,
    columns: Seq<SourceColumn>,
    object: Map<Seq<char>, JsonValue>,
    decimals: Seq<Option<i128>>,
    n: nat,
) -> FillView
    decreases n,
{
    if n == 0 {
        fill
    } else {
        let before = with_object(fill, columns, object, decimals, (n - 1) as nat);
        if before.error is Some {
            before
        } else {
            with_field(
                before,
                columns,
                n - 1,
                field_in(object, columns[n - 1].name@),
                decimal_at(decimals, n - 1),
            )
        }
    }
}

proof fn lemma_object_ended(
    fill: FillView,
    columns: Seq<SourceColumn>,
    object: Map<Seq<char>, JsonValue>,
    decimals: Seq<Option<i128>>,
    n: nat,
    m: nat,
)
    requires
        n <= m,
        with_object(fill, columns, object, decimals, n).error is Some,
    ensures
        with_object(fill, columns, object, decimals, m) == with_object(
            fill,
            columns,
            object,
            decimals,
            n,
        ),
    decreases m,
{
    if n < m {
        lemma_object_ended(fill, columns, object, decimals, n, (m - 1) as nat);
    }
}

/// What filling stands at, with a result.
pub open spec fn fill_view(
    builders: Seq<Option<ColumnBuilder>>,
    time: Option<Timestamp>,
    result: Result<(), SourceError>,
) -> FillView {
    FillView {
        cells: builder_cells(builders),
        time,
        error: match result {
            Ok(_) => None,
            Err(error) => Some(error),
        },
    }
}

/// Appends a cell to the column at a position, which is filled.
fn append_cell(
    builders: &mut Vec<Option<ColumnBuilder>>,
    columns: &Vec<SourceColumn>,
    at: usize,
    cell: Result<Cell, SourceError>,
    time: Option<Timestamp>,
) -> (outcome: (Option<Timestamp>, Result<(), SourceError>))
    requires
        builders_fit(old(builders)@, columns@),
        at < columns@.len(),
        old(builders)@[at as int] is Some,
        cell matches Ok(cell) ==> arrow_builders::takes(
            source_kind(columns@[at as int].data_type),
            cell@,
        ),
    ensures
        builders_fit(final(builders)@, columns@),
        all_filled(builder_cells(old(builders)@)) ==> all_filled(builder_cells(final(builders)@)),
        fill_view(final(builders)@, outcome.0, outcome.1) == with_cell(
            fill_view(old(builders)@, time, Ok(())),
            columns@,
            at as int,
            match cell {
                Ok(cell) => Ok(cell@),
                Err(error) => Err(error),
            },
        ),
{
    let ghost before = builders@;
    let cell = match cell {
        Ok(cell) => cell,
        Err(error) => {
            return (time, Err(error));
        },
    };
    let mut taken: Option<ColumnBuilder> = None;
    builders.set_and_swap(at, &mut taken);
    let mut result: Result<(), SourceError> = Ok(());
    let mut after: Option<Timestamp> = time;
    if let Some(mut builder) = taken {
        match builder.append(&cell) {
            Ok(_) => {
                if time.is_none() {
                    if let Cell::TimestampMillis(v) = &cell {
                        if *v >= 0 {
                            after = Some(*v as u64);
                        }
                    }
                }
            },
            Err(_) => {
                result = Err(SourceError::Full(at));
            },
        }
        taken = Some(builder);
    } else {
        taken = None;
    }
    builders.set_and_swap(at, &mut taken);
    proof {
        let start = fill_view(before, time, Ok(()));
        let end = with_cell(start, columns@, at as int, Ok(cell@));
        assert(builders@ =~= before.update(at as int, builders@[at as int]));
        assert(builder_cells(builders@) =~= end.cells);
    }
    (after, result)
}

/// Takes a field to the column at a position.
fn take_field(
    builders: &mut Vec<Option<ColumnBuilder>>,
    columns: &Vec<SourceColumn>,
    at: usize,
    value: Option<&JsonValue>,
    decimal: Option<i128>,
    time: Option<Timestamp>,
) -> (outcome: (Option<Timestamp>, Result<(), SourceError>))
    requires
        builders_fit(old(builders)@, columns@),
        at < columns@.len(),
    ensures
        builders_fit(final(builders)@, columns@),
        all_filled(builder_cells(old(builders)@)) ==> all_filled(builder_cells(final(builders)@)),
        fill_view(final(builders)@, outcome.0, outcome.1) == with_field(
            fill_view(old(builders)@, time, Ok(())),
            columns@,
            at as int,
            opt_json(value),
            decimal,
        ),
{
    if builders[at].is_some() {
        let cell = cell_of_field(&columns[at], at, value, decimal);
        append_cell(builders, columns, at, cell, time)
    } else {
        let after: Option<Timestamp> = match (time, value) {
            (None, Some(JsonValue::Number(number))) => match number.integer {
                Some(v) => if columns[at].data_type == SourceDataType::TimestampMillis && v >= 0 {
                    Some(v as u64)
                } else {
                    None
                },
                None => None,
            },
            _ => time,
        };
        (after, Ok(()))
    }
}

/// The result of appending an event: the time of the event, or the error.
pub open spec fn event_result(fill: FillView) -> Result<Option<Timestamp>, SourceError> {
    match fill.error {
        Some(error) => Err(error),
        None => Ok(fill.time),
    }
}

/// What an event does: a row more where all columns could be filled; columns that were filled
/// before one that could not stay so.
pub open spec fn after_event(
    state: BatchView,
    source: SourceDefinition,
    event: AppendIngestEvent,
    decimals: Seq<Option<i128>>,
) -> (BatchView, Result<Option<Timestamp>, SourceError>) {
    if event.source@ != source.name@ {
        (state, Err(SourceError::SourceMismatch))
    } else {
        match event.payload {
            None => (state, Err(SourceError::PayloadMissing)),
            Some(Payload::Other) => (state, Err(SourceError::NotObject)),
            Some(Payload::Object(object)) => {
                let fill = with_object(
                    FillView { cells: state.cells, time: None, error: None },
                    source.columns@,
                    object@,
                    decimals,
                    source.columns@.len(),
                );
                (filled_state(state, fill), event_result(fill))
            },
        }
    }
}

/// The state after filling.
pub open spec fn filled_state(state: BatchView, fill: FillView) -> BatchView {
    BatchView {
        cells: fill.cells,
        rows: if fill.error is None {
            state.rows + 1
        } else {
            state.rows
        },
    }
}

impl SourceArrowBatchBuilder {
    /// Appends an event: each column takes the field of its name. `decimals` holds, for each
    /// column, what its field is as a decimal of the scale of the column. The time of the event
    /// is the first timestamp that is not negative.
    pub fn append_event(&mut self, event: &AppendIngestEvent, decimals: &Vec<Option<i128>>)
        -> (result: Result<Option<Timestamp>, SourceError>)
        requires
            old(self).well_formed(),
            old(self).state().rows < usize::MAX,
        ensures
            final(self).well_formed(),
            final(self).source() == old(self).source(),
            final(self).mode() == old(self).mode(),
            final(self).required() == old(self).required(),
            (final(self).state(), result) == after_event(
                old(self).state(),
                old(self).source(),
                *event,
                decimals@,
            ),
    {
        if !same_text(event.source.as_str(), self.definition.name.as_str()) {
            return Err(SourceError::SourceMismatch);
        }
        let object: &NameMap<JsonValue> = match &event.payload {
            None => {
                return Err(SourceError::PayloadMissing);
            },
            Some(Payload::Other) => {
                return Err(SourceError::NotObject);
            },
            Some(Payload::Object(object)) => object,
        };
        let ghost start = FillView { cells: self.state().cells, time: None, error: None };
        let ghost columns = self.definition.columns@;
        let mut time: Option<Timestamp> = None;
        let mut i: usize = 0;
        while i < self.definition.columns.len()
            invariant
                i <= columns.len(),
                columns == self.definition.columns@,
                self.definition == old(self).definition,
                self.batch_mode == old(self).batch_mode,
                self.execution_required_columns == old(self).execution_required_columns,
                self.row_count == old(self).row_count,
                self.row_count < usize::MAX,
                builders_fit(self.builders@, columns),
                self.batch_mode.with_query() ==> all_filled(builder_cells(self.builders@)),
                event.source@ == old(self).source().name@,
                event.payload matches Some(Payload::Object(found)) && found == *object,
                start == (FillView { cells: old(self).state().cells, time: None, error: None }),
                with_object(start, columns, object@, decimals@, i as nat) == fill_view(
                    self.builders@,
                    time,
                    Ok(()),
                ),
            decreases columns.len() - i,
        {
            let decimal: Option<i128> = if i < decimals.len() {
                decimals[i]
            } else {
                None
            };
            let value: Option<&JsonValue> = object.get(self.definition.columns[i].name.as_str());
            let (after, result) = take_field(
                &mut self.builders,
                &self.definition.columns,
                i,
                value,
                decimal,
                time,
            );
            time = after;
            if let Err(error) = result {
                proof {
                    lemma_object_ended(
                        start,
                        columns,
                        object@,
                        decimals@,
                        (i + 1) as nat,
                        columns.len(),
                    );
                }
                return Err(error);
            }
            i = i + 1;
        }
        self.row_count = self.row_count + 1;
        Ok(time)
    }
}

/// The last of the first `n` columns with a name.
pub open spec fn last_named(columns: Seq<SourceColumn>, name: Seq<char>, n: nat) -> Option<nat>
    decreases n,
{
    if n == 0 {
        None
    } else if columns[n - 1].name@ == name {
        Some((n - 1) as nat)
    } else {
        last_named(columns, name, (n - 1) as nat)
    }
}

/// The position of the last column with a name.
fn position_of(columns: &Vec<SourceColumn>, name: &str) -> (found: Option<usize>)
    ensures
        match found {
            Some(at) => last_named(columns@, name@, columns@.len()) == Some(at as nat) && at
                < columns@.len(),
            None => last_named(columns@, name@, columns@.len()) is None,
        },
{
    let mut i: usize = columns.len();
    while i > 0
        invariant
            i <= columns@.len(),
            last_named(columns@, name@, columns@.len()) == last_named(columns@, name@, i as nat),
        decreases i,
    {
        if same_text(columns[i - 1].name.as_str(), name) {
            return Some(i - 1);
        }
        i = i - 1;
    }
    None
}

/// How the text of an object ends.
#[derive(Clone, Copy, Debug, PartialEq, Eq, Structural)]
pub enum JsonEnd {
    /// With the end of the object.
    Complete,
    /// With a fault behind the fields that were read.
    Broken,
    /// With more text behind the object.
    Trailing,
}

/// The fields of an object in the order in which they stand, as far as they can be read.
#[derive(Debug)]
pub struct JsonFields {
    pub fields: Vec<(String, JsonValue)>,
    pub end: JsonEnd,
}

/// What reading the fields of a payload one by one stands at.
pub struct ReadView {
    pub fill: FillView,
    /// The columns whose fields were read.
    pub seen: Seq<bool>,
}

/// What a field that is read does to the column at a position. In a column that is not filled, a
/// timestamp is read only as long as the time is not known; then it has to be an integer or null.
pub open spec fn with_read_field(
    fill: FillView,
    columns: Seq<SourceColumn>,
    at: int,
    value: JsonView,
    decimal: Option<i128>,
) -> FillView {
    if fill.cells[at] is None && fill.time is None && columns[at].data_type
        == SourceDataType::TimestampMillis && !(value is Null) && integer_of(value) is None {
        FillView { error: Some(SourceError::ExpectedTimestamp(at as usize)), ..fill }
    } else {
        with_field(fill, columns, at, Some(value), decimal)
    }
}

/// What the first `n` fields of a payload do, in the order in which they are read. Fields that
/// are no columns are passed over.
pub open spec fn with_fields(
    read: ReadView,
    columns: Seq<SourceColumn>,
    fields: Seq<(String, JsonValue)>,
    decimals: Seq<Option<i128>>,
    n: nat,
) -> ReadView
    decreases n,
{
    if n == 0 {
        read
    } else {
        let before = with_fields(read, columns, fields, decimals, (n - 1) as nat);
        if before.fill.error is Some {
            before
        } else {
            match last_named(columns, fields[n - 1].0@, columns.len()) {
                None => before,
                Some(at) => ReadView {
                    fill: with_read_field(
                        before.fill,
                        columns,
                        at as int,
                        fields[n - 1].1@,
                        decimal_at(decimals, n - 1),
                    ),
                    seen: before.seen.update(at as int, true),
                },
            }
        }
    }
}

/// What the absence of fields does to the first `n` columns.
pub open spec fn with_missing(
    fill: FillView,
    columns: Seq<SourceColumn>,
    seen: Seq<bool>,
    n: nat,
) -> FillView
    decreases n,
{
    if n == 0 {
        fill
    } else {
        let before = with_missing(fill, columns, seen, (n - 1) as nat);
        if before.error is Some || seen[n - 1] || before.cells[n - 1] is None {
            before
        } else {
            with_field(before, columns, n - 1, None, None)
        }
    }
}

proof fn lemma_fields_ended(
    read: ReadView,
    columns: Seq<SourceColumn>,
    fields: Seq<(String, JsonValue)>,
    decimals: Seq<Option<i128>>,
    n: nat,
    m: nat,
)
    requires
        n <= m,
        with_fields(read, columns, fields, decimals, n).fill.error is Some,
    ensures
        with_fields(read, columns, fields, decimals, m) == with_fields(
            read,
            columns,
            fields,
            decimals,
            n,
        ),
    decreases m,
{
    if n < m {
        lemma_fields_ended(read, columns, fields, decimals, n, (m - 1) as nat);
    }
}

proof fn lemma_missing_ended(
    fill: FillView,
    columns: Seq<SourceColumn>,
    seen: Seq<bool>,
    n: nat,
    m: nat,
)
    requires
        n <= m,
        with_missing(fill, columns, seen, n).error is Some,
    ensures
        with_missing(fill, columns, seen, m) == with_missing(fill, columns, seen, n),
    decreases m,
{
    if n < m {
        lemma_missing_ended(fill, columns, seen, n, (m - 1) as nat);
    }
}

/// What a payload does whose fields are read one by one: first the fields, then the columns
/// without one.
pub open spec fn read_payload(
    cells: Seq<Option<Seq<CellView>>>,
    columns: Seq<SourceColumn>,
    fields: Seq<(String, JsonValue)>,
    end: JsonEnd,
    decimals: Seq<Option<i128>>,
) -> FillView {
    let start = ReadView {
        fill: FillView { cells, time: None, error: None },
        seen: Seq::new(columns.len(), |i: int| false),
    };
    let read = with_fields(start, columns, fields, decimals, fields.len());
    if read.fill.error is Some {
        read.fill
    } else if end == JsonEnd::Broken {
        FillView { error: Some(SourceError::Malformed), ..read.fill }
    } else {
        let fill = with_missing(read.fill, columns, read.seen, columns.len());
        if fill.error is None && end == JsonEnd::Trailing {
            FillView { error: Some(SourceError::TrailingData), ..fill }
        } else {
            fill
        }
    }
}

/// What a payload does: the fields of its object, or nothing where it is no object. Columns that
/// were filled before a fault stay so.
pub open spec fn after_payload(
    state: BatchView,
    definition: SourceDefinition,
    source: Seq<char>,
    object: Option<JsonFields>,
    decimals: Seq<Option<i128>>,
) -> (BatchView, Result<Option<Timestamp>, SourceError>) {
    if source != definition.name@ {
        (state, Err(SourceError::SourceMismatch))
    } else {
        match object {
            None => (state, Err(SourceError::NotObject)),
            Some(object) => {
                let fill = read_payload(
                    state.cells,
                    definition.columns@,
                    object.fields@,
                    object.end,
                    decimals,
                );
                (filled_state(state, fill), event_result(fill))
            },
        }
    }
}

impl SourceArrowBatchBuilder {
    /// Takes the fields of a payload to their columns, one by one, and marks these.
    fn read_fields(
        &mut self,
        fields: &Vec<(String, JsonValue)>,
        decimals: &Vec<Option<i128>>,
        seen: &mut Vec<bool>,
    ) -> (outcome: (Option<Timestamp>, Result<(), SourceError>))
        requires
            old(self).well_formed(),
            old(seen)@.len() == old(self).source().columns@.len(),
        ensures
            final(self).well_formed(),
            final(self).source() == old(self).source(),
            final(self).mode() == old(self).mode(),
            final(self).required() == old(self).required(),
            final(self).state().rows == old(self).state().rows,
            final(seen)@.len() == old(seen)@.len(),
            ({
                let start = ReadView {
                    fill: FillView { cells: old(self).state().cells, time: None, error: None },
                    seen: old(seen)@,
                };
                let end = with_fields(
                    start,
                    old(self).source().columns@,
                    fields@,
                    decimals@,
                    fields@.len(),
                );
                &&& end.fill.cells == final(self).state().cells
                &&& end.fill.time == outcome.0
                &&& end.fill.error == (match outcome.1 {
                    Ok(_) => None,
                    Err(error) => Some(error),
                })
                &&& end.seen == final(seen)@
            }),
    {
        let ghost columns = self.definition.columns@;
        let ghost start = ReadView {
            fill: FillView { cells: self.state().cells, time: None, error: None },
            seen: seen@,
        };
        let mut time: Option<Timestamp> = None;
        let mut i: usize = 0;
        while i < fields.len()
            invariant
                i <= fields@.len(),
                columns == self.definition.columns@,
                self.definition == old(self).definition,
                self.batch_mode == old(self).batch_mode,
                self.execution_required_columns == old(self).execution_required_columns,
                self.row_count == old(self).row_count,
                builders_fit(self.builders@, columns),
                self.batch_mode.with_query() ==> all_filled(builder_cells(self.builders@)),
                seen@.len() == columns.len(),
                old(seen)@.len() == columns.len(),
                start == (ReadView {
                    fill: FillView { cells: old(self).state().cells, time: None, error: None },
                    seen: old(seen)@,
                }),
                with_fields(start, columns, fields@, decimals@, i as nat) == (ReadView {
                    fill: fill_view(self.builders@, time, Ok(())),
                    seen: seen@,
                }),
            decreases fields@.len() - i,
        {
            let decimal: Option<i128> = if i < decimals.len() {
                decimals[i]
            } else {
                None
            };
            let (name, value) = &fields[i];
            if let Some(at) = position_of(&self.definition.columns, name.as_str()) {
                seen.set(at, true);
                let unread: bool = self.builders[at].is_none() && time.is_none()
                    && self.definition.columns[at].data_type == SourceDataType::TimestampMillis
                    && match value {
                    JsonValue::Null => false,
                    JsonValue::Number(number) => number.integer.is_none(),
                    _ => true,
                };
                if unread {
                    proof {
                        lemma_fields_ended(
                            start,
                            columns,
                            fields@,
                            decimals@,
                            (i + 1) as nat,
                            fields@.len(),
                        );
                    }
                    return (time, Err(SourceError::ExpectedTimestamp(at)));
                }
                let (after, result) = take_field(
                    &mut self.builders,
                    &self.definition.columns,
                    at,
                    Some(value),
                    decimal,
                    time,
                );
                time = after;
                if let Err(error) = result {
                    proof {
                        lemma_fields_ended(
                            start,
                            columns,
                            fields@,
                            decimals@,
                            (i + 1) as nat,
                            fields@.len(),
                        );
                    }
                    return (time, Err(error));
                }
            }
            i = i + 1;
        }
        (time, Ok(()))
    }

    /// Appends a payload whose fields are read one by one, in the order in which they stand. A
    /// name that several columns have is the one of the last. `decimals` holds, for each field,
    /// what it is as a decimal of the scale of its column.
    pub fn append_json_payload(
        &mut self,
        source: &str,
        object: &Option<JsonFields>,
        decimals: &Vec<Option<i128>>,
    ) -> (result: Result<Option<Timestamp>, SourceError>)
        requires
            old(self).well_formed(),
            old(self).state().rows < usize::MAX,
        ensures
            final(self).well_formed(),
            final(self).source() == old(self).source(),
            final(self).mode() == old(self).mode(),
            final(self).required() == old(self).required(),
            (final(self).state(), result) == after_payload(
                old(self).state(),
                old(self).source(),
                source@,
                *object,
                decimals@,
            ),
    {
        if !same_text(source, self.definition.name.as_str()) {
            return Err(SourceError::SourceMismatch);
        }
        let found: &JsonFields = match object {
            Some(found) => found,
            None => {
                return Err(SourceError::NotObject);
            },
        };
        let mut seen: Vec<bool> = Vec::new();
        let mut k: usize = 0;
        while k < self.definition.columns.len()
            invariant
                k <= self.definition.columns@.len(),
                seen@.len() == k,
                forall|j: int| 0 <= j < k ==> !(#[trigger] seen@[j]),
            decreases self.definition.columns@.len() - k,
        {
            seen.push(false);
            k = k + 1;
        }
        assert(seen@ =~= Seq::new(self.definition.columns@.len(), |i: int| false));
        let (time, result) = self.read_fields(&found.fields, decimals, &mut seen);
        if let Err(error) = result {
            return Err(error);
        }
        if found.end == JsonEnd::Broken {
            return Err(SourceError::Malformed);
        }
        let ghost columns = self.definition.columns@;
        let ghost read = fill_view(self.builders@, time, Ok(()));
        let mut now: Option<Timestamp> = time;
        let mut i: usize = 0;
        while i < self.definition.columns.len()
            invariant
                i <= columns.len(),
                columns == self.definition.columns@,
                self.definition == old(self).definition,
                self.batch_mode == old(self).batch_mode,
                self.required() == old(self).required(),
                *object == Some(*found),
                self.row_count == old(self).row_count,
                self.row_count < usize::MAX,
                builders_fit(self.builders@, columns),
                self.batch_mode.with_query() ==> all_filled(builder_cells(self.builders@)),
                seen@.len() == columns.len(),
                source@ == old(self).source().name@,
                read_payload(
                    old(self).state().cells,
                    columns,
                    found.fields@,
                    found.end,
                    decimals@,
                ) == ({
                    let fill = with_missing(read, columns, seen@, columns.len());
                    if fill.error is None && found.end == JsonEnd::Trailing {
                        FillView { error: Some(SourceError::TrailingData), ..fill }
                    } else {
                        fill
                    }
                }),
                with_missing(read, columns, seen@, i as nat) == fill_view(
                    self.builders@,
                    now,
                    Ok(()),
                ),
            decreases columns.len() - i,
        {
            if !seen[i] && self.builders[i].is_some() {
                let (after, result) = take_field(
                    &mut self.builders,
                    &self.definition.columns,
                    i,
                    None,
                    None,
                    now,
                );
                now = after;
                if let Err(error) = result {
                    proof {
                        lemma_missing_ended(
                            read,
                            columns,
                            seen@,
                            (i + 1) as nat,
                            columns.len(),
                        );
                    }
                    return Err(error);
                }
            }
            i = i + 1;
        }
        if found.end == JsonEnd::Trailing {
            return Err(SourceError::TrailingData);
        }
        self.row_count = self.row_count + 1;
        Ok(now)
    }
}

/// The cells of the columns of a batch; a column that is not filled has the same value in every
/// row.
pub open spec fn batch_cells(state: BatchView, columns: Seq<SourceColumn>) -> Seq<Seq<CellView>> {
    Seq::new(
        columns.len(),
        |i: int|
            match state.cells[i] {
                Some(cells) => cells,
                None => Seq::new(state.rows, |k: int| skipped_cell(columns[i])),
            },
    )
}

/// The first of the first `n` columns that has nulls and takes none.
pub open spec fn null_fault(
    columns: Seq<SourceColumn>,
    cells: Seq<Seq<CellView>>,
    n: nat,
) -> Option<
    nat,
>
    decreases n,
{
    if n == 0 {
        None
    } else {
        match null_fault(columns, cells, (n - 1) as nat) {
            Some(at) => Some(at),
            None => if !columns[n - 1].nullable && cells[n - 1].contains(CellView::Null) {
                Some((n - 1) as nat)
            } else {
                None
            },
        }
    }
}

/// What keeps columns with these cells from making a batch.
pub open spec fn cells_fault(columns: Seq<SourceColumn>, cells: Seq<Seq<CellView>>) -> Option<
    BatchError,
> {
    if columns.len() == 0 {
        Some(BatchError::NoColumns)
    } else if null_fault(columns, cells, columns.len()) is Some {
        Some(BatchError::UnexpectedNull(null_fault(columns, cells, columns.len())->0 as usize))
    } else if exists|i: int|
        0 <= i < cells.len() && (#[trigger] cells[i]).len() != cells[0].len() {
        Some(BatchError::UnequalLengths)
    } else {
        None
    }
}

/// Columns of a batch have these cells.
pub open spec fn columns_hold(
    batch: Seq<Column>,
    columns: Seq<SourceColumn>,
    cells: Seq<Seq<CellView>>,
) -> bool {
    batch.len() == columns.len() && cells.len() == columns.len() && forall|i: int|
        0 <= i < batch.len() ==> values::same_type(
            (#[trigger] batch[i]).data_type,
            column_type(columns[i].data_type),
        ) && columns::cell_views(batch[i].cells@) == cells[i]
}

/// A batch of a source has these cells.
pub open spec fn batch_holds(
    batch: ColumnBatch,
    columns: Seq<SourceColumn>,
    cells: Seq<Seq<CellView>>,
) -> bool {
    is_schema_of(batch.schema@, columns) && columns_hold(batch.columns@, columns, cells)
        && batch.rows == cells[0].len()
}

proof fn lemma_has_null(column: Column)
    ensures
        columns::has_null(column) == columns::cell_views(column.cells@).contains(CellView::Null),
{
    let views = columns::cell_views(column.cells@);
    if columns::has_null(column) {
        let i = choose|i: int| 0 <= i < column.cells@.len() && (#[trigger] column.cells@[i]) is Null;
        assert(views[i] == CellView::Null);
    }
    if views.contains(CellView::Null) {
        let i = choose|i: int| 0 <= i < views.len() && views[i] == CellView::Null;
        assert(column.cells@[i] is Null);
    }
}

proof fn lemma_null_faults(
    schema: Seq<Field>,
    batch: Seq<Column>,
    columns: Seq<SourceColumn>,
    cells: Seq<Seq<CellView>>,
    n: nat,
)
    requires
        n <= columns.len(),
        is_schema_of(schema, columns),
        columns_hold(batch, columns, cells),
    ensures
        columns::first_null_fault(schema, batch, n) == null_fault(columns, cells, n),
    decreases n,
{
    if n > 0 {
        lemma_null_faults(schema, batch, columns, cells, (n - 1) as nat);
        lemma_has_null(batch[n - 1]);
        assert(schema[n - 1].nullable == columns[n - 1].nullable);
    }
}

proof fn lemma_no_type_fault(
    schema: Seq<Field>,
    batch: Seq<Column>,
    columns: Seq<SourceColumn>,
    cells: Seq<Seq<CellView>>,
    n: nat,
)
    requires
        n <= columns.len(),
        is_schema_of(schema, columns),
        columns_hold(batch, columns, cells),
    ensures
        columns::first_type_fault(schema, batch, n) is None,
    decreases n,
{
    if n > 0 {
        lemma_no_type_fault(schema, batch, columns, cells, (n - 1) as nat);
        assert(values::same_type(batch[n - 1].data_type, schema[n - 1].data_type));
    }
}

/// What keeps the columns of a source from making a batch is told by their cells.
proof fn lemma_batch_fault(
    schema: Seq<Field>,
    batch: Seq<Column>,
    columns: Seq<SourceColumn>,
    cells: Seq<Seq<CellView>>,
)
    requires
        is_schema_of(schema, columns),
        columns_hold(batch, columns, cells),
    ensures
        columns::batch_fault(schema, batch) == cells_fault(columns, cells),
{
    lemma_null_faults(schema, batch, columns, cells, columns.len());
    lemma_no_type_fault(schema, batch, columns, cells, columns.len());
    if columns.len() > 0 {
        assert forall|i: int| 0 <= i < batch.len() implies (#[trigger] batch[i]).cells@.len()
            == cells[i].len() by {
            assert(columns::cell_views(batch[i].cells@) == cells[i]);
        }
        if exists|i: int|
            0 <= i < batch.len() && (#[trigger] batch[i]).cells@.len() != batch[0].cells@.len() {
            let i = choose|i: int|
                0 <= i < batch.len() && (#[trigger] batch[i]).cells@.len() != batch[0].cells@.len();
            assert(cells[i].len() != cells[0].len());
        }
        if exists|i: int| 0 <= i < cells.len() && (#[trigger] cells[i]).len() != cells[0].len() {
            let i = choose|i: int|
                0 <= i < cells.len() && (#[trigger] cells[i]).len() != cells[0].len();
            assert(batch[i].cells@.len() != batch[0].cells@.len());
        }
    }
}

/// Columns that are filled, without cells.
pub open spec fn emptied(cells: Seq<Option<Seq<CellView>>>) -> Seq<Option<Seq<CellView>>> {
    Seq::new(
        cells.len(),
        |i: int|
            match cells[i] {
                Some(_) => Some(Seq::<CellView>::empty()),
                None => None,
            },
    )
}

/// The state after a batch was asked for: without rows there is none; otherwise the columns are
/// handed out, and the rows are forgotten only where they made a batch.
pub open spec fn after_finish(state: BatchView, columns: Seq<SourceColumn>) -> BatchView {
    if state.rows == 0 {
        state
    } else {
        BatchView {
            cells: emptied(state.cells),
            rows: if cells_fault(columns, batch_cells(state, columns)) is None {
                0
            } else {
                state.rows
            },
        }
    }
}

/// A batch, or none without rows, or why there is none.
pub open spec fn finish_gives(
    result: Result<Option<ColumnBatch>, SourceError>,
    state: BatchView,
    columns: Seq<SourceColumn>,
) -> bool {
    let cells = batch_cells(state, columns);
    if state.rows == 0 {
        result == Ok::<Option<ColumnBatch>, SourceError>(None)
    } else {
        match cells_fault(columns, cells) {
            Some(error) => result == Err::<Option<ColumnBatch>, SourceError>(
                SourceError::Batch(error),
            ),
            None => result matches Ok(Some(batch)) && batch_holds(batch, columns, cells),
        }
    }
}

impl SourceArrowBatchBuilder {
    /// Hands the columns out.
    fn take_columns(&mut self) -> (taken: Vec<Column>)
        requires
            old(self).well_formed(),
        ensures
            final(self).well_formed(),
            final(self).source() == old(self).source(),
            final(self).mode() == old(self).mode(),
            final(self).required() == old(self).required(),
            final(self).state() == (BatchView {
                cells: emptied(old(self).state().cells),
                rows: old(self).state().rows,
            }),
            columns_hold(
                taken@,
                old(self).source().columns@,
                batch_cells(old(self).state(), old(self).source().columns@),
            ),
    {
        let ghost columns = self.definition.columns@;
        let ghost before = self.builders@;
        let ghost cells = batch_cells(self.state(), columns);
        let mut taken: Vec<Column> = Vec::new();
        let mut i: usize = 0;
        while i < self.definition.columns.len()
            invariant
                i <= columns.len(),
                columns == self.definition.columns@,
                self.definition == old(self).definition,
                self.batch_mode == old(self).batch_mode,
                self.execution_required_columns == old(self).execution_required_columns,
                self.row_count == old(self).row_count,
                before == old(self).builders@,
                builders_fit(before, columns),
                builders_fit(self.builders@, columns),
                cells == batch_cells(old(self).state(), columns),
                taken@.len() == i,
                forall|k: int|
                    0 <= k < i ==> (#[trigger] taken@[k]).data_type == column_type(
                        columns[k].data_type,
                    ) && columns::cell_views(taken@[k].cells@) == cells[k],
                forall|k: int|
                    0 <= k < i ==> match #[trigger] self.builders@[k] {
                        Some(builder) => before[k] is Some && builder.cells() == Seq::<
                            CellView,
                        >::empty(),
                        None => before[k] is None,
                    },
                forall|k: int|
                    i <= k < columns.len() ==> #[trigger] self.builders@[k] == before[k],
            decreases columns.len() - i,
        {
            let mut builder: Option<ColumnBuilder> = None;
            let ghost start = self.builders@;
            assert(start[i as int] == before[i as int]);
            self.builders.set_and_swap(i, &mut builder);
            let column = match builder {
                Some(mut filled) => {
                    let out = filled.finish();
                    builder = Some(filled);
                    Column { data_type: type_of(self.definition.columns[i].data_type), cells: out }
                },
                None => {
                    builder = None;
                    skipped_arrow_column(&self.definition.columns[i], self.row_count)
                },
            };
            self.builders.set_and_swap(i, &mut builder);
            taken.push(column);
            i = i + 1;
        }
        proof {
            assert(builder_cells(self.builders@) =~= emptied(old(self).state().cells));
            if self.batch_mode.with_query() {
                assert forall|k: int| 0 <= k < columns.len() implies (#[trigger] builder_cells(
                    self.builders@,
                )[k]) is Some by {
                    assert(builder_cells(before)[k] is Some);
                    assert(self.builders@[k] is Some);
                }
            }
        }
        taken
    }

    /// The batch of the rows that were appended, if there are any.
    fn finish_batch(&mut self) -> (result: Result<Option<ColumnBatch>, SourceError>)
        requires
            old(self).well_formed(),
        ensures
            final(self).well_formed(),
            final(self).source() == old(self).source(),
            final(self).mode() == old(self).mode(),
            final(self).required() == old(self).required(),
            final(self).state() == after_finish(old(self).state(), old(self).source().columns@),
            finish_gives(result, old(self).state(), old(self).source().columns@),
    {
        if self.row_count == 0 {
            return Ok(None);
        }
        let ghost columns = self.definition.columns@;
        let ghost cells = batch_cells(self.state(), columns);
        let taken = self.take_columns();
        let schema = self.definition.to_arrow_schema();
        proof {
            lemma_batch_fault(schema@, taken@, columns, cells);
            if columns.len() > 0 {
                assert(columns::cell_views(taken@[0].cells@) == cells[0]);
                assert(taken@[0].cells.len() == cells[0].len());
            }
        }
        match ColumnBatch::try_new(schema, taken) {
            Ok(batch) => {
                self.row_count = 0;
                Ok(Some(batch))
            },
            Err(error) => Err(SourceError::Batch(error)),
        }
    }

    /// The batch for queries of the rows that were appended, if there are any.
    pub fn finish_query_batch(&mut self) -> (result: Result<Option<ColumnBatch>, SourceError>)
        requires
            old(self).well_formed(),
        ensures
            final(self).well_formed(),
            final(self).source() == old(self).source(),
            final(self).mode() == old(self).mode(),
            final(self).required() == old(self).required(),
            if old(self).mode().with_query() {
                final(self).state() == after_finish(old(self).state(), old(self).source().columns@)
                    && finish_gives(result, old(self).state(), old(self).source().columns@)
            } else {
                final(self).state() == old(self).state() && result == Err::<
                    Option<ColumnBatch>,
                    SourceError,
                >(SourceError::NoQueryBatches)
            },
    {
        if !self.batch_mode.includes_query_batch() {
            return Err(SourceError::NoQueryBatches);
        }
        self.finish_batch()
    }
}

/// The cells of a batch of which execution asks for some columns; the others have the same value
/// in every row.
pub open spec fn masked_cells(
    columns: Seq<SourceColumn>,
    cells: Seq<Seq<CellView>>,
    required: Option<Seq<bool>>,
    rows: nat,
) -> Seq<Seq<CellView>> {
    Seq::new(
        columns.len(),
        |i: int|
            if column_required(required, i) {
                cells[i]
            } else {
                Seq::new(rows, |k: int| skipped_cell(columns[i]))
            },
    )
}

/// The cells of a batch.
pub open spec fn cells_of(batch: ColumnBatch) -> Seq<Seq<CellView>> {
    Seq::new(batch.columns@.len(), |i: int| columns::cell_views(batch.columns@[i].cells@))
}

/// A copy of a batch.
fn copy_batch(batch: &ColumnBatch) -> (copy: ColumnBatch)
    ensures
        copy.schema@ == batch.schema@,
        copy.rows == batch.rows,
        copy.columns@.len() == batch.columns@.len(),
        forall|i: int|
            0 <= i < copy.columns@.len() ==> (#[trigger] copy.columns@[i]).data_type
                == batch.columns@[i].data_type,
        cells_of(copy) == cells_of(*batch),
{
    let mut columns: Vec<Column> = Vec::new();
    let mut i: usize = 0;
    while i < batch.columns.len()
        invariant
            i <= batch.columns@.len(),
            columns@.len() == i,
            forall|k: int|
                0 <= k < i ==> (#[trigger] columns@[k]).data_type == batch.columns@[k].data_type
                    && columns::cell_views(columns@[k].cells@) == columns::cell_views(
                    batch.columns@[k].cells@,
                ),
        decreases batch.columns@.len() - i,
    {
        columns.push(batch.columns[i].clone());
        i = i + 1;
    }
    let copy = ColumnBatch { schema: clone_schema(&batch.schema), columns, rows: batch.rows };
    assert(cells_of(copy) =~= cells_of(*batch));
    copy
}

/// Each column of a batch has the type of its field.
pub open spec fn typed_batch(batch: ColumnBatch) -> bool {
    batch.columns@.len() == batch.schema@.len() && forall|i: int|
        0 <= i < batch.columns@.len() ==> values::same_type(
            (#[trigger] batch.columns@[i]).data_type,
            batch.schema@[i].data_type,
        )
}

/// A schema has the fields of the batches of a source.
pub open spec fn schema_matches(schema: Seq<Field>, columns: Seq<SourceColumn>) -> bool {
    schema.len() == columns.len() && forall|i: int|
        0 <= i < schema.len() ==> (#[trigger] schema[i]).name@ == columns[i].name@
            && values::same_type(schema[i].data_type, column_type(columns[i].data_type))
            && schema[i].nullable == columns[i].nullable
}

proof fn lemma_schema_matches(found: Seq<Field>, schema: Seq<Field>, columns: Seq<SourceColumn>)
    requires
        is_schema_of(schema, columns),
    ensures
        columns::same_schema(found, schema) == schema_matches(found, columns),
{
    if schema_matches(found, columns) {
        assert forall|i: int| 0 <= i < found.len() implies columns::same_field(
            #[trigger] found[i],
            schema[i],
        ) by {
            assert(schema[i].name == columns[i].name);
        }
    }
    if columns::same_schema(found, schema) {
        assert forall|i: int| 0 <= i < found.len() implies (#[trigger] found[i]).name@
            == columns[i].name@ && values::same_type(
            found[i].data_type,
            column_type(columns[i].data_type),
        ) && found[i].nullable == columns[i].nullable by {
            assert(columns::same_field(found[i], schema[i]));
            assert(schema[i].name == columns[i].name);
        }
    }
}

/// A batch for execution: the columns that are asked for, and for each other column one value in
/// every row. Where all are asked for, it is the batch itself.
pub fn execution_batch_for_required_columns(
    definition: &SourceDefinition,
    batch: &ColumnBatch,
    required_columns: &Option<Vec<bool>>,
) -> (result: Result<ColumnBatch, SourceError>)
    requires
        typed_batch(*batch),
    ensures
        ({
            let required = some_required(opt_flags(*required_columns));
            let columns = definition.columns@;
            if required is None {
                result matches Ok(copy) && copy.schema@ == batch.schema@ && copy.rows == batch.rows
                    && cells_of(copy) == cells_of(*batch) && copy.columns@.len()
                    == batch.columns@.len() && (forall|i: int|
                    0 <= i < copy.columns@.len() ==> (#[trigger] copy.columns@[i]).data_type
                        == batch.columns@[i].data_type)
            } else if !schema_matches(batch.schema@, columns) {
                result == Err::<ColumnBatch, SourceError>(SourceError::SchemaMismatch)
            } else {
                let cells = masked_cells(columns, cells_of(*batch), required, batch.rows as nat);
                match cells_fault(columns, cells) {
                    Some(error) => result == Err::<ColumnBatch, SourceError>(
                        SourceError::Batch(error),
                    ),
                    None => result matches Ok(masked) && batch_holds(masked, columns, cells),
                }
            }
        }),
{
    let required: &Vec<bool> = match required_columns {
        Some(required) => required,
        None => {
            return Ok(copy_batch(batch));
        },
    };
    if requires_all(required) {
        return Ok(copy_batch(batch));
    }
    let schema = definition.to_arrow_schema();
    if !schemas_same(&batch.schema, &schema) {
        proof {
            lemma_schema_matches(batch.schema@, schema@, definition.columns@);
        }
        return Err(SourceError::SchemaMismatch);
    }
    proof {
        lemma_schema_matches(batch.schema@, schema@, definition.columns@);
    }
    let ghost columns = definition.columns@;
    let ghost flags = some_required(opt_flags(*required_columns));
    let ghost cells = masked_cells(columns, cells_of(*batch), flags, batch.rows as nat);
    let mut out: Vec<Column> = Vec::new();
    let mut i: usize = 0;
    while i < definition.columns.len()
        invariant
            i <= columns.len(),
            columns == definition.columns@,
            flags == Some(required@),
            batch.columns@.len() == columns.len(),
            cells == masked_cells(columns, cells_of(*batch), flags, batch.rows as nat),
            schema_matches(batch.schema@, columns),
            typed_batch(*batch),
            out@.len() == i,
            forall|k: int|
                0 <= k < i ==> values::same_type(
                    (#[trigger] out@[k]).data_type,
                    column_type(columns[k].data_type),
                ) && columns::cell_views(out@[k].cells@) == cells[k],
        decreases columns.len() - i,
    {
        let wanted: bool = if i < required.len() {
            required[i]
        } else {
            true
        };
        if wanted {
            assert(values::same_type(
                batch.columns@[i as int].data_type,
                batch.schema@[i as int].data_type,
            ));
            assert(cells_of(*batch)[i as int] == columns::cell_views(batch.columns@[i as int].cells@));
            out.push(batch.columns[i].clone());
        } else {
            out.push(skipped_arrow_column(&definition.columns[i], batch.rows));
        }
        i = i + 1;
    }
    proof {
        lemma_batch_fault(schema@, out@, columns, cells);
        if columns.len() > 0 {
            assert(columns::cell_views(out@[0].cells@) == cells[0]);
            assert(out@[0].cells.len() == cells[0].len());
        }
    }
    match ColumnBatch::try_new(schema, out) {
        Ok(masked) => Ok(masked),
        Err(error) => Err(SourceError::Batch(error)),
    }
}

proof fn lemma_masked_null_fault(
    columns: Seq<SourceColumn>,
    cells: Seq<Seq<CellView>>,
    required: Option<Seq<bool>>,
    rows: nat,
    n: nat,
)
    requires
        n <= columns.len(),
        null_fault(columns, cells, n) is None,
    ensures
        null_fault(columns, masked_cells(columns, cells, required, rows), n) is None,
    decreases n,
{
    if n > 0 {
        lemma_masked_null_fault(columns, cells, required, rows, (n - 1) as nat);
        let masked = masked_cells(columns, cells, required, rows);
        if !column_required(required, n - 1) && !columns[n - 1].nullable {
            assert(!masked[n - 1].contains(CellView::Null));
        }
    }
}

/// Columns that make a batch still do where some of them are replaced by one value in every row.
pub proof fn law_masking_keeps_batches(
    columns: Seq<SourceColumn>,
    cells: Seq<Seq<CellView>>,
    required: Option<Seq<bool>>,
)
    requires
        cells.len() == columns.len(),
        cells_fault(columns, cells) is None,
    ensures
        cells_fault(columns, masked_cells(columns, cells, required, cells[0].len())) is None,
{
    let rows = cells[0].len();
    let masked = masked_cells(columns, cells, required, rows);
    lemma_masked_null_fault(columns, cells, required, rows, columns.len());
    assert forall|i: int| 0 <= i < masked.len() implies (#[trigger] masked[i]).len() == rows by {
        assert(cells[i].len() == cells[0].len());
    }
}

/// The batches that are handed out hold these cells: the batch for queries all of them, and the
/// batch for execution those of the columns that are asked for.
pub open spec fn batches_hold(
    batches: SourceArrowBatches,
    mode: SourceArrowBatchMode,
    columns: Seq<SourceColumn>,
    cells: Seq<Seq<CellView>>,
    required: Option<Seq<bool>>,
) -> bool {
    if mode.with_query() {
        &&& batches.query_batch() matches Some(query) && batch_holds(query, columns, cells)
        &&& batch_holds(
            batches.execution_batch(),
            columns,
            masked_cells(columns, cells, required, cells[0].len()),
        )
    } else {
        &&& batches.query_batch() is None
        &&& batch_holds(batches.execution_batch(), columns, cells)
    }
}

impl SourceArrowBatchBuilder {
    /// The batches of the rows that were appended, if there are any.
    pub fn finish(&mut self) -> (result: Result<Option<SourceArrowBatches>, SourceError>)
        requires
            old(self).well_formed(),
        ensures
            final(self).well_formed(),
            final(self).source() == old(self).source(),
            final(self).mode() == old(self).mode(),
            final(self).required() == old(self).required(),
            final(self).state() == after_finish(old(self).state(), old(self).source().columns@),
            ({
                let columns = old(self).source().columns@;
                let cells = batch_cells(old(self).state(), columns);
                if old(self).state().rows == 0 {
                    result == Ok::<Option<SourceArrowBatches>, SourceError>(None)
                } else {
                    match cells_fault(columns, cells) {
                        Some(error) => result == Err::<Option<SourceArrowBatches>, SourceError>(
                            SourceError::Batch(error),
                        ),
                        None => result matches Ok(Some(batches)) && batches_hold(
                            batches,
                            old(self).mode(),
                            columns,
                            cells,
                            some_required(old(self).required()),
                        ),
                    }
                }
            }),
    {
        let ghost columns = self.definition.columns@;
        let ghost cells = batch_cells(self.state(), columns);
        let ghost required = some_required(self.required());
        if !self.batch_mode.includes_query_batch() {
            return match self.finish_batch() {
                Err(error) => Err(error),
                Ok(None) => Ok(None),
                Ok(Some(execution)) => Ok(Some(SourceArrowBatches::ExecutionOnly { execution })),
            };
        }
        let query = match self.finish_query_batch() {
            Err(error) => {
                return Err(error);
            },
            Ok(None) => {
                return Ok(None);
            },
            Ok(Some(query)) => query,
        };
        proof {
            assert(cells_of(query) =~= cells);
            assert forall|i: int| 0 <= i < query.columns@.len() implies values::same_type(
                (#[trigger] query.columns@[i]).data_type,
                query.schema@[i].data_type,
            ) by {
                assert(query.schema@[i].data_type == column_type(columns[i].data_type));
            }
            law_masking_keeps_batches(columns, cells, required);
            assert(masked_cells(columns, cells, None, cells[0].len()) =~= cells);
        }
        match execution_batch_for_required_columns(
            &self.definition,
            &query,
            &self.execution_required_columns,
        ) {
            Ok(execution) => {
                proof {
                    if required is None {
                        assert forall|i: int| 0 <= i < execution.columns@.len() implies
                            values::same_type(
                            (#[trigger] execution.columns@[i]).data_type,
                            column_type(columns[i].data_type),
                        ) && columns::cell_views(execution.columns@[i].cells@) == cells[i] by {
                            assert(execution.columns@[i].data_type == query.columns@[i].data_type);
                            assert(cells_of(execution)[i] == cells_of(query)[i]);
                        }
                    }
                }
                Ok(Some(SourceArrowBatches::ExecutionAndQuery { execution, query }))
            },
            Err(error) => Err(error),
        }
    }
}

/// Every column that is filled has one cell for each row.
pub open spec fn level(cells: Seq<Option<Seq<CellView>>>, rows: nat) -> bool {
    forall|i: int|
        0 <= i < cells.len() ==> ((#[trigger] cells[i]) matches Some(column) ==> column.len()
            == rows)
}

/// The columns before a position have one cell more than those from it on.
spec fn level_up_to(cells: Seq<Option<Seq<CellView>>>, rows: nat, n: int) -> bool {
    forall|i: int|
        0 <= i < cells.len() ==> ((#[trigger] cells[i]) matches Some(column) ==> column.len()
            == rows + (if i < n {
            1nat
        } else {
            0
        }))
}

proof fn lemma_object_level(
    fill: FillView,
    columns: Seq<SourceColumn>,
    object: Map<Seq<char>, JsonValue>,
    decimals: Seq<Option<i128>>,
    n: nat,
    rows: nat,
)
    requires
        n <= columns.len(),
        fill.cells.len() == columns.len(),
        level(fill.cells, rows),
        with_object(fill, columns, object, decimals, n).error is None,
    ensures
        with_object(fill, columns, object, decimals, n).cells.len() == columns.len(),
        level_up_to(with_object(fill, columns, object, decimals, n).cells, rows, n as int),
    decreases n,
{
    if n > 0 {
        lemma_object_level(fill, columns, object, decimals, (n - 1) as nat, rows);
    }
}

/// An event that is taken keeps the columns level: each that is filled has one cell for each row.
pub proof fn law_event_keeps_columns_level(
    state: BatchView,
    source: SourceDefinition,
    event: AppendIngestEvent,
    decimals: Seq<Option<i128>>,
)
    requires
        state.cells.len() == source.columns@.len(),
        level(state.cells, state.rows),
        after_event(state, source, event, decimals).1 is Ok,
    ensures
        level(
            after_event(state, source, event, decimals).0.cells,
            after_event(state, source, event, decimals).0.rows,
        ),
        after_event(state, source, event, decimals).0.rows == state.rows + 1,
{
    let object = event.payload->0->Object_0;
    lemma_object_level(
        FillView { cells: state.cells, time: None, error: None },
        source.columns@,
        object@,
        decimals,
        source.columns@.len(),
        state.rows,
    );
}

/// No name is given to two fields.
pub open spec fn distinct_fields(fields: Seq<(String, JsonValue)>) -> bool {
    forall|i: int, j: int|
        0 <= i < j < fields.len() ==> (#[trigger] fields[i]).0@ != (#[trigger] fields[j]).0@
}

/// The columns whose fields were read have one cell more than the others.
spec fn level_where_seen(cells: Seq<Option<Seq<CellView>>>, seen: Seq<bool>, rows: nat) -> bool {
    forall|i: int|
        0 <= i < cells.len() ==> ((#[trigger] cells[i]) matches Some(column) ==> column.len()
            == rows + (if seen[i] {
            1nat
        } else {
            0
        }))
}

/// A column was read because of one of the first `n` fields.
spec fn read_by(
    columns: Seq<SourceColumn>,
    fields: Seq<(String, JsonValue)>,
    n: nat,
    at: int,
) -> bool {
    exists|k: int| 0 <= k < n && (#[trigger] fields[k]).0@ == columns[at].name@
}

proof fn lemma_last_named_name(columns: Seq<SourceColumn>, name: Seq<char>, n: nat)
    requires
        n <= columns.len(),
    ensures
        last_named(columns, name, n) matches Some(at) ==> at < n && columns[at as int].name@ == name,
    decreases n,
{
    if n > 0 {
        lemma_last_named_name(columns, name, (n - 1) as nat);
    }
}

proof fn lemma_fields_level(
    read: ReadView,
    columns: Seq<SourceColumn>,
    fields: Seq<(String, JsonValue)>,
    decimals: Seq<Option<i128>>,
    n: nat,
    rows: nat,
)
    requires
        n <= fields.len(),
        distinct_fields(fields),
        read.fill.cells.len() == columns.len(),
        read.seen == Seq::new(columns.len(), |i: int| false),
        level(read.fill.cells, rows),
        with_fields(read, columns, fields, decimals, n).fill.error is None,
    ensures
        ({
            let end = with_fields(read, columns, fields, decimals, n);
            &&& end.fill.cells.len() == columns.len()
            &&& end.seen.len() == columns.len()
            &&& level_where_seen(end.fill.cells, end.seen, rows)
            &&& forall|i: int|
                0 <= i < columns.len() && #[trigger] end.seen[i] ==> read_by(columns, fields, n, i)
        }),
    decreases n,
{
    if n > 0 {
        lemma_fields_level(read, columns, fields, decimals, (n - 1) as nat, rows);
        let before = with_fields(read, columns, fields, decimals, (n - 1) as nat);
        let end = with_fields(read, columns, fields, decimals, n);
        lemma_last_named_name(columns, fields[n - 1].0@, columns.len());
        match last_named(columns, fields[n - 1].0@, columns.len()) {
            Some(at) => {
                if before.seen[at as int] {
                    let k = choose|k: int|
                        0 <= k < n - 1 && (#[trigger] fields[k]).0@ == columns[at as int].name@;
                    assert(fields[k].0@ != fields[n - 1].0@);
                }
                assert forall|i: int| 0 <= i < columns.len() && #[trigger] end.seen[i] implies
                    read_by(columns, fields, n, i) by {
                    if i == at {
                        assert(fields[n - 1].0@ == columns[i].name@);
                    } else {
                        assert(before.seen[i]);
                        let k = choose|k: int|
                            0 <= k < n - 1 && (#[trigger] fields[k]).0@ == columns[i].name@;
                        assert(fields[k].0@ == columns[i].name@);
                    }
                }
            },
            None => {
                assert forall|i: int| 0 <= i < columns.len() && #[trigger] end.seen[i] implies
                    read_by(columns, fields, n, i) by {
                    assert(before.seen[i]);
                    let k = choose|k: int|
                        0 <= k < n - 1 && (#[trigger] fields[k]).0@ == columns[i].name@;
                    assert(fields[k].0@ == columns[i].name@);
                }
            },
        }
    }
}

proof fn lemma_missing_level(
    fill: FillView,
    columns: Seq<SourceColumn>,
    seen: Seq<bool>,
    n: nat,
    rows: nat,
)
    requires
        n <= columns.len(),
        fill.cells.len() == columns.len(),
        seen.len() == columns.len(),
        level_where_seen(fill.cells, seen, rows),
        with_missing(fill, columns, seen, n).error is None,
    ensures
        with_missing(fill, columns, seen, n).cells.len() == columns.len(),
        level_where_seen(
            with_missing(fill, columns, seen, n).cells,
            Seq::new(columns.len(), |i: int| i < n || seen[i]),
            rows,
        ),
    decreases n,
{
    let flags = Seq::new(columns.len(), |i: int| i < n || seen[i]);
    if n > 0 {
        lemma_missing_level(fill, columns, seen, (n - 1) as nat, rows);
        let earlier = Seq::new(columns.len(), |i: int| i < n - 1 || seen[i]);
        let before = with_missing(fill, columns, seen, (n - 1) as nat);
        let end = with_missing(fill, columns, seen, n);
        assert forall|i: int| 0 <= i < end.cells.len() implies ((#[trigger] end.cells[i]) matches Some(
            column,
        ) ==> column.len() == rows + (if flags[i] {
            1nat
        } else {
            0
        })) by {
            if i != n - 1 {
                assert(end.cells[i] == before.cells[i]);
                assert(earlier[i] == flags[i]);
            } else {
                assert(before.cells[i] matches Some(column) ==> column.len() == rows + (
                if earlier[i] {
                    1nat
                } else {
                    0
                }));
            }
        }
    } else {
        assert(flags =~= seen);
    }
}

/// A payload that is taken keeps the columns level, unless it gives one name to two fields.
pub proof fn law_payload_keeps_columns_level(
    state: BatchView,
    definition: SourceDefinition,
    source: Seq<char>,
    object: JsonFields,
    decimals: Seq<Option<i128>>,
)
    requires
        state.cells.len() == definition.columns@.len(),
        level(state.cells, state.rows),
        distinct_fields(object.fields@),
        after_payload(state, definition, source, Some(object), decimals).1 is Ok,
    ensures
        level(
            after_payload(state, definition, source, Some(object), decimals).0.cells,
            after_payload(state, definition, source, Some(object), decimals).0.rows,
        ),
        after_payload(state, definition, source, Some(object), decimals).0.rows == state.rows + 1,
{
    let columns = definition.columns@;
    let start = ReadView {
        fill: FillView { cells: state.cells, time: None, error: None },
        seen: Seq::new(columns.len(), |i: int| false),
    };
    let read = with_fields(start, columns, object.fields@, decimals, object.fields@.len());
    lemma_fields_level(
        start,
        columns,
        object.fields@,
        decimals,
        object.fields@.len(),
        state.rows,
    );
    lemma_missing_level(read.fill, columns, read.seen, columns.len(), state.rows);
}

/// A value is read back from its cell: for every type of a column and every value that the type
/// takes, the cell holds that value and no other. A column for integers, moments or days holds the
/// integer of a number, one for truth values the truth value, and one for texts the text.
pub proof fn law_value_is_read_back_from_its_cell(
    column: SourceColumn,
    at: usize,
    value: JsonView,
    decimal: Option<i128>,
)
    requires
        !(value is Null),
    ensures
        match field_cell(column, at, Some(value), decimal) {
            Ok(cell) => match column.data_type {
                SourceDataType::Int64 => cell matches CellView::Int64(v) && value
                    matches JsonView::Number(found, _) && found == Some(v),
                SourceDataType::Bool => cell matches CellView::Bool(v) && value == JsonView::Bool(
                    v,
                ),
                SourceDataType::Utf8 => cell matches CellView::Utf8(v) && value == JsonView::Text(
                    v,
                ),
                SourceDataType::TimestampMillis => cell matches CellView::TimestampMillis(v)
                    && value matches JsonView::Number(found, _) && found == Some(v),
                SourceDataType::DateDays => cell matches CellView::DateDays(v) && value
                    matches JsonView::Number(found, _) && found is Some && found->0 == v,
                SourceDataType::Decimal128(_, _) => cell matches CellView::Decimal128(v)
                    && decimal == Some(v) && (value is Text || value is Number),
                SourceDataType::Numeric => cell matches CellView::Utf8(v) && match value {
                    JsonView::Text(shown) => shown == v,
                    JsonView::Number(_, shown) => shown == v,
                    _ => false,
                },
            },
            Err(error) => match column.data_type {
                SourceDataType::Int64 => error == SourceError::ExpectedInteger(at) && !(value
                    matches JsonView::Number(Some(_), _)),
                SourceDataType::Bool => error == SourceError::ExpectedBoolean(at) && !(value
                    is Bool),
                SourceDataType::Utf8 => error == SourceError::ExpectedString(at) && !(value
                    is Text),
                SourceDataType::TimestampMillis => error == SourceError::ExpectedTimestamp(at)
                    && !(value matches JsonView::Number(Some(_), _)),
                SourceDataType::DateDays => match value {
                    JsonView::Number(Some(v), _) => error == SourceError::DateOutOfRange(at)
                        && !(-0x8000_0000 <= v < 0x8000_0000),
                    _ => error == SourceError::ExpectedDate(at),
                },
                SourceDataType::Decimal128(_, _) => if value is Text || value is Number {
                    error == SourceError::InvalidDecimal(at) && decimal is None
                } else {
                    error == SourceError::ExpectedDecimal(at)
                },
                SourceDataType::Numeric => error == SourceError::ExpectedNumeric(at) && !(value
                    is Text || value is Number),
            },
        },
{
}

/// Values that differ, of which a column takes both, have different cells. Of a number only what
/// the column holds of it counts, and decimals are told by what they are read as.
pub proof fn law_different_values_have_different_cells(
    column: SourceColumn,
    at: usize,
    a: JsonView,
    b: JsonView,
    decimal: Option<i128>,
)
    requires
        !(a is Null),
        !(b is Null),
        a != b,
        !(column.data_type is Decimal128),
        a is Number && b is Number ==> a->Number_0 != b->Number_0 && a->Number_1 != b->Number_1,
        column.data_type is Numeric ==> (a is Text) == (b is Text),
        field_cell(column, at, Some(a), decimal) is Ok,
        field_cell(column, at, Some(b), decimal) is Ok,
    ensures
        field_cell(column, at, Some(a), decimal) != field_cell(column, at, Some(b), decimal),
{
    law_value_is_read_back_from_its_cell(column, at, a, decimal);
    law_value_is_read_back_from_its_cell(column, at, b, decimal);
}

/// A field that is missing or null makes a null where the column takes nulls, and otherwise there
/// is an error that tells which of the two it was; a value never makes a null.
pub proof fn law_nulls_come_from_missing_values(
    column: SourceColumn,
    at: usize,
    value: Option<JsonView>,
    decimal: Option<i128>,
)
    ensures
        ({
            let cell = field_cell(column, at, value, decimal);
            let absent = value is None || value == Some(JsonView::Null);
            &&& cell == Ok::<CellView, SourceError>(CellView::Null) <==> absent && column.nullable
            &&& !column.nullable && value is None ==> cell == Err::<CellView, SourceError>(
                SourceError::MissingField(at),
            )
            &&& !column.nullable && value == Some(JsonView::Null) ==> cell == Err::<
                CellView,
                SourceError,
            >(SourceError::NullViolation(at))
        }),
{
}

/// A value of a payload stands for itself: truth values, texts and numbers are told apart and kept.
pub proof fn law_payload_values_stand_for_themselves(b: bool, number: JsonNumber, shown: String)
    ensures
        JsonValue::Bool(b)@ == JsonView::Bool(b),
        JsonValue::Number(number)@ == JsonView::Number(number.integer, number.text@),
        JsonValue::Text(shown)@ == JsonView::Text(shown@),
        JsonValue::Null@ == JsonView::Null,
        JsonValue::Other@ == JsonView::Other,
{
}

/// The columns of a batch can hold what the values of a source become, whichever these are, and
/// what stands for a column that is not filled; and that is a null just where the column takes
/// nulls, and otherwise a zero, `false`, or an empty text.
pub proof fn law_cells_are_of_the_kind_of_their_column(
    column: SourceColumn,
    at: usize,
    value: Option<JsonView>,
    decimal: Option<i128>,
)
    ensures
        field_cell(column, at, value, decimal) matches Ok(cell) ==> arrow_builders::takes(
            source_kind(column.data_type),
            cell,
        ),
        arrow_builders::takes(source_kind(column.data_type), skipped_cell(column)),
        (skipped_cell(column) is Null) == column.nullable,
        !column.nullable ==> match skipped_cell(column) {
            CellView::Int64(v) => v == 0,
            CellView::TimestampMillis(v) => v == 0,
            CellView::DateDays(v) => v == 0,
            CellView::Decimal128(v) => v == 0,
            CellView::Bool(v) => !v,
            CellView::Utf8(v) => if column.data_type is Numeric {
                v == "0"@
            } else {
                v == ""@
            },
            _ => false,
        },
{
}

/// The type that the columns of a batch have is that of what they hold.
pub proof fn law_column_types(data_type: SourceDataType)
    ensures
        match (source_kind(data_type), column_type(data_type)) {
            (CellKind::Int64, DataType::Int64) => data_type is Int64,
            (CellKind::Bool, DataType::Boolean) => data_type is Bool,
            (CellKind::Utf8, DataType::Utf8) => data_type is Utf8 || data_type is Numeric,
            (
                CellKind::TimestampMillis,
                DataType::Timestamp(unit, zone),
            ) => data_type is TimestampMillis && unit == TimeUnit::Millisecond && zone is None,
            (CellKind::DateDays, DataType::Date32) => data_type is DateDays,
            (CellKind::Decimal128, DataType::Decimal128(precision, scale)) => data_type
                == SourceDataType::Decimal128(precision, scale),
            _ => false,
        },
{
}

/// An event adds one cell to each column that is filled, the cell that the field of the column's
/// name gives, behind those that it had; columns that are not filled stay so. An event that is not
/// taken adds no row.
pub proof fn law_event_adds_its_values(
    state: BatchView,
    source: SourceDefinition,
    event: AppendIngestEvent,
    decimals: Seq<Option<i128>>,
)
    requires
        state.cells.len() == source.columns@.len(),
    ensures
        ({
            let (after, result) = after_event(state, source, event, decimals);
            let columns = source.columns@;
            &&& result is Err ==> after.rows == state.rows
            &&& event.source@ != source.name@ ==> result == Err::<Option<Timestamp>, SourceError>(
                SourceError::SourceMismatch,
            ) && after == state
            &&& result is Ok ==> {
                &&& event.payload matches Some(Payload::Object(object))
                &&& after.rows == state.rows + 1
                &&& after.cells.len() == columns.len()
                &&& forall|i: int|
                    0 <= i < columns.len() ==> match #[trigger] state.cells[i] {
                        None => after.cells[i] is None,
                        Some(before) => exists|cell: CellView|
                            {
                                &&& after.cells[i] == Some(#[trigger] before.push(cell))
                                &&& Ok::<CellView, SourceError>(cell) == field_cell(
                                    columns[i],
                                    i as usize,
                                    if object@.dom().contains(columns[i].name@) {
                                        Some(object@[columns[i].name@]@)
                                    } else {
                                        None
                                    },
                                    decimal_at(decimals, i),
                                )
                            },
                    }
            }
        }),
{
    if event.source@ == source.name@ {
        if let Some(Payload::Object(object)) = event.payload {
            let start = FillView { cells: state.cells, time: None, error: None };
            lemma_object_adds(
                start,
                source.columns@,
                object@,
                decimals,
                source.columns@.len(),
            );
        }
    }
}

/// The column at a position took the cell of its field.
spec fn took_field(
    before: Option<Seq<CellView>>,
    after: Option<Seq<CellView>>,
    column: SourceColumn,
    at: int,
    object: Map<Seq<char>, JsonValue>,
    decimal: Option<i128>,
) -> bool {
    match before {
        None => after is None,
        Some(cells) => exists|cell: CellView|
            {
                &&& after == Some(#[trigger] cells.push(cell))
                &&& Ok::<CellView, SourceError>(cell) == field_cell(
                    column,
                    at as usize,
                    if object.dom().contains(column.name@) {
                        Some(object[column.name@]@)
                    } else {
                        None
                    },
                    decimal,
                )
            },
    }
}

#[verifier::rlimit(40)]
proof fn lemma_object_adds(
    fill: FillView,
    columns: Seq<SourceColumn>,
    object: Map<Seq<char>, JsonValue>,
    decimals: Seq<Option<i128>>,
    n: nat,
)
    requires
        n <= columns.len(),
        fill.cells.len() == columns.len(),
        fill.error is None,
    ensures
        ({
            let end = with_object(fill, columns, object, decimals, n);
            &&& end.cells.len() == columns.len()
            &&& end.error is None ==> {
                &&& forall|i: int|
                    n <= i < columns.len() ==> #[trigger] end.cells[i] == fill.cells[i]
                &&& forall|i: int|
                    0 <= i < n ==> took_field(
                        fill.cells[i],
                        #[trigger] end.cells[i],
                        columns[i],
                        i,
                        object,
                        decimal_at(decimals, i),
                    )
            }
        }),
    decreases n,
{
    if n > 0 {
        lemma_object_adds(fill, columns, object, decimals, (n - 1) as nat);
        let before = with_object(fill, columns, object, decimals, (n - 1) as nat);
        let end = with_object(fill, columns, object, decimals, n);
        if end.error is None {
            let at = n - 1;
            assert(before.cells[at] == fill.cells[at]);
            assert(took_field(
                fill.cells[at],
                end.cells[at],
                columns[at],
                at,
                object,
                decimal_at(decimals, at),
            )) by {
                if let Some(cells) = fill.cells[at] {
                    let cell = field_cell(
                        columns[at],
                        at as usize,
                        field_in(object, columns[at].name@),
                        decimal_at(decimals, at),
                    )->Ok_0;
                    assert(end.cells[at] == Some(cells.push(cell)));
                }
            }
            assert forall|i: int| 0 <= i < at implies took_field(
                fill.cells[i],
                #[trigger] end.cells[i],
                columns[i],
                i,
                object,
                decimal_at(decimals, i),
            ) by {
                assert(end.cells[i] == before.cells[i]);
            }
        }
    }
}

/// A column of moments whose field in a payload is one that is not before the epoch.
pub open spec fn tells_time(
    column: SourceColumn,
    object: Map<Seq<char>, JsonValue>,
    time: Timestamp,
) -> bool {
    &&& column.data_type is TimestampMillis
    &&& object.dom().contains(column.name@)
    &&& object[column.name@]@ matches JsonView::Number(Some(v), _)
    &&& v >= 0
    &&& v as int == time as int
}

/// The time of an event that is taken is that of the first column of moments, in the order of the
/// columns, whose field is not before the epoch; there is none where there is no such column.
pub proof fn law_event_time_is_the_first_moment(
    state: BatchView,
    source: SourceDefinition,
    event: AppendIngestEvent,
    decimals: Seq<Option<i128>>,
)
    requires
        state.cells.len() == source.columns@.len(),
        after_event(state, source, event, decimals).1 is Ok,
        event.payload matches Some(Payload::Object(_)),
    ensures
        ({
            let columns = source.columns@;
            let object = event.payload->0->Object_0@;
            match after_event(state, source, event, decimals).1->Ok_0 {
                Some(time) => exists|i: int|
                    {
                        &&& 0 <= i < columns.len()
                        &&& tells_time(#[trigger] columns[i], object, time)
                        &&& forall|j: int, other: Timestamp|
                            0 <= j < i ==> !#[trigger] tells_time(columns[j], object, other)
                    },
                None => forall|j: int, other: Timestamp|
                    0 <= j < columns.len() ==> !#[trigger] tells_time(columns[j], object, other),
            }
        }),
{
    let object = event.payload->0->Object_0@;
    lemma_time_of_object(
        FillView { cells: state.cells, time: None, error: None },
        source.columns@,
        object,
        decimals,
        source.columns@.len(),
    );
}

proof fn lemma_time_of_object(
    fill: FillView,
    columns: Seq<SourceColumn>,
    object: Map<Seq<char>, JsonValue>,
    decimals: Seq<Option<i128>>,
    n: nat,
)
    requires
        n <= columns.len(),
        fill.cells.len() == columns.len(),
        fill.error is None,
        fill.time is None,
    ensures
        with_object(fill, columns, object, decimals, n).cells.len() == columns.len(),
        with_object(fill, columns, object, decimals, n).error is None ==> match with_object(
            fill,
            columns,
            object,
            decimals,
            n,
        ).time {
            Some(time) => exists|i: int|
                {
                    &&& 0 <= i < n
                    &&& tells_time(#[trigger] columns[i], object, time)
                    &&& forall|j: int, other: Timestamp|
                        0 <= j < i ==> !#[trigger] tells_time(columns[j], object, other)
                },
            None => forall|j: int, other: Timestamp|
                0 <= j < n ==> !#[trigger] tells_time(columns[j], object, other),
        },
    decreases n,
{
    if n > 0 {
        lemma_time_of_object(fill, columns, object, decimals, (n - 1) as nat);
        let before = with_object(fill, columns, object, decimals, (n - 1) as nat);
        let end = with_object(fill, columns, object, decimals, n);
        if end.error is None && before.time is None {
            let at = n - 1;
            if let Some(time) = end.time {
                assert(tells_time(columns[at], object, time));
                assert(0 <= at < n);
            } else {
                assert forall|other: Timestamp| !#[trigger] tells_time(
                    columns[at],
                    object,
                    other,
                ) by {}
            }
        }
    }
}

/// The batch of rows that were appended has, in each column that was filled, the cells that were
/// appended to it, in their order, and in every other column as many cells that stand for it.
pub proof fn law_batch_has_the_appended_cells(
    result: Result<Option<ColumnBatch>, SourceError>,
    state: BatchView,
    columns: Seq<SourceColumn>,
)
    requires
        finish_gives(result, state, columns),
        state.cells.len() == columns.len(),
        level(state.cells, state.rows),
        state.rows <= usize::MAX,
    ensures
        state.rows == 0 ==> result == Ok::<Option<ColumnBatch>, SourceError>(None),
        result matches Ok(Some(batch)) ==> {
            &&& state.rows > 0
            &&& batch.rows == state.rows
            &&& batch.schema@.len() == columns.len()
            &&& batch.columns@.len() == columns.len()
            &&& forall|i: int|
                0 <= i < columns.len() ==> (#[trigger] batch.schema@[i]).name@ == columns[i].name@
                    && batch.schema@[i].nullable == columns[i].nullable
            &&& forall|i: int, k: int|
                0 <= i < columns.len() && 0 <= k < state.rows ==> (
                #[trigger] batch.columns@[i].cells@[k])@ == match state.cells[i] {
                    Some(cells) => cells[k],
                    None => skipped_cell(columns[i]),
                }
        },
{
    if let Ok(Some(batch)) = result {
        let cells = batch_cells(state, columns);
        assert(batch_holds(batch, columns, cells));
        assert(cells[0].len() == state.rows);
        assert forall|i: int, k: int| 0 <= i < columns.len() && 0 <= k < state.rows implies (
        #[trigger] batch.columns@[i].cells@[k])@ == match state.cells[i] {
            Some(own) => own[k],
            None => skipped_cell(columns[i]),
        } by {
            let views = columns::cell_views(batch.columns@[i].cells@);
            assert(views == cells[i]);
            assert(views[k] == batch.columns@[i].cells@[k]@);
        }
    }
}

/// Execution has the columns that it asks for as they are, and in every other one what stands for a
/// column that is not filled; a column of which nothing is said is asked for.
pub proof fn law_masking_keeps_required_columns(
    columns: Seq<SourceColumn>,
    cells: Seq<Seq<CellView>>,
    required: Option<Seq<bool>>,
    rows: nat,
    i: int,
)
    requires
        0 <= i < columns.len(),
        cells.len() == columns.len(),
    ensures
        ({
            let left_out = required matches Some(flags) && i < flags.len() && !flags[i];
            let masked = masked_cells(columns, cells, required, rows);
            &&& masked.len() == columns.len()
            &&& !left_out ==> masked[i] == cells[i]
            &&& left_out ==> masked[i].len() == rows && forall|k: int|
                0 <= k < rows ==> (#[trigger] masked[i][k]) == skipped_cell(columns[i])
        }),
{
}

/// A column took the cell that one of the first `n` fields, the one with its name, gives.
spec fn took_one_of(
    before: Option<Seq<CellView>>,
    after: Option<Seq<CellView>>,
    column: SourceColumn,
    at: int,
    fields: Seq<(String, JsonValue)>,
    decimals: Seq<Option<i128>>,
    n: nat,
) -> bool {
    match before {
        None => after is None,
        Some(cells) => exists|k: int, cell: CellView|
            {
                &&& 0 <= k < n
                &&& (#[trigger] fields[k]).0@ == column.name@
                &&& after == Some(#[trigger] cells.push(cell))
                &&& Ok::<CellView, SourceError>(cell) == field_cell(
                    column,
                    at as usize,
                    Some(fields[k].1@),
                    decimal_at(decimals, k),
                )
            },
    }
}

/// No two columns have the same name.
pub open spec fn distinct_columns(columns: Seq<SourceColumn>) -> bool {
    forall|i: int, j: int|
        0 <= i < j < columns.len() ==> (#[trigger] columns[i]).name@ != (#[trigger] columns[j]).name@
}

proof fn lemma_named(columns: Seq<SourceColumn>, name: Seq<char>, n: nat, i: int)
    requires
        n <= columns.len(),
        distinct_columns(columns),
        0 <= i < n,
        columns[i].name@ == name,
    ensures
        last_named(columns, name, n) == Some(i as nat),
    decreases n,
{
    if columns[n - 1].name@ == name {
        if i != n - 1 {
            assert(columns[i].name@ != columns[n - 1].name@);
        }
    } else {
        lemma_named(columns, name, (n - 1) as nat, i);
    }
}

#[verifier::rlimit(40)]
proof fn lemma_fields_add(
    read: ReadView,
    columns: Seq<SourceColumn>,
    fields: Seq<(String, JsonValue)>,
    decimals: Seq<Option<i128>>,
    n: nat,
)
    requires
        n <= fields.len(),
        distinct_fields(fields),
        distinct_columns(columns),
        read.fill.cells.len() == columns.len(),
        read.fill.error is None,
        read.seen == Seq::new(columns.len(), |i: int| false),
    ensures
        ({
            let end = with_fields(read, columns, fields, decimals, n);
            &&& end.fill.cells.len() == columns.len()
            &&& end.seen.len() == columns.len()
            &&& end.fill.error is None ==> forall|i: int|
                0 <= i < columns.len() ==> {
                    &&& (#[trigger] end.seen[i]) ==> took_one_of(
                        read.fill.cells[i],
                        end.fill.cells[i],
                        columns[i],
                        i,
                        fields,
                        decimals,
                        n,
                    )
                    &&& !end.seen[i] ==> end.fill.cells[i] == read.fill.cells[i] && forall|k: int|
                        0 <= k < n ==> (#[trigger] fields[k]).0@ != columns[i].name@
                    &&& end.seen[i] ==> read_by(columns, fields, n, i)
                }
        }),
    decreases n,
{
    if n > 0 {
        lemma_fields_add(read, columns, fields, decimals, (n - 1) as nat);
        let before = with_fields(read, columns, fields, decimals, (n - 1) as nat);
        let end = with_fields(read, columns, fields, decimals, n);
        let last = n - 1;
        lemma_last_named_name(columns, fields[last].0@, columns.len());
        if end.fill.error is None {
            assert forall|i: int| 0 <= i < columns.len() implies {
                &&& (#[trigger] end.seen[i]) ==> took_one_of(
                    read.fill.cells[i],
                    end.fill.cells[i],
                    columns[i],
                    i,
                    fields,
                    decimals,
                    n,
                )
                &&& !end.seen[i] ==> end.fill.cells[i] == read.fill.cells[i] && forall|k: int|
                    0 <= k < n ==> (#[trigger] fields[k]).0@ != columns[i].name@
                &&& end.seen[i] ==> read_by(columns, fields, n, i)
            } by {
                if columns[i].name@ == fields[last].0@ {
                    lemma_named(columns, fields[last].0@, columns.len(), i);
                    if before.seen[i] {
                        let k = choose|k: int|
                            0 <= k < n - 1 && (#[trigger] fields[k]).0@ == columns[i].name@;
                        assert(fields[k].0@ != fields[last].0@);
                    }
                    assert(before.fill.cells[i] == read.fill.cells[i]);
                    assert(fields[last].0@ == columns[i].name@);
                    if let Some(cells) = read.fill.cells[i] {
                        let cell = field_cell(
                            columns[i],
                            i as usize,
                            Some(fields[last].1@),
                            decimal_at(decimals, last),
                        )->Ok_0;
                        assert(end.fill.cells[i] == Some(cells.push(cell)));
                    }
                } else {
                    assert(end.seen[i] == before.seen[i]);
                    assert(end.fill.cells[i] == before.fill.cells[i]);
                    if before.seen[i] {
                        let k = choose|k: int|
                            0 <= k < n - 1 && (#[trigger] fields[k]).0@ == columns[i].name@;
                        assert(fields[k].0@ == columns[i].name@);
                        if let Some(cells) = read.fill.cells[i] {
                            let (m, cell) = choose|m: int, cell: CellView|
                                {
                                    &&& 0 <= m < last
                                    &&& (#[trigger] fields[m]).0@ == columns[i].name@
                                    &&& before.fill.cells[i] == Some(#[trigger] cells.push(cell))
                                    &&& Ok::<CellView, SourceError>(cell) == field_cell(
                                        columns[i],
                                        i as usize,
                                        Some(fields[m].1@),
                                        decimal_at(decimals, m),
                                    )
                                };
                            assert(fields[m].0@ == columns[i].name@);
                            assert(end.fill.cells[i] == Some(cells.push(cell)));
                        }
                    }
                }
            }
        }
    }
}

proof fn lemma_missing_add(
    fill: FillView,
    columns: Seq<SourceColumn>,
    seen: Seq<bool>,
    n: nat,
)
    requires
        n <= columns.len(),
        fill.cells.len() == columns.len(),
        seen.len() == columns.len(),
    ensures
        ({
            let end = with_missing(fill, columns, seen, n);
            &&& end.cells.len() == columns.len()
            &&& end.error is None ==> forall|i: int|
                0 <= i < columns.len() ==> (#[trigger] end.cells[i]) == if i < n && !seen[i]
                    && fill.cells[i] is Some {
                    Some(fill.cells[i]->0.push(CellView::Null))
                } else {
                    fill.cells[i]
                }
            &&& end.error is None ==> forall|i: int|
                0 <= i < n && !seen[i] && (#[trigger] fill.cells[i]) is Some ==> columns[i].nullable
        }),
    decreases n,
{
    if n > 0 {
        lemma_missing_add(fill, columns, seen, (n - 1) as nat);
    }
}

/// A payload whose fields are read one by one adds to each column that is filled the cell that the
/// field of its name gives, as an event does, and a null where there is no such field. Payloads
/// that give one name to two fields, and sources that do so to two columns, are left out.
pub proof fn law_payload_adds_its_values(
    state: BatchView,
    definition: SourceDefinition,
    source: Seq<char>,
    object: JsonFields,
    decimals: Seq<Option<i128>>,
    i: int,
)
    requires
        state.cells.len() == definition.columns@.len(),
        distinct_fields(object.fields@),
        distinct_columns(definition.columns@),
        after_payload(state, definition, source, Some(object), decimals).1 is Ok,
        0 <= i < definition.columns@.len(),
        state.cells[i] is Some,
    ensures
        ({
            let column = definition.columns@[i];
            let after = after_payload(state, definition, source, Some(object), decimals).0.cells[i];
            let fields = object.fields@;
            ||| exists|k: int, cell: CellView|
                {
                    &&& 0 <= k < fields.len()
                    &&& (#[trigger] fields[k]).0@ == column.name@
                    &&& after == Some(#[trigger] state.cells[i]->0.push(cell))
                    &&& Ok::<CellView, SourceError>(cell) == field_cell(
                        column,
                        i as usize,
                        Some(fields[k].1@),
                        decimal_at(decimals, k),
                    )
                }
            ||| {
                &&& forall|k: int|
                    0 <= k < fields.len() ==> (#[trigger] fields[k]).0@ != column.name@
                &&& column.nullable
                &&& after == Some(state.cells[i]->0.push(CellView::Null))
            }
        }),
{
    let columns = definition.columns@;
    let fields = object.fields@;
    let start = ReadView {
        fill: FillView { cells: state.cells, time: None, error: None },
        seen: Seq::new(columns.len(), |i: int| false),
    };
    let read = with_fields(start, columns, fields, decimals, fields.len());
    lemma_fields_add(start, columns, fields, decimals, fields.len());
    lemma_missing_add(read.fill, columns, read.seen, columns.len());
    let seen = read.seen[i];
    let end = with_missing(read.fill, columns, read.seen, columns.len());
    assert(end.cells[i] == if !seen {
        Some(read.fill.cells[i]->0.push(CellView::Null))
    } else {
        read.fill.cells[i]
    });
}

/// A batch for queries holds every cell. The batch for execution holds those of the columns that it
/// is asked for, and a filler in the others; without a batch for queries it holds every cell.
pub proof fn law_batches_hold_the_same_cells(
    batches: SourceArrowBatches,
    mode: SourceArrowBatchMode,
    columns: Seq<SourceColumn>,
    cells: Seq<Seq<CellView>>,
    required: Option<Seq<bool>>,
    i: int,
)
    requires
        batches_hold(batches, mode, columns, cells, required),
        0 <= i < columns.len(),
        cells.len() == columns.len(),
    ensures
        ({
            let left_out = required matches Some(flags) && i < flags.len() && !flags[i];
            let execution = columns::cell_views(batches.execution_batch().columns@[i].cells@);
            &&& mode is ExecutionOnly ==> batches.query_batch() is None && execution == cells[i]
            &&& mode is ExecutionAndQuery ==> {
                &&& batches.query_batch() matches Some(query) && columns::cell_views(
                    query.columns@[i].cells@,
                ) == cells[i]
                &&& !left_out ==> execution == cells[i]
                &&& left_out ==> execution.len() == cells[0].len() && forall|k: int|
                    0 <= k < execution.len() ==> #[trigger] execution[k] == skipped_cell(columns[i])
            }
        }),
{
    law_masking_keeps_required_columns(columns, cells, required, cells[0].len(), i);
}

/// Columns that are all asked for are the same as none told: only where one is left out something
/// is masked.
pub proof fn law_columns_asked_for(required: Seq<bool>)
    ensures
        some_required(Some(required)) is None <==> forall|i: int|
            0 <= i < required.len() ==> #[trigger] required[i],
        some_required(Some(required)) matches Some(flags) ==> flags == required,
        some_required(None) is None,
{
}

} // verus!
