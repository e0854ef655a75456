//! Batches of typed columns.

use vstd::prelude::*;

use crate::text::same_text;
use crate::values;
use crate::values::DataType;

verus! {

/// One value of a column.
#[derive(Debug, PartialEq, Eq)]
pub enum Cell {
    Null,
    Bool(bool),
    Int64(i64),
    UInt64(u64),
    Utf8(String),
    TimestampMillis(i64),
    DateDays(i32),
    Decimal128(i128),
    Binary(Vec<u8>),
    /// A value of a type that is only carried along, by its text.
    Other(String),
}

/// What a cell stands for.
pub enum CellView {
    Null,
    Bool(bool),
    Int64(i64),
    UInt64(u64),
    Utf8(Seq<char>),
    TimestampMillis(i64),
    DateDays(i32),
    Decimal128(i128),
    Binary(Seq<u8>),
    Other(Seq<char>),
}

impl View for Cell {
    type V = CellView;

    open spec fn view(&self) -> CellView {
        match *self {
            Cell::Null => CellView::Null,
            Cell::Bool(v) => CellView::Bool(v),
            Cell::Int64(v) => CellView::Int64(v),
            Cell::UInt64(v) => CellView::UInt64(v),
            Cell::Utf8(v) => CellView::Utf8(v@),
            Cell::TimestampMillis(v) => CellView::TimestampMillis(v),
            Cell::DateDays(v) => CellView::DateDays(v),
            Cell::Decimal128(v) => CellView::Decimal128(v),
            Cell::Binary(v) => CellView::Binary(v@),
            Cell::Other(v) => CellView::Other(v@),
        }
    }
}

impl Clone for Cell {
    fn clone(&self) -> (copy: Self)
        ensures
            copy@ == self@,
    {
        match self {
            Cell::Null => Cell::Null,
            Cell::Bool(v) => Cell::Bool(*v),
            Cell::Int64(v) => Cell::Int64(*v),
            Cell::UInt64(v) => Cell::UInt64(*v),
            Cell::Utf8(v) => Cell::Utf8(v.clone()),
            Cell::TimestampMillis(v) => Cell::TimestampMillis(*v),
            Cell::DateDays(v) => Cell::DateDays(*v),
            Cell::Decimal128(v) => Cell::Decimal128(*v),
            Cell::Binary(v) => {
                let copy = v.clone();
                assert(copy@ =~= v@);
                Cell::Binary(copy)
            },
            Cell::Other(v) => Cell::Other(v.clone()),
        }
    }
}

/// Cells as what they stand for.
pub open spec fn cell_views(cells: Seq<Cell>) -> Seq<CellView> {
    Seq::new(cells.len(), |i: int| cells[i]@)
}

/// A field of a schema.
#[derive(Debug, PartialEq, Eq)]
pub struct Field {
    pub name: String,
    pub data_type: DataType,
    pub nullable: bool,
}

impl Clone for Field {
    fn clone(&self) -> (copy: Self)
        ensures
            copy == *self,
    {
        Field {
            name: self.name.clone(),
            data_type: self.data_type.clone(),
            nullable: self.nullable,
        }
    }
}

/// A column: the type of its values and the values.
#[derive(Debug, PartialEq, Eq)]
pub struct Column {
    pub data_type: DataType,
    pub cells: Vec<Cell>,
}

impl Clone for Column {
    fn clone(&self) -> (copy: Self)
        ensures
            copy.data_type == self.data_type,
            cell_views(copy.cells@) == cell_views(self.cells@),
    {
        let cells = self.cells.clone();
        assert(cell_views(cells@) =~= cell_views(self.cells@));
        Column { data_type: self.data_type.clone(), cells }
    }
}

/// Columns of one length, one for each field of a schema.
#[derive(Debug, PartialEq, Eq)]
pub struct ColumnBatch {
    pub schema: Vec<Field>,
    pub columns: Vec<Column>,
    pub rows: usize,
}

/// Why columns do not make a batch.
#[derive(Clone, Copy, Debug, PartialEq, Eq, Structural)]
pub enum BatchError {
    /// The number of columns is not the number of fields.
    ColumnCount(usize, usize),
    /// Without columns the number of rows is not known.
    NoColumns,
    /// This column has nulls and its field allows none.
    UnexpectedNull(usize),
    /// The columns have different lengths.
    UnequalLengths,
    /// This column has another type than its field.
    TypeMismatch(usize),
    /// No field has this name.
    MissingField,
}

/// Whether two fields have the same name, type and nullability.
pub open spec fn same_field(a: Field, b: Field) -> bool {
    a.name@ == b.name@ && values::same_type(a.data_type, b.data_type) && a.nullable == b.nullable
}

/// Whether two schemas have the same fields.
pub open spec fn same_schema(a: Seq<Field>, b: Seq<Field>) -> bool {
    a.len() == b.len() && forall|i: int| 0 <= i < a.len() ==> same_field(#[trigger] a[i], b[i])
}

/// Whether two schemas have the same fields.
pub fn schemas_same(a: &Vec<Field>, b: &Vec<Field>) -> (same: bool)
    ensures
        same == same_schema(a@, b@),
{
    if a.len() != b.len() {
        return false;
    }
    let mut i: usize = 0;
    while i < a.len()
        invariant
            i <= a@.len(),
            a@.len() == b@.len(),
            forall|j: int| 0 <= j < i ==> same_field(#[trigger] a@[j], b@[j]),
        decreases a@.len() - i,
    {
        let x = &a[i];
        let y = &b[i];
        let same = same_text(x.name.as_str(), y.name.as_str()) && x.data_type.same(&y.data_type)
            && x.nullable == y.nullable;
        if !same {
            assert(!same_field(a@[i as int], b@[i as int]));
            return false;
        }
        i = i + 1;
    }
    true
}

/// The first field of a name.
pub open spec fn field_index(schema: Seq<Field>, name: Seq<char>) -> Option<nat> {
    first_field(schema, name, schema.len())
}

/// The first field of a name among the first `n`.
pub open spec fn first_field(schema: Seq<Field>, name: Seq<char>, n: nat) -> Option<nat>
    decreases n,
{
    if n == 0 {
        None
    } else {
        match first_field(schema, name, (n - 1) as nat) {
            Some(i) => Some(i),
            None => if schema[n - 1].name@ == name {
                Some((n - 1) as nat)
            } else {
                None
            },
        }
    }
}

/// What is found among fewer fields is found among more.
proof fn lemma_first_field_stays(schema: Seq<Field>, name: Seq<char>, n: nat, m: nat)
    requires
        n <= m,
        first_field(schema, name, n) is Some,
    ensures
        first_field(schema, name, m) == first_field(schema, name, n),
    decreases m,
{
    if n < m {
        lemma_first_field_stays(schema, name, n, (m - 1) as nat);
    }
}

/// The first field of a name.
pub fn index_of(schema: &Vec<Field>, name: &str) -> (found: Option<usize>)
    ensures
        match found {
            Some(i) => i < schema@.len() && field_index(schema@, name@) == Some(i as nat),
            None => field_index(schema@, name@) is None,
        },
{
    let mut i: usize = 0;
    while i < schema.len()
        invariant
            i <= schema@.len(),
            first_field(schema@, name@, i as nat) is None,
        decreases schema@.len() - i,
    {
        if same_text(schema[i].name.as_str(), name) {
            proof {
                lemma_first_field_stays(schema@, name@, (i + 1) as nat, schema@.len());
            }
            return Some(i);
        }
        i = i + 1;
    }
    None
}

/// Whether a column has nulls.
pub open spec fn has_null(column: Column) -> bool {
    exists|i: int| 0 <= i < column.cells@.len() && (#[trigger] column.cells@[i]) is Null
}

/// The first of the first `n` columns whose nulls its field does not allow.
pub open spec fn first_null_fault(schema: Seq<Field>, columns: Seq<Column>, n: nat) -> Option<
    nat,
>
    decreases n,
{
    if n == 0 {
        None
    } else {
        match first_null_fault(schema, columns, (n - 1) as nat) {
            Some(i) => Some(i),
            None => if !schema[n - 1].nullable && has_null(columns[n - 1]) {
                Some((n - 1) as nat)
            } else {
                None
            },
        }
    }
}

/// The first of the first `n` columns whose type its field does not have.
pub open spec fn first_type_fault(schema: Seq<Field>, columns: Seq<Column>, n: nat) -> Option<
    nat,
>
    decreases n,
{
    if n == 0 {
        None
    } else {
        match first_type_fault(schema, columns, (n - 1) as nat) {
            Some(i) => Some(i),
            None => if !values::same_type(columns[n - 1].data_type, schema[n - 1].data_type) {
                Some((n - 1) as nat)
            } else {
                None
            },
        }
    }
}

/// What keeps columns from making a batch: the first fault in the order of the checks.
pub open spec fn batch_fault(schema: Seq<Field>, columns: Seq<Column>) -> Option<BatchError> {
    if schema.len() != columns.len() {
        Some(BatchError::ColumnCount(columns.len() as usize, schema.len() as usize))
    } else if columns.len() == 0 {
        Some(BatchError::NoColumns)
    } else if first_null_fault(schema, columns, columns.len()) is Some {
        Some(BatchError::UnexpectedNull(
            first_null_fault(schema, columns, columns.len())->0 as usize,
        ))
    } else if exists|i: int|
        0 <= i < columns.len() && (#[trigger] columns[i]).cells@.len() != columns[0].cells@.len() {
        Some(BatchError::UnequalLengths)
    } else if first_type_fault(schema, columns, columns.len()) is Some {
        Some(BatchError::TypeMismatch(
            first_type_fault(schema, columns, columns.len())->0 as usize,
        ))
    } else {
        None
    }
}

/// Whether a column has nulls.
fn contains_null(column: &Column) -> (found: bool)
    ensures
        found == has_null(*column),
{
    let mut i: usize = 0;
    while i < column.cells.len()
        invariant
            i <= column.cells@.len(),
            forall|j: int| 0 <= j < i ==> !((#[trigger] column.cells@[j]) is Null),
        decreases column.cells@.len() - i,
    {
        match &column.cells[i] {
            Cell::Null => {
                assert(column.cells@[i as int] is Null);
                return true;
            },
            _ => {},
        }
        i = i + 1;
    }
    false
}

/// A fault found among fewer columns is the first among more.
proof fn lemma_null_fault_stays(schema: Seq<Field>, columns: Seq<Column>, n: nat, m: nat)
    requires
        n <= m,
        first_null_fault(schema, columns, n) is Some,
    ensures
        first_null_fault(schema, columns, m) == first_null_fault(schema, columns, n),
    decreases m,
{
    if n < m {
        lemma_null_fault_stays(schema, columns, n, (m - 1) as nat);
    }
}

/// A fault found among fewer columns is the first among more.
proof fn lemma_type_fault_stays(schema: Seq<Field>, columns: Seq<Column>, n: nat, m: nat)
    requires
        n <= m,
        first_type_fault(schema, columns, n) is Some,
    ensures
        first_type_fault(schema, columns, m) == first_type_fault(schema, columns, n),
    decreases m,
{
    if n < m {
        lemma_type_fault_stays(schema, columns, n, (m - 1) as nat);
    }
}

impl ColumnBatch {
    /// A batch of columns, where they fit the schema.
    pub fn try_new(schema: Vec<Field>, columns: Vec<Column>) -> (batch: Result<Self, BatchError>)
        ensures
            match batch_fault(schema@, columns@) {
                Some(fault) => batch == Err::<ColumnBatch, BatchError>(fault),
                None => batch == Ok::<ColumnBatch, BatchError>(
                    ColumnBatch { schema, columns, rows: columns@[0].cells@.len() as usize },
                ),
            },
    {
        let count: usize = columns.len();
        if schema.len() != count {
            return Err(BatchError::ColumnCount(count, schema.len()));
        }
        if count == 0 {
            return Err(BatchError::NoColumns);
        }
        let mut i: usize = 0;
        while i < count
            invariant
                i <= count,
                count == schema@.len(),
                count == columns@.len(),
                count > 0,
                first_null_fault(schema@, columns@, i as nat) is None,
            decreases count - i,
        {
            if !schema[i].nullable && contains_null(&columns[i]) {
                proof {
                    lemma_null_fault_stays(schema@, columns@, (i + 1) as nat, count as nat);
                }
                return Err(BatchError::UnexpectedNull(i));
            }
            i = i + 1;
        }
        let rows: usize = columns[0].cells.len();
        let mut k: usize = 0;
        while k < count
            invariant
                k <= count,
                count == schema@.len(),
                count == columns@.len(),
                count > 0,
                rows == columns@[0].cells@.len(),
                first_null_fault(schema@, columns@, count as nat) is None,
                forall|j: int| 0 <= j < k ==> (#[trigger] columns@[j]).cells@.len() == rows,
            decreases count - k,
        {
            if columns[k].cells.len() != rows {
                assert(columns@[k as int].cells@.len() != rows);
                return Err(BatchError::UnequalLengths);
            }
            k = k + 1;
        }
        let mut m: usize = 0;
        while m < count
            invariant
                m <= count,
                count == schema@.len(),
                count == columns@.len(),
                count > 0,
                rows == columns@[0].cells@.len(),
                first_null_fault(schema@, columns@, count as nat) is None,
                forall|j: int| 0 <= j < count ==> (#[trigger] columns@[j]).cells@.len() == rows,
                first_type_fault(schema@, columns@, m as nat) is None,
            decreases count - m,
        {
            if !columns[m].data_type.same(&schema[m].data_type) {
                proof {
                    lemma_type_fault_stays(schema@, columns@, (m + 1) as nat, count as nat);
                }
                return Err(BatchError::TypeMismatch(m));
            }
            m = m + 1;
        }
        Ok(ColumnBatch { schema, columns, rows })
    }

    /// A batch without rows.
    pub fn new_empty(schema: Vec<Field>) -> (batch: Self)
        ensures
            batch.schema == schema,
            batch.rows == 0,
            batch.columns@.len() == schema@.len(),
            forall|i: int|
                0 <= i < schema@.len() ==> (#[trigger] batch.columns@[i]).data_type
                    == schema@[i].data_type && batch.columns@[i].cells@.len() == 0,
    {
        let mut columns: Vec<Column> = Vec::new();
        let mut i: usize = 0;
        while i < schema.len()
            invariant
                i <= schema@.len(),
                columns@.len() == i,
                forall|j: int|
                    0 <= j < i ==> (#[trigger] columns@[j]).data_type == schema@[j].data_type
                        && columns@[j].cells@.len() == 0,
            decreases schema@.len() - i,
        {
            columns.push(Column { data_type: schema[i].data_type.clone(), cells: Vec::new() });
            i = i + 1;
        }
        ColumnBatch { schema, columns, rows: 0 }
    }
}

/// A copy of a schema.
pub fn clone_schema(schema: &Vec<Field>) -> (copy: Vec<Field>)
    ensures
        copy@ == schema@,
{
    let copy = schema.clone();
    assert(copy@ =~= schema@);
    copy
}

/// A cell stands for its content, of its type.
pub proof fn law_cells_stand_for_themselves(
    b: bool,
    v: i64,
    u: u64,
    d: i32,
    decimal: i128,
    shown: String,
    bytes: Vec<u8>,
)
    ensures
        Cell::Null@ == CellView::Null,
        Cell::Bool(b)@ == CellView::Bool(b),
        Cell::Int64(v)@ == CellView::Int64(v),
        Cell::UInt64(u)@ == CellView::UInt64(u),
        Cell::TimestampMillis(v)@ == CellView::TimestampMillis(v),
        Cell::DateDays(d)@ == CellView::DateDays(d),
        Cell::Decimal128(decimal)@ == CellView::Decimal128(decimal),
        Cell::Utf8(shown)@ == CellView::Utf8(shown@),
        Cell::Binary(bytes)@ == CellView::Binary(bytes@),
        Cell::Other(shown)@ == CellView::Other(shown@),
{
}

/// A field is found by its name, and the first of several; nothing is found just where no field has
/// the name.
pub proof fn law_first_field_of_a_name(schema: Seq<Field>, name: Seq<char>)
    ensures
        match field_index(schema, name) {
            Some(at) => {
                &&& at < schema.len()
                &&& schema[at as int].name@ == name
                &&& forall|i: int| 0 <= i < at ==> (#[trigger] schema[i]).name@ != name
            },
            None => forall|i: int| 0 <= i < schema.len() ==> (#[trigger] schema[i]).name@ != name,
        },
{
    lemma_first_of_name(schema, name, schema.len());
}

proof fn lemma_first_of_name(schema: Seq<Field>, name: Seq<char>, n: nat)
    requires
        n <= schema.len(),
    ensures
        match first_field(schema, name, n) {
            Some(at) => {
                &&& at < n
                &&& schema[at as int].name@ == name
                &&& forall|i: int| 0 <= i < at ==> (#[trigger] schema[i]).name@ != name
            },
            None => forall|i: int| 0 <= i < n ==> (#[trigger] schema[i]).name@ != name,
        },
    decreases n,
{
    if n > 0 {
        lemma_first_of_name(schema, name, (n - 1) as nat);
    }
}

/// Columns make a batch just where there is one for each field, at least one, all of the same
/// length and of the type of their field, and where no column has a null that its field does not
/// allow.
pub proof fn law_columns_that_make_a_batch(schema: Seq<Field>, columns: Seq<Column>)
    ensures
        batch_fault(schema, columns) is None <==> {
            &&& schema.len() == columns.len()
            &&& columns.len() > 0
            &&& forall|i: int|
                0 <= i < columns.len() ==> {
                    &&& (#[trigger] columns[i]).cells@.len() == columns[0].cells@.len()
                    &&& values::same_type(columns[i].data_type, schema[i].data_type)
                    &&& schema[i].nullable || forall|k: int|
                        0 <= k < columns[i].cells@.len() ==> !((#[trigger] columns[i].cells@[k])
                            is Null)
                }
        },
{
    if schema.len() == columns.len() {
        lemma_null_fault(schema, columns, columns.len());
        lemma_type_fault(schema, columns, columns.len());
        if batch_fault(schema, columns) is None {
            assert forall|i: int| 0 <= i < columns.len() implies {
                &&& (#[trigger] columns[i]).cells@.len() == columns[0].cells@.len()
                &&& values::same_type(columns[i].data_type, schema[i].data_type)
                &&& schema[i].nullable || forall|k: int|
                    0 <= k < columns[i].cells@.len() ==> !((#[trigger] columns[i].cells@[k])
                        is Null)
            } by {
                assert(schema[i].nullable || !has_null(columns[i]));
            }
        }
    }
}

proof fn lemma_null_fault(schema: Seq<Field>, columns: Seq<Column>, n: nat)
    requires
        n <= columns.len(),
        schema.len() == columns.len(),
    ensures
        first_null_fault(schema, columns, n) is None <==> forall|i: int|
            0 <= i < n ==> schema[i].nullable || !has_null(#[trigger] columns[i]),
    decreases n,
{
    if n > 0 {
        lemma_null_fault(schema, columns, (n - 1) as nat);
    }
}

proof fn lemma_type_fault(schema: Seq<Field>, columns: Seq<Column>, n: nat)
    requires
        n <= columns.len(),
        schema.len() == columns.len(),
    ensures
        first_type_fault(schema, columns, n) is None <==> forall|i: int|
            0 <= i < n ==> values::same_type(
                (#[trigger] columns[i]).data_type,
                schema[i].data_type,
            ),
    decreases n,
{
    if n > 0 {
        lemma_type_fault(schema, columns, (n - 1) as nat);
    }
}

} // verus!
