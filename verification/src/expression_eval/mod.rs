//! Evaluation of SQL expressions over rows, with SQL's three-valued logic.

use vstd::prelude::*;

use crate::text::same_text;
use crate::values;
use crate::values::{DataType, Row, ScalarValue, ScalarView};

pub mod casts;
pub mod laws;
pub mod predicates;
pub mod scalar_functions;

verus! {

/// Operators between two expressions.
#[derive(Clone, Copy, Debug, PartialEq, Eq, Structural)]
pub enum Operator {
    Eq,
    NotEq,
    Lt,
    LtEq,
    Gt,
    GtEq,
    And,
    Or,
    Plus,
    Minus,
    Multiply,
    Divide,
    Modulo,
    StringConcat,
    /// An operator that the evaluator does not know.
    Unsupported,
}

/// A column by name, with the relation it is qualified by.
#[derive(Debug, PartialEq, Eq)]
pub struct Column {
    pub relation: Option<String>,
    pub name: String,
}

/// A SQL expression.
#[derive(Debug, PartialEq, Eq)]
pub enum DfExpr {
    Alias(Box<DfExpr>),
    Column(Column),
    Literal(ScalarValue),
    BinaryExpr { left: Box<DfExpr>, op: Operator, right: Box<DfExpr> },
    Not(Box<DfExpr>),
    Negative(Box<DfExpr>),
    IsNull(Box<DfExpr>),
    IsNotNull(Box<DfExpr>),
    IsTrue(Box<DfExpr>),
    IsNotTrue(Box<DfExpr>),
    IsFalse(Box<DfExpr>),
    IsNotFalse(Box<DfExpr>),
    IsUnknown(Box<DfExpr>),
    IsNotUnknown(Box<DfExpr>),
    Like { expr: Box<DfExpr>, pattern: Box<DfExpr> },
    Cast { expr: Box<DfExpr>, data_type: DataType },
    TryCast { expr: Box<DfExpr>, data_type: DataType },
    Case {
        base: Option<Box<DfExpr>>,
        when_then: Vec<(DfExpr, DfExpr)>,
        otherwise: Option<Box<DfExpr>>,
    },
    Between { expr: Box<DfExpr>, negated: bool, low: Box<DfExpr>, high: Box<DfExpr> },
    InList { expr: Box<DfExpr>, list: Vec<DfExpr>, negated: bool },
    ScalarFunction { name: String, args: Vec<DfExpr> },
    /// An expression that the evaluator does not know.
    Unsupported,
}

/// The names of the columns of a row.
#[derive(Debug, PartialEq, Eq)]
pub struct RowSchema {
    pub fields: Vec<String>,
}

impl RowSchema {
    /// A schema with the given column names.
    pub fn new(fields: Vec<String>) -> (schema: Self)
        ensures
            schema.fields == fields,
    {
        RowSchema { fields }
    }

    /// A schema with the same column names.
    pub fn copy(&self) -> (schema: Self)
        ensures
            schema.fields@ == self.fields@,
    {
        let fields = self.fields.clone();
        assert(fields@ =~= self.fields@);
        RowSchema { fields }
    }
}

/// The scalar functions that the evaluator knows.
#[derive(Clone, Copy, Debug, PartialEq, Eq, Structural)]
pub enum FunctionKind {
    Lower,
    Upper,
    Length,
    Abs,
    Coalesce,
    NullIf,
    Concat,
    Hour,
    DateFormat,
    RegexpExtract,
    SplitIndex,
    CountChar,
    ProcTime,
}

/// Why an expression has no value.
#[derive(Clone, Copy, Debug, PartialEq, Eq, Structural)]
pub enum EvalError {
    /// The row is too short for this column.
    ColumnOutOfBounds(usize),
    /// The schema has no such column.
    ColumnNotFound,
    /// A boolean was expected.
    NotBoolean,
    /// Only integers and timestamps can be negated.
    UnsupportedNegation,
    /// LIKE works on text.
    LikeInput,
    /// A LIKE pattern must be text.
    LikePattern,
    /// The text does not hold an integer.
    CastText,
    /// A value of this type cannot be cast to the target.
    UnsupportedCast,
    /// Values cannot be cast to this type.
    UnsupportedCastTarget,
    /// Values of these types cannot be ordered.
    ComparisonOperands,
    /// The operator does not order values.
    ComparisonOperator,
    /// Arithmetic works on integers and timestamps.
    ArithmeticOperand,
    /// Only text can be concatenated.
    ConcatOperand,
    /// The operator is not supported.
    UnsupportedOperator,
    /// The function takes another number of arguments than this.
    ArgumentCount(FunctionKind, usize),
    /// The function does not take an argument of this type.
    ArgumentType(FunctionKind),
    /// The absolute value does not fit.
    AbsOverflow,
    /// There is no such function.
    UnsupportedFunction,
    /// The expression is not supported.
    UnsupportedExpression,
}

/// What evaluating an expression comes to.
pub enum Outcome {
    Value(ScalarView),
    Error(EvalError),
    /// Integer arithmetic leaves its range, a divisor is zero, or a date pattern is malformed.
    Panics,
}

/// What evaluating an expression came to.
#[derive(Debug, PartialEq, Eq)]
pub enum Evaluated {
    Value(ScalarValue),
    Error(EvalError),
    /// Integer arithmetic left its range, a divisor was zero, or a date pattern was malformed.
    Panics,
}

impl View for Evaluated {
    type V = Outcome;

    open spec fn view(&self) -> Outcome {
        match *self {
            Evaluated::Value(v) => Outcome::Value(v@),
            Evaluated::Error(e) => Outcome::Error(e),
            Evaluated::Panics => Outcome::Panics,
        }
    }
}

/// The outcome that a result stands for.
pub open spec fn result_outcome(result: Result<ScalarValue, EvalError>) -> Outcome {
    match result {
        Ok(value) => Outcome::Value(value@),
        Err(error) => Outcome::Error(error),
    }
}

/// The names of a schema as their characters.
pub open spec fn field_names(schema: RowSchema) -> Seq<Seq<char>> {
    Seq::new(schema.fields@.len(), |i: int| schema.fields@[i]@)
}

/// The name of a column with the relation in front, where there is one.
pub open spec fn flat_name(column: Column) -> Seq<char> {
    match column.relation {
        Some(relation) => relation@ + seq!['.'] + column.name@,
        None => column.name@,
    }
}

/// The first position of a name.
pub open spec fn first_index(names: Seq<Seq<char>>, name: Seq<char>) -> Option<int> {
    if names.contains(name) {
        Some(choose|i: int| first_at(names, name, i))
    } else {
        None
    }
}

/// Position `i` is the first one that holds `name`.
pub open spec fn first_at(names: Seq<Seq<char>>, name: Seq<char>, i: int) -> bool {
    &&& 0 <= i < names.len()
    &&& names[i] == name
    &&& forall|j: int| 0 <= j < i ==> #[trigger] names[j] != name
}

/// How far a search through the branches of a CASE came.
pub enum CaseSearch {
    /// No branch was taken so far.
    Open,
    /// A branch was taken, or evaluating a condition went wrong.
    Taken(Outcome),
}

/// How far a search through the values of an IN list came.
pub enum ListSearch {
    /// No value was equal so far; tells whether a comparison was unknown.
    Open(bool),
    /// A value was equal.
    Found,
    /// Evaluating a value went wrong.
    Failed(Outcome),
}

/// What evaluating several expressions comes to.
pub enum Outcomes {
    Values(Seq<ScalarView>),
    /// The first outcome that was not a value.
    Failed(Outcome),
}

/// Equality of two values: unknown when one is null, false between different types.
pub open spec fn equal_values(a: ScalarView, b: ScalarView) -> Option<bool> {
    if values::null_value(a) || values::null_value(b) {
        None
    } else {
        Some(
            match (a, b) {
                (ScalarView::Int64(x), ScalarView::Int64(y)) => x == y,
                (
                    ScalarView::TimestampMillisecond(x, _),
                    ScalarView::TimestampMillisecond(y, _),
                ) => x == y,
                (ScalarView::Utf8(x), ScalarView::Utf8(y)) => x == y,
                (ScalarView::Boolean(x), ScalarView::Boolean(y)) => x == y,
                _ => false,
            },
        )
    }
}

/// Negation in three-valued logic.
pub open spec fn not_value(value: Option<bool>) -> Option<bool> {
    match value {
        Some(b) => Some(!b),
        None => None,
    }
}

/// What a test on a truth value comes to.
pub open spec fn truth_test(value: ScalarView, wanted: bool, negated: bool) -> Outcome {
    match predicates::truth_value(value) {
        Err(error) => Outcome::Error(error),
        Ok(truth) => Outcome::Value(ScalarView::Boolean(Some((truth == Some(wanted)) != negated))),
    }
}

/// Negation of a number.
pub open spec fn negation_outcome(value: ScalarView) -> Outcome {
    match value {
        ScalarView::Int64(None) => Outcome::Value(ScalarView::Int64(None)),
        ScalarView::Int64(Some(v)) => if v == i64::MIN {
            Outcome::Panics
        } else {
            Outcome::Value(ScalarView::Int64(Some((-v) as i64)))
        },
        ScalarView::TimestampMillisecond(None, tz) => Outcome::Value(
            ScalarView::TimestampMillisecond(None, tz),
        ),
        ScalarView::TimestampMillisecond(Some(v), tz) => if v == i64::MIN {
            Outcome::Panics
        } else {
            Outcome::Value(ScalarView::TimestampMillisecond(Some((-v) as i64), tz))
        },
        _ => Outcome::Error(EvalError::UnsupportedNegation),
    }
}

/// What LIKE comes to.
pub open spec fn like_outcome(value: ScalarView, pattern: ScalarView) -> Outcome {
    match (value, pattern) {
        (ScalarView::Utf8(Some(text)), ScalarView::Utf8(Some(p))) => Outcome::Value(
            ScalarView::Boolean(Some(predicates::like_matches(text, p))),
        ),
        (ScalarView::Utf8(Some(_)), _) => Outcome::Error(EvalError::LikePattern),
        _ => Outcome::Error(EvalError::LikeInput),
    }
}

/// What BETWEEN comes to.
pub open spec fn between_outcome(
    value: ScalarView,
    low: ScalarView,
    high: ScalarView,
    negated: bool,
) -> Outcome {
    match (predicates::value_order(value, low, Operator::GtEq), predicates::value_order(value, high, Operator::LtEq)) {
        (Err(error), _) => Outcome::Error(error),
        (Ok(_), Err(error)) => Outcome::Error(error),
        (Ok(lower), Ok(upper)) => {
            let both = predicates::and_values(lower, upper);
            Outcome::Value(
                ScalarView::Boolean(
                    if negated {
                        not_value(both)
                    } else {
                        both
                    },
                ),
            )
        },
    }
}

/// What an IN list comes to once the search has ended.
pub open spec fn in_list_outcome(search: ListSearch, negated: bool) -> Outcome {
    match search {
        ListSearch::Failed(outcome) => outcome,
        ListSearch::Found => Outcome::Value(ScalarView::Boolean(Some(!negated))),
        ListSearch::Open(saw_null) => Outcome::Value(
            ScalarView::Boolean(
                if saw_null {
                    None
                } else {
                    Some(negated)
                },
            ),
        ),
    }
}

/// What evaluating `expr` over a row with the named columns comes to.
pub open spec fn eval_outcome(
    expr: DfExpr,
    row: Seq<ScalarView>,
    names: Seq<Seq<char>>,
) -> Outcome
    decreases expr, 0nat,
{
    match expr {
        DfExpr::Alias(inner) => eval_outcome(*inner, row, names),
        DfExpr::Column(column) => match predicates::resolved_column(names, column) {
            None => Outcome::Error(EvalError::ColumnNotFound),
            Some(index) => if index < row.len() {
                Outcome::Value(row[index])
            } else {
                Outcome::Error(EvalError::ColumnOutOfBounds(index as usize))
            },
        },
        DfExpr::Literal(value) => Outcome::Value(value@),
        DfExpr::BinaryExpr { left, op, right } => match eval_outcome(*left, row, names) {
            Outcome::Value(l) => match eval_outcome(*right, row, names) {
                Outcome::Value(r) => predicates::binary_outcome(op, l, r),
                failed => failed,
            },
            failed => failed,
        },
        DfExpr::Not(inner) => match eval_outcome(*inner, row, names) {
            Outcome::Value(v) => match predicates::truth_value(v) {
                Ok(truth) => Outcome::Value(ScalarView::Boolean(not_value(truth))),
                Err(error) => Outcome::Error(error),
            },
            failed => failed,
        },
        DfExpr::Negative(inner) => match eval_outcome(*inner, row, names) {
            Outcome::Value(v) => negation_outcome(v),
            failed => failed,
        },
        DfExpr::IsNull(inner) => match eval_outcome(*inner, row, names) {
            Outcome::Value(v) => Outcome::Value(ScalarView::Boolean(Some(values::null_value(v)))),
            failed => failed,
        },
        DfExpr::IsNotNull(inner) => match eval_outcome(*inner, row, names) {
            Outcome::Value(v) => Outcome::Value(ScalarView::Boolean(Some(!values::null_value(v)))),
            failed => failed,
        },
        DfExpr::IsTrue(inner) => match eval_outcome(*inner, row, names) {
            Outcome::Value(v) => truth_test(v, true, false),
            failed => failed,
        },
        DfExpr::IsNotTrue(inner) => match eval_outcome(*inner, row, names) {
            Outcome::Value(v) => truth_test(v, true, true),
            failed => failed,
        },
        DfExpr::IsFalse(inner) => match eval_outcome(*inner, row, names) {
            Outcome::Value(v) => truth_test(v, false, false),
            failed => failed,
        },
        DfExpr::IsNotFalse(inner) => match eval_outcome(*inner, row, names) {
            Outcome::Value(v) => truth_test(v, false, true),
            failed => failed,
        },
        DfExpr::IsUnknown(inner) => match eval_outcome(*inner, row, names) {
            Outcome::Value(v) => Outcome::Value(ScalarView::Boolean(Some(values::null_value(v)))),
            failed => failed,
        },
        DfExpr::IsNotUnknown(inner) => match eval_outcome(*inner, row, names) {
            Outcome::Value(v) => Outcome::Value(ScalarView::Boolean(Some(!values::null_value(v)))),
            failed => failed,
        },
        DfExpr::Like { expr, pattern } => match eval_outcome(*expr, row, names) {
            Outcome::Value(v) => match eval_outcome(*pattern, row, names) {
                Outcome::Value(p) => like_outcome(v, p),
                failed => failed,
            },
            failed => failed,
        },
        DfExpr::Cast { expr, data_type } => match eval_outcome(*expr, row, names) {
            Outcome::Value(v) => match casts::cast_outcome(v, data_type) {
                Ok(cast) => Outcome::Value(cast),
                Err(error) => Outcome::Error(error),
            },
            failed => failed,
        },
        DfExpr::TryCast { expr, data_type } => match eval_outcome(*expr, row, names) {
            Outcome::Value(v) => match casts::cast_outcome(v, data_type) {
                Ok(cast) => Outcome::Value(cast),
                Err(_) => Outcome::Value(casts::null_of_type(data_type)),
            },
            failed => failed,
        },
        DfExpr::Case { base, when_then, otherwise } => {
            let compared = match base {
                Some(b) => Some(eval_outcome(*b, row, names)),
                None => None,
            };
            match compared {
                Some(Outcome::Error(error)) => Outcome::Error(error),
                Some(Outcome::Panics) => Outcome::Panics,
                _ => {
                    let base_value = match compared {
                        Some(Outcome::Value(v)) => Some(v),
                        _ => None,
                    };
                    match case_search(when_then@, base_value, when_then@.len(), row, names) {
                        CaseSearch::Taken(outcome) => outcome,
                        CaseSearch::Open => match otherwise {
                            Some(other) => eval_outcome(*other, row, names),
                            None => Outcome::Value(ScalarView::Null),
                        },
                    }
                },
            }
        },
        DfExpr::Between { expr, negated, low, high } => match eval_outcome(*expr, row, names) {
            Outcome::Value(v) => match eval_outcome(*low, row, names) {
                Outcome::Value(l) => match eval_outcome(*high, row, names) {
                    Outcome::Value(h) => between_outcome(v, l, h, negated),
                    failed => failed,
                },
                failed => failed,
            },
            failed => failed,
        },
        DfExpr::InList { expr, list, negated } => match eval_outcome(*expr, row, names) {
            Outcome::Value(v) => if values::null_value(v) {
                Outcome::Value(ScalarView::Boolean(None))
            } else {
                in_list_outcome(list_search(list@, v, list@.len(), row, names), negated)
            },
            failed => failed,
        },
        DfExpr::ScalarFunction { name, args } => match all_outcomes(
            args@,
            args@.len(),
            row,
            names,
        ) {
            Outcomes::Values(values) => scalar_functions::function_outcome(name@, values),
            Outcomes::Failed(outcome) => outcome,
        },
        DfExpr::Unsupported => Outcome::Error(EvalError::UnsupportedExpression),
    }
}

/// How far the search through the first `n` branches of a CASE comes.
pub open spec fn case_search(
    branches: Seq<(DfExpr, DfExpr)>,
    base: Option<ScalarView>,
    n: nat,
    row: Seq<ScalarView>,
    names: Seq<Seq<char>>,
) -> CaseSearch
    decreases branches, n,
{
    if n == 0 || n > branches.len() {
        CaseSearch::Open
    } else {
        match case_search(branches, base, (n - 1) as nat, row, names) {
            CaseSearch::Taken(outcome) => CaseSearch::Taken(outcome),
            CaseSearch::Open => match eval_outcome(branches[n - 1].0, row, names) {
                Outcome::Value(when) => match branch_taken(when, base) {
                    Err(error) => CaseSearch::Taken(Outcome::Error(error)),
                    Ok(true) => CaseSearch::Taken(eval_outcome(branches[n - 1].1, row, names)),
                    Ok(false) => CaseSearch::Open,
                },
                failed => CaseSearch::Taken(failed),
            },
        }
    }
}

/// Whether a branch is taken: its value equals the base, or, without a base, is true.
pub open spec fn branch_taken(when: ScalarView, base: Option<ScalarView>) -> Result<
    bool,
    EvalError,
> {
    match base {
        Some(value) => Ok(equal_values(when, value) == Some(true)),
        None => match predicates::truth_value(when) {
            Ok(truth) => Ok(truth == Some(true)),
            Err(error) => Err(error),
        },
    }
}

/// How far the search for a value in the first `n` values of a list comes.
pub open spec fn list_search(
    list: Seq<DfExpr>,
    value: ScalarView,
    n: nat,
    row: Seq<ScalarView>,
    names: Seq<Seq<char>>,
) -> ListSearch
    decreases list, n,
{
    if n == 0 || n > list.len() {
        ListSearch::Open(false)
    } else {
        match list_search(list, value, (n - 1) as nat, row, names) {
            ListSearch::Open(saw_null) => match eval_outcome(list[n - 1], row, names) {
                Outcome::Value(item) => match equal_values(value, item) {
                    Some(true) => ListSearch::Found,
                    Some(false) => ListSearch::Open(saw_null),
                    None => ListSearch::Open(true),
                },
                failed => ListSearch::Failed(failed),
            },
            ended => ended,
        }
    }
}

/// What evaluating the first `n` expressions comes to.
pub open spec fn all_outcomes(
    exprs: Seq<DfExpr>,
    n: nat,
    row: Seq<ScalarView>,
    names: Seq<Seq<char>>,
) -> Outcomes
    decreases exprs, n,
{
    if n == 0 || n > exprs.len() {
        Outcomes::Values(Seq::empty())
    } else {
        match all_outcomes(exprs, (n - 1) as nat, row, names) {
            Outcomes::Values(values) => match eval_outcome(exprs[n - 1], row, names) {
                Outcome::Value(value) => Outcomes::Values(values.push(value)),
                failed => Outcomes::Failed(failed),
            },
            failed => failed,
        }
    }
}


/// Equality of two values: unknown when one is null, false between different types.
pub fn scalar_equals(lhs: &ScalarValue, rhs: &ScalarValue) -> (equal: Option<bool>)
    ensures
        equal == equal_values(lhs@, rhs@),
{
    if lhs.is_null() || rhs.is_null() {
        return None;
    }
    let equal: bool = match (lhs, rhs) {
        (ScalarValue::Int64(Some(a)), ScalarValue::Int64(Some(b))) => *a == *b,
        (
            ScalarValue::TimestampMillisecond(Some(a), _),
            ScalarValue::TimestampMillisecond(Some(b), _),
        ) => *a == *b,
        (ScalarValue::Utf8(Some(a)), ScalarValue::Utf8(Some(b))) => same_text(
            a.as_str(),
            b.as_str(),
        ),
        (ScalarValue::Boolean(Some(a)), ScalarValue::Boolean(Some(b))) => *a == *b,
        _ => false,
    };
    Some(equal)
}


fn truth_tested(value: &ScalarValue, wanted: bool, negated: bool) -> (result: Evaluated)
    ensures
        result@ == truth_test(value@, wanted, negated),
{
    match predicates::scalar_to_bool_opt(value) {
        Err(error) => Evaluated::Error(error),
        Ok(truth) => {
            let met: bool = match truth {
                Some(b) => b == wanted,
                None => false,
            };
            Evaluated::Value(ScalarValue::Boolean(Some(met != negated)))
        },
    }
}

fn negated_value(value: ScalarValue) -> (result: Evaluated)
    ensures
        result@ == negation_outcome(value@),
{
    match value {
        ScalarValue::Int64(Some(v)) => {
            if v == i64::MIN {
                Evaluated::Panics
            } else {
                Evaluated::Value(ScalarValue::Int64(Some(-v)))
            }
        },
        ScalarValue::Int64(None) => Evaluated::Value(ScalarValue::Int64(None)),
        ScalarValue::TimestampMillisecond(Some(v), tz) => {
            if v == i64::MIN {
                Evaluated::Panics
            } else {
                Evaluated::Value(ScalarValue::TimestampMillisecond(Some(-v), tz))
            }
        },
        ScalarValue::TimestampMillisecond(None, tz) => Evaluated::Value(
            ScalarValue::TimestampMillisecond(None, tz),
        ),
        _ => Evaluated::Error(EvalError::UnsupportedNegation),
    }
}

fn eval_like(value: &ScalarValue, pattern: &ScalarValue) -> (result: Evaluated)
    ensures
        result@ == like_outcome(value@, pattern@),
{
    match value {
        ScalarValue::Utf8(Some(text)) => match pattern {
            ScalarValue::Utf8(Some(p)) => Evaluated::Value(
                ScalarValue::Boolean(Some(predicates::matches_like(text.as_str(), p.as_str()))),
            ),
            _ => Evaluated::Error(EvalError::LikePattern),
        },
        _ => Evaluated::Error(EvalError::LikeInput),
    }
}

fn eval_between(
    value: &ScalarValue,
    low: &ScalarValue,
    high: &ScalarValue,
    negated: bool,
) -> (result: Evaluated)
    ensures
        result@ == between_outcome(value@, low@, high@, negated),
{
    let lower: Option<bool> = match predicates::scalar_compare(value, low, Operator::GtEq) {
        Ok(lower) => lower,
        Err(error) => {
            return Evaluated::Error(error);
        },
    };
    let upper: Option<bool> = match predicates::scalar_compare(value, high, Operator::LtEq) {
        Ok(upper) => upper,
        Err(error) => {
            return Evaluated::Error(error);
        },
    };
    let both: Option<bool> = predicates::and_bool_opt(lower, upper);
    let result: Option<bool> = match both {
        Some(b) => Some(b != negated),
        None => None,
    };
    Evaluated::Value(ScalarValue::Boolean(result))
}

/// Evaluates an expression over a row whose columns the schema names.
///
/// Where integer arithmetic would leave its range, a divisor is zero or a date pattern is
/// malformed, the result says so.
pub fn eval_total(expr: &DfExpr, row: &Row, schema: &RowSchema) -> (result: Evaluated)
    ensures
        result@ == eval_outcome(*expr, values::row_view(row@), field_names(*schema)),
    decreases *expr, 0nat,
{
    match expr {
        DfExpr::Alias(inner) => eval_total(inner, row, schema),
        DfExpr::Column(column) => match predicates::resolve_column(schema, column) {
            Err(error) => Evaluated::Error(error),
            Ok(index) => {
                if index < row.len() {
                    Evaluated::Value(row[index].clone())
                } else {
                    Evaluated::Error(EvalError::ColumnOutOfBounds(index))
                }
            },
        },
        DfExpr::Literal(value) => Evaluated::Value(value.clone()),
        DfExpr::BinaryExpr { left, op, right } => match eval_total(left, row, schema) {
            Evaluated::Value(l) => match eval_total(right, row, schema) {
                Evaluated::Value(r) => predicates::eval_binary(*op, &l, &r),
                failed => failed,
            },
            failed => failed,
        },
        DfExpr::Not(inner) => match eval_total(inner, row, schema) {
            Evaluated::Value(v) => match predicates::scalar_to_bool_opt(&v) {
                Ok(truth) => {
                    let result: Option<bool> = match truth {
                        Some(b) => Some(!b),
                        None => None,
                    };
                    Evaluated::Value(ScalarValue::Boolean(result))
                },
                Err(error) => Evaluated::Error(error),
            },
            failed => failed,
        },
        DfExpr::Negative(inner) => match eval_total(inner, row, schema) {
            Evaluated::Value(v) => negated_value(v),
            failed => failed,
        },
        DfExpr::IsNull(inner) => match eval_total(inner, row, schema) {
            Evaluated::Value(v) => Evaluated::Value(ScalarValue::Boolean(Some(v.is_null()))),
            failed => failed,
        },
        DfExpr::IsNotNull(inner) => match eval_total(inner, row, schema) {
            Evaluated::Value(v) => Evaluated::Value(ScalarValue::Boolean(Some(!v.is_null()))),
            failed => failed,
        },
        DfExpr::IsTrue(inner) => match eval_total(inner, row, schema) {
            Evaluated::Value(v) => truth_tested(&v, true, false),
            failed => failed,
        },
        DfExpr::IsNotTrue(inner) => match eval_total(inner, row, schema) {
            Evaluated::Value(v) => truth_tested(&v, true, true),
            failed => failed,
        },
        DfExpr::IsFalse(inner) => match eval_total(inner, row, schema) {
            Evaluated::Value(v) => truth_tested(&v, false, false),
            failed => failed,
        },
        DfExpr::IsNotFalse(inner) => match eval_total(inner, row, schema) {
            Evaluated::Value(v) => truth_tested(&v, false, true),
            failed => failed,
        },
        DfExpr::IsUnknown(inner) => match eval_total(inner, row, schema) {
            Evaluated::Value(v) => Evaluated::Value(ScalarValue::Boolean(Some(v.is_null()))),
            failed => failed,
        },
        DfExpr::IsNotUnknown(inner) => match eval_total(inner, row, schema) {
            Evaluated::Value(v) => Evaluated::Value(ScalarValue::Boolean(Some(!v.is_null()))),
            failed => failed,
        },
        DfExpr::Like { expr, pattern } => match eval_total(expr, row, schema) {
            Evaluated::Value(v) => match eval_total(pattern, row, schema) {
                Evaluated::Value(p) => eval_like(&v, &p),
                failed => failed,
            },
            failed => failed,
        },
        DfExpr::Cast { expr, data_type } => match eval_total(expr, row, schema) {
            Evaluated::Value(v) => match casts::cast_value(&v, data_type) {
                Ok(cast) => Evaluated::Value(cast),
                Err(error) => Evaluated::Error(error),
            },
            failed => failed,
        },
        DfExpr::TryCast { expr, data_type } => match eval_total(expr, row, schema) {
            Evaluated::Value(v) => Evaluated::Value(casts::try_cast_value(&v, data_type)),
            failed => failed,
        },
        DfExpr::Case { base, when_then, otherwise } => {
            let base_value: Option<ScalarValue> = match base {
                Some(b) => match eval_total(b, row, schema) {
                    Evaluated::Value(v) => Some(v),
                    failed => {
                        return failed;
                    },
                },
                None => None,
            };
            match eval_case(when_then, &base_value, row, schema) {
                Some(result) => result,
                None => match otherwise {
                    Some(other) => eval_total(other, row, schema),
                    None => Evaluated::Value(ScalarValue::Null),
                },
            }
        },
        DfExpr::Between { expr, negated, low, high } => match eval_total(expr, row, schema) {
            Evaluated::Value(v) => match eval_total(low, row, schema) {
                Evaluated::Value(l) => match eval_total(high, row, schema) {
                    Evaluated::Value(h) => eval_between(&v, &l, &h, *negated),
                    failed => failed,
                },
                failed => failed,
            },
            failed => failed,
        },
        DfExpr::InList { expr, list, negated } => match eval_total(expr, row, schema) {
            Evaluated::Value(v) => {
                if v.is_null() {
                    Evaluated::Value(ScalarValue::Boolean(None))
                } else {
                    eval_in_list(&v, list, *negated, row, schema)
                }
            },
            failed => failed,
        },
        DfExpr::ScalarFunction { name, args } => match eval_args(args, row, schema) {
            Ok(values) => scalar_functions::eval_scalar_function(name.as_str(), &values),
            Err(failed) => failed,
        },
        DfExpr::Unsupported => Evaluated::Error(EvalError::UnsupportedExpression),
    }
}

/// The result of the branch that is taken, where there is one.
fn eval_case(
    branches: &Vec<(DfExpr, DfExpr)>,
    base: &Option<ScalarValue>,
    row: &Row,
    schema: &RowSchema,
) -> (result: Option<Evaluated>)
    ensures
        ({
            let search = case_search(
                branches@,
                values::opt_value(*base),
                branches@.len(),
                values::row_view(row@),
                field_names(*schema),
            );
            match result {
                Some(taken) => search == CaseSearch::Taken(taken@),
                None => search == CaseSearch::Open,
            }
        }),
    decreases branches@, branches@.len(),
{
    let ghost base_view = values::opt_value(*base);
    let ghost views = values::row_view(row@);
    let ghost names = field_names(*schema);
    let mut i: usize = 0;
    while i < branches.len()
        invariant
            i <= branches@.len(),
            views == values::row_view(row@),
            names == field_names(*schema),
            base_view == values::opt_value(*base),
            case_search(branches@, base_view, i as nat, views, names) == CaseSearch::Open,
        decreases branches@.len() - i,
    {
        let when: ScalarValue = match eval_total(&branches[i].0, row, schema) {
            Evaluated::Value(v) => v,
            failed => {
                proof {
                    lemma_case_ended(
                        branches@,
                        base_view,
                        (i + 1) as nat,
                        branches@.len(),
                        views,
                        names,
                    );
                }
                return Some(failed);
            },
        };
        let taken: bool = match base {
            Some(value) => match scalar_equals(&when, value) {
                Some(equal) => equal,
                None => false,
            },
            None => match predicates::scalar_to_bool_opt(&when) {
                Ok(Some(truth)) => truth,
                Ok(None) => false,
                Err(error) => {
                    proof {
                        lemma_case_ended(
                            branches@,
                            base_view,
                            (i + 1) as nat,
                            branches@.len(),
                            views,
                            names,
                        );
                    }
                    return Some(Evaluated::Error(error));
                },
            },
        };
        if taken {
            let result = eval_total(&branches[i].1, row, schema);
            proof {
                lemma_case_ended(
                    branches@,
                    base_view,
                    (i + 1) as nat,
                    branches@.len(),
                    views,
                    names,
                );
            }
            return Some(result);
        }
        i = i + 1;
    }
    None
}

/// Once a branch is taken, later branches do not matter.
proof fn lemma_case_ended(
    branches: Seq<(DfExpr, DfExpr)>,
    base: Option<ScalarView>,
    n: nat,
    m: nat,
    row: Seq<ScalarView>,
    names: Seq<Seq<char>>,
)
    requires
        case_search(branches, base, n, row, names) is Taken,
        n <= m <= branches.len(),
    ensures
        case_search(branches, base, m, row, names) == case_search(branches, base, n, row, names),
    decreases m,
{
    if n < m {
        lemma_case_ended(branches, base, n, (m - 1) as nat, row, names);
    }
}

/// Searches a value that is not null in a list.
fn eval_in_list(
    value: &ScalarValue,
    list: &Vec<DfExpr>,
    negated: bool,
    row: &Row,
    schema: &RowSchema,
) -> (result: Evaluated)
    ensures
        result@ == in_list_outcome(
            list_search(
                list@,
                value@,
                list@.len(),
                values::row_view(row@),
                field_names(*schema),
            ),
            negated,
        ),
    decreases list@, list@.len(),
{
    let ghost views = values::row_view(row@);
    let ghost names = field_names(*schema);
    let mut saw_null: bool = false;
    let mut i: usize = 0;
    while i < list.len()
        invariant
            i <= list@.len(),
            views == values::row_view(row@),
            names == field_names(*schema),
            list_search(list@, value@, i as nat, views, names) == ListSearch::Open(saw_null),
        decreases list@.len() - i,
    {
        let item: ScalarValue = match eval_total(&list[i], row, schema) {
            Evaluated::Value(v) => v,
            failed => {
                proof {
                    lemma_list_ended(list@, value@, (i + 1) as nat, list@.len(), views, names);
                }
                return failed;
            },
        };
        match scalar_equals(value, &item) {
            Some(true) => {
                proof {
                    lemma_list_ended(list@, value@, (i + 1) as nat, list@.len(), views, names);
                }
                return Evaluated::Value(ScalarValue::Boolean(Some(!negated)));
            },
            Some(false) => {},
            None => {
                saw_null = true;
            },
        }
        i = i + 1;
    }
    let result: Option<bool> = if saw_null {
        None
    } else {
        Some(negated)
    };
    Evaluated::Value(ScalarValue::Boolean(result))
}

/// Once the search in a list has ended, later values do not matter.
proof fn lemma_list_ended(
    list: Seq<DfExpr>,
    value: ScalarView,
    n: nat,
    m: nat,
    row: Seq<ScalarView>,
    names: Seq<Seq<char>>,
)
    requires
        !(list_search(list, value, n, row, names) is Open),
        n <= m <= list.len(),
    ensures
        list_search(list, value, m, row, names) == list_search(list, value, n, row, names),
    decreases m,
{
    if n < m {
        lemma_list_ended(list, value, n, (m - 1) as nat, row, names);
    }
}

/// Evaluates the arguments of a function, from the first to the last.
fn eval_args(args: &Vec<DfExpr>, row: &Row, schema: &RowSchema) -> (result: Result<Row, Evaluated>)
    ensures
        ({
            let outcomes = all_outcomes(
                args@,
                args@.len(),
                values::row_view(row@),
                field_names(*schema),
            );
            match result {
                Ok(values) => outcomes == Outcomes::Values(values::row_view(values@)),
                Err(failed) => outcomes == Outcomes::Failed(failed@),
            }
        }),
    decreases args@, args@.len(),
{
    let ghost views = values::row_view(row@);
    let ghost names = field_names(*schema);
    let mut values: Row = Vec::new();
    let mut i: usize = 0;
    assert(values::row_view(values@) =~= Seq::<ScalarView>::empty());
    while i < args.len()
        invariant
            i <= args@.len(),
            views == values::row_view(row@),
            names == field_names(*schema),
            all_outcomes(args@, i as nat, views, names) == Outcomes::Values(
                values::row_view(values@),
            ),
        decreases args@.len() - i,
    {
        match eval_total(&args[i], row, schema) {
            Evaluated::Value(v) => {
                let ghost before = values::row_view(values@);
                values.push(v);
                assert(values::row_view(values@) =~= before.push(v@));
            },
            failed => {
                proof {
                    lemma_args_ended(args@, (i + 1) as nat, args@.len(), views, names);
                }
                return Err(failed);
            },
        }
        i = i + 1;
    }
    Ok(values)
}

/// Once an argument has no value, later arguments do not matter.
proof fn lemma_args_ended(
    args: Seq<DfExpr>,
    n: nat,
    m: nat,
    row: Seq<ScalarView>,
    names: Seq<Seq<char>>,
)
    requires
        all_outcomes(args, n, row, names) is Failed,
        n <= m <= args.len(),
    ensures
        all_outcomes(args, m, row, names) == all_outcomes(args, n, row, names),
    decreases m,
{
    if n < m {
        lemma_args_ended(args, n, (m - 1) as nat, row, names);
    }
}

/// Evaluates an expression over a row whose columns the schema names.
pub fn eval_df_expr(expr: &DfExpr, row: &Row, schema: &RowSchema) -> (value: Result<
    ScalarValue,
    EvalError,
>)
    requires
        !(eval_outcome(*expr, values::row_view(row@), field_names(*schema)) is Panics),
    ensures
        result_outcome(value) == eval_outcome(
            *expr,
            values::row_view(row@),
            field_names(*schema),
        ),
{
    match eval_total(expr, row, schema) {
        Evaluated::Value(value) => Ok(value),
        Evaluated::Error(error) => Err(error),
        Evaluated::Panics => Err(EvalError::UnsupportedExpression),
    }
}

/// Evaluates an expression where that does not leave the range of integer arithmetic, divide by
/// zero or meet a malformed date pattern.
pub fn eval_if_defined(expr: &DfExpr, row: &Row, schema: &RowSchema) -> (value: Option<
    Result<ScalarValue, EvalError>,
>)
    ensures
        match value {
            Some(result) => result_outcome(result) == eval_outcome(
                *expr,
                values::row_view(row@),
                field_names(*schema),
            ),
            None => eval_outcome(*expr, values::row_view(row@), field_names(*schema)) is Panics,
        },
{
    match eval_total(expr, row, schema) {
        Evaluated::Panics => None,
        _ => Some(eval_df_expr(expr, row, schema)),
    }
}

/// A value as a condition: unknown counts as false.
pub open spec fn condition_value(value: ScalarView) -> Result<bool, EvalError> {
    match predicates::truth_value(value) {
        Ok(truth) => Ok(truth == Some(true)),
        Err(error) => Err(error),
    }
}

/// A value as a condition: unknown counts as false.
pub fn scalar_to_bool(value: &ScalarValue) -> (condition: Result<bool, EvalError>)
    ensures
        condition == condition_value(value@),
{
    match predicates::scalar_to_bool_opt(value) {
        Ok(Some(truth)) => Ok(truth),
        Ok(None) => Ok(false),
        Err(error) => Err(error),
    }
}

} // verus!
