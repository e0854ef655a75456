//! Evaluation of the expressions of a plan.
//!
//! Operations on floats are computed elsewhere: the evaluation takes their results, and where it
//! needs one that it does not have, it says which.

use vstd::prelude::*;

use crate::dataflow_plan::Expr;
use crate::expression_eval::predicates;
use crate::expression_eval::predicates::{divide_i64, remainder_i64};
use crate::float_results;
use crate::float_results::{negate_float, FloatCall, FloatMath, FloatOrder, FloatResults};
use crate::values;
use crate::values::{Row, ScalarValue, ScalarView};

verus! {

/// Why an expression has no value.
#[derive(Clone, Copy, Debug, PartialEq, Eq, Structural)]
pub enum ExprError {
    /// The row is too short for this column.
    ColumnOutOfBounds(usize),
    /// A boolean was expected.
    NotBoolean,
    /// A number was expected.
    NotNumeric,
    /// A number was expected, not a null.
    NullNumeric,
    /// An integer was expected.
    NotInteger,
    /// An integer was expected, not a null.
    NullInteger,
    DivisionByZero,
    ModuloByZero,
    /// The value depends on an operation on floats that has no result yet.
    Awaits(FloatCall),
    /// Two floats have no order.
    NotComparable,
    /// The result does not fit into sixty-four bits.
    Overflow,
}

/// Operators on numbers.
#[derive(Clone, Copy, Debug, PartialEq, Eq, Structural)]
pub enum Arithmetic {
    Add,
    Sub,
    Mul,
    Div,
}

/// Operators that order numbers.
#[derive(Clone, Copy, Debug, PartialEq, Eq, Structural)]
pub enum Comparison {
    Lt,
    LtEq,
    Gt,
    GtEq,
}

/// A number: an integer, or the bits of a float.
#[derive(Clone, Copy, Debug, PartialEq, Eq, Structural)]
pub enum NumericValue {
    Int(i64),
    Float(u64),
}

/// What evaluating an expression gives.
pub type ExprOutcome = Result<ScalarView, ExprError>;

/// The number that a value holds, where it holds one.
pub open spec fn number_in(value: ScalarView) -> Option<NumericValue> {
    match value {
        ScalarView::Int64(Some(v)) => Some(NumericValue::Int(v)),
        ScalarView::Float64(Some(v)) => Some(NumericValue::Float(v)),
        _ => None,
    }
}

/// A value as an operand of arithmetic.
pub open spec fn numeric_operand(value: ScalarView) -> Result<NumericValue, ExprError> {
    match value {
        ScalarView::Int64(Some(v)) => Ok(NumericValue::Int(v)),
        ScalarView::Float64(Some(v)) => Ok(NumericValue::Float(v)),
        ScalarView::Int64(None) => Err(ExprError::NullNumeric),
        ScalarView::Float64(None) => Err(ExprError::NullNumeric),
        _ => Err(ExprError::NotNumeric),
    }
}

/// A value as an integer operand.
pub open spec fn integer_operand(value: ScalarView) -> Result<i64, ExprError> {
    match value {
        ScalarView::Int64(Some(v)) => Ok(v),
        ScalarView::Int64(None) => Err(ExprError::NullInteger),
        _ => Err(ExprError::NotInteger),
    }
}

/// A value as a condition; a null counts as false.
pub open spec fn condition_operand(value: ScalarView) -> Result<bool, ExprError> {
    match value {
        ScalarView::Boolean(Some(b)) => Ok(b),
        ScalarView::Boolean(None) => Ok(false),
        _ => Err(ExprError::NotBoolean),
    }
}

/// How two numbers of which one is a float are ordered.
pub open spec fn order_of(a: NumericValue, b: NumericValue, floats: FloatMath) -> Result<
    FloatOrder,
    ExprError,
> {
    let call = FloatCall::Order(a, b);
    if floats.orders.dom().contains(call) {
        Ok(floats.orders[call])
    } else {
        Err(ExprError::Awaits(call))
    }
}

/// A number is zero.
pub open spec fn is_zero(number: NumericValue) -> bool {
    match number {
        NumericValue::Int(value) => value == 0,
        NumericValue::Float(bits) => float_results::is_zero_float(bits),
    }
}

/// Whether two values are equal: as numbers where both are, else as they stand.
pub open spec fn values_equal(a: ScalarView, b: ScalarView, floats: FloatMath) -> Result<
    bool,
    ExprError,
> {
    match (number_in(a), number_in(b)) {
        (Some(NumericValue::Int(x)), Some(NumericValue::Int(y))) => Ok(x == y),
        (Some(x), Some(y)) => match order_of(x, y, floats) {
            Ok(order) => Ok(order == FloatOrder::Equal),
            Err(error) => Err(error),
        },
        _ => Ok(values::same_value(a, b)),
    }
}

/// An integer result, where it fits.
pub open spec fn integer_outcome(result: int) -> ExprOutcome {
    if i64::MIN <= result <= i64::MAX {
        Ok(ScalarView::Int64(Some(result as i64)))
    } else {
        Err(ExprError::Overflow)
    }
}

/// What arithmetic on two numbers gives.
pub open spec fn arithmetic_outcome(
    op: Arithmetic,
    a: NumericValue,
    b: NumericValue,
    floats: FloatMath,
) -> ExprOutcome {
    if op == Arithmetic::Div && is_zero(b) {
        Err(ExprError::DivisionByZero)
    } else {
        match (a, b) {
            (NumericValue::Int(x), NumericValue::Int(y)) => integer_outcome(
                match op {
                    Arithmetic::Add => x + y,
                    Arithmetic::Sub => x - y,
                    Arithmetic::Mul => x * y,
                    Arithmetic::Div => predicates::truncated_quotient(x as int, y as int),
                },
            ),
            _ => {
                let call = FloatCall::Compute(op, a, b);
                if floats.numbers.dom().contains(call) {
                    Ok(ScalarView::Float64(Some(floats.numbers[call])))
                } else {
                    Err(ExprError::Awaits(call))
                }
            },
        }
    }
}

/// What ordering two numbers gives.
pub open spec fn comparison_outcome(
    op: Comparison,
    a: NumericValue,
    b: NumericValue,
    floats: FloatMath,
) -> ExprOutcome {
    match (a, b) {
        (NumericValue::Int(x), NumericValue::Int(y)) => Ok(
            ScalarView::Boolean(
                Some(
                    match op {
                        Comparison::Lt => x < y,
                        Comparison::LtEq => x <= y,
                        Comparison::Gt => x > y,
                        Comparison::GtEq => x >= y,
                    },
                ),
            ),
        ),
        _ => match order_of(a, b, floats) {
            Err(error) => Err(error),
            Ok(FloatOrder::Unordered) => Err(ExprError::NotComparable),
            Ok(order) => Ok(
                ScalarView::Boolean(
                    Some(
                        match op {
                            Comparison::Lt => order == FloatOrder::Less,
                            Comparison::LtEq => order != FloatOrder::Greater,
                            Comparison::Gt => order == FloatOrder::Greater,
                            Comparison::GtEq => order != FloatOrder::Less,
                        },
                    ),
                ),
            ),
        },
    }
}

/// What the remainder of two integers gives.
pub open spec fn modulo_outcome(a: i64, b: i64) -> ExprOutcome {
    if b == 0 {
        Err(ExprError::ModuloByZero)
    } else if a == i64::MIN && b == -1 {
        Err(ExprError::Overflow)
    } else {
        integer_outcome(predicates::truncated_remainder(a as int, b as int))
    }
}

/// Two operands of arithmetic; the left one is looked at first.
pub open spec fn numeric_pair(left: ExprOutcome, right: ExprOutcome) -> Result<
    (NumericValue, NumericValue),
    ExprError,
> {
    match left {
        Err(error) => Err(error),
        Ok(l) => match numeric_operand(l) {
            Err(error) => Err(error),
            Ok(a) => match right {
                Err(error) => Err(error),
                Ok(r) => match numeric_operand(r) {
                    Err(error) => Err(error),
                    Ok(b) => Ok((a, b)),
                },
            },
        },
    }
}

/// Two integer operands; the left one is looked at first.
pub open spec fn integer_pair(left: ExprOutcome, right: ExprOutcome) -> Result<
    (i64, i64),
    ExprError,
> {
    match left {
        Err(error) => Err(error),
        Ok(l) => match integer_operand(l) {
            Err(error) => Err(error),
            Ok(a) => match right {
                Err(error) => Err(error),
                Ok(r) => match integer_operand(r) {
                    Err(error) => Err(error),
                    Ok(b) => Ok((a, b)),
                },
            },
        },
    }
}

/// What a condition gives.
pub open spec fn condition_outcome(outcome: ExprOutcome) -> Result<bool, ExprError> {
    match outcome {
        Ok(value) => condition_operand(value),
        Err(error) => Err(error),
    }
}

/// What the equality of two operands gives.
pub open spec fn equality_outcome(
    left: ExprOutcome,
    right: ExprOutcome,
    negated: bool,
    floats: FloatMath,
) -> ExprOutcome {
    match (left, right) {
        (Err(error), _) => Err(error),
        (Ok(_), Err(error)) => Err(error),
        (Ok(a), Ok(b)) => match values_equal(a, b, floats) {
            Ok(equal) => Ok(ScalarView::Boolean(Some(equal != negated))),
            Err(error) => Err(error),
        },
    }
}

/// What evaluating an expression over a row gives, where no operation on floats has a result.
pub open spec fn expr_outcome(expr: Expr, row: Seq<ScalarView>) -> ExprOutcome {
    outcome_with(expr, row, FloatMath::none())
}

/// What evaluating an expression over a row gives, with what operations on floats give.
pub open spec fn outcome_with(expr: Expr, row: Seq<ScalarView>, floats: FloatMath) -> ExprOutcome
    decreases expr, 0nat,
{
    match expr {
        Expr::Column(index) => if index < row.len() {
            Ok(row[index as int])
        } else {
            Err(ExprError::ColumnOutOfBounds(index))
        },
        Expr::Literal(value) => Ok(value@),
        Expr::Eq(l, r) => equality_outcome(
            outcome_with(*l, row, floats),
            outcome_with(*r, row, floats),
            false,
            floats,
        ),
        Expr::NotEq(l, r) => equality_outcome(
            outcome_with(*l, row, floats),
            outcome_with(*r, row, floats),
            true,
            floats,
        ),
        Expr::Lt(l, r) => ordered(
            Comparison::Lt,
            outcome_with(*l, row, floats),
            outcome_with(*r, row, floats),
            floats,
        ),
        Expr::LtEq(l, r) => ordered(
            Comparison::LtEq,
            outcome_with(*l, row, floats),
            outcome_with(*r, row, floats),
            floats,
        ),
        Expr::Gt(l, r) => ordered(
            Comparison::Gt,
            outcome_with(*l, row, floats),
            outcome_with(*r, row, floats),
            floats,
        ),
        Expr::GtEq(l, r) => ordered(
            Comparison::GtEq,
            outcome_with(*l, row, floats),
            outcome_with(*r, row, floats),
            floats,
        ),
        Expr::And(l, r) => match condition_outcome(outcome_with(*l, row, floats)) {
            Err(error) => Err(error),
            Ok(false) => Ok(ScalarView::Boolean(Some(false))),
            Ok(true) => match condition_outcome(outcome_with(*r, row, floats)) {
                Err(error) => Err(error),
                Ok(b) => Ok(ScalarView::Boolean(Some(b))),
            },
        },
        Expr::Or(l, r) => match condition_outcome(outcome_with(*l, row, floats)) {
            Err(error) => Err(error),
            Ok(true) => Ok(ScalarView::Boolean(Some(true))),
            Ok(false) => match condition_outcome(outcome_with(*r, row, floats)) {
                Err(error) => Err(error),
                Ok(b) => Ok(ScalarView::Boolean(Some(b))),
            },
        },
        Expr::Add(l, r) => computed(
            Arithmetic::Add,
            outcome_with(*l, row, floats),
            outcome_with(*r, row, floats),
            floats,
        ),
        Expr::Sub(l, r) => computed(
            Arithmetic::Sub,
            outcome_with(*l, row, floats),
            outcome_with(*r, row, floats),
            floats,
        ),
        Expr::Mul(l, r) => computed(
            Arithmetic::Mul,
            outcome_with(*l, row, floats),
            outcome_with(*r, row, floats),
            floats,
        ),
        Expr::Div(l, r) => computed(
            Arithmetic::Div,
            outcome_with(*l, row, floats),
            outcome_with(*r, row, floats),
            floats,
        ),
        Expr::Mod(l, r) => match integer_pair(
            outcome_with(*l, row, floats),
            outcome_with(*r, row, floats),
        ) {
            Err(error) => Err(error),
            Ok(pair) => modulo_outcome(pair.0, pair.1),
        },
        Expr::Neg(inner) => match outcome_with(*inner, row, floats) {
            Err(error) => Err(error),
            Ok(value) => match numeric_operand(value) {
                Err(error) => Err(error),
                Ok(NumericValue::Int(v)) => integer_outcome(-v),
                Ok(NumericValue::Float(bits)) => Ok(
                    ScalarView::Float64(Some(float_results::negated_float(bits))),
                ),
            },
        },
        Expr::InList { expr, list, negated } => match outcome_with(*expr, row, floats) {
            Err(error) => Err(error),
            Ok(needle) => match list_contains(list@, needle, list@.len(), row, floats) {
                Err(error) => Err(error),
                Ok(contained) => Ok(ScalarView::Boolean(Some(contained != negated))),
            },
        },
    }
}

/// What ordering two operands gives.
pub open spec fn ordered(
    op: Comparison,
    left: ExprOutcome,
    right: ExprOutcome,
    floats: FloatMath,
) -> ExprOutcome {
    match numeric_pair(left, right) {
        Err(error) => Err(error),
        Ok(pair) => comparison_outcome(op, pair.0, pair.1, floats),
    }
}

/// What computing with two operands gives.
pub open spec fn computed(
    op: Arithmetic,
    left: ExprOutcome,
    right: ExprOutcome,
    floats: FloatMath,
) -> ExprOutcome {
    match numeric_pair(left, right) {
        Err(error) => Err(error),
        Ok(pair) => arithmetic_outcome(op, pair.0, pair.1, floats),
    }
}

/// Whether the needle is among the first `n` values; the search ends at the first that is equal.
pub open spec fn list_contains(
    list: Seq<Expr>,
    needle: ScalarView,
    n: nat,
    row: Seq<ScalarView>,
    floats: FloatMath,
) -> Result<bool, ExprError>
    decreases list, n,
{
    if n == 0 || n > list.len() {
        Ok(false)
    } else {
        match list_contains(list, needle, (n - 1) as nat, row, floats) {
            Ok(false) => match outcome_with(list[n - 1], row, floats) {
                Err(error) => Err(error),
                Ok(candidate) => values_equal(needle, candidate, floats),
            },
            ended => ended,
        }
    }
}

/// The outcome that a result stands for.
pub open spec fn value_result(result: Result<ScalarValue, ExprError>) -> ExprOutcome {
    match result {
        Ok(value) => Ok(value@),
        Err(error) => Err(error),
    }
}

fn read_number(value: &ScalarValue) -> (number: Option<NumericValue>)
    ensures
        number == number_in(value@),
{
    match value {
        ScalarValue::Int64(Some(v)) => Some(NumericValue::Int(*v)),
        ScalarValue::Float64(Some(v)) => Some(NumericValue::Float(*v)),
        _ => None,
    }
}

fn read_operand(value: &ScalarValue) -> (number: Result<NumericValue, ExprError>)
    ensures
        number == numeric_operand(value@),
{
    match value {
        ScalarValue::Int64(Some(v)) => Ok(NumericValue::Int(*v)),
        ScalarValue::Float64(Some(v)) => Ok(NumericValue::Float(*v)),
        ScalarValue::Int64(None) => Err(ExprError::NullNumeric),
        ScalarValue::Float64(None) => Err(ExprError::NullNumeric),
        _ => Err(ExprError::NotNumeric),
    }
}

fn numeric_order(a: NumericValue, b: NumericValue, floats: &FloatResults) -> (order: Result<
    FloatOrder,
    ExprError,
>)
    ensures
        order == order_of(a, b, floats@),
{
    let call = FloatCall::Order(a, b);
    match floats.order_of(call) {
        Some(order) => Ok(order),
        None => Err(ExprError::Awaits(call)),
    }
}

fn scalar_equal(lhs: &ScalarValue, rhs: &ScalarValue, floats: &FloatResults) -> (equal: Result<
    bool,
    ExprError,
>)
    ensures
        equal == values_equal(lhs@, rhs@, floats@),
{
    match (read_number(lhs), read_number(rhs)) {
        (Some(NumericValue::Int(a)), Some(NumericValue::Int(b))) => Ok(a == b),
        (Some(a), Some(b)) => match numeric_order(a, b, floats) {
            Ok(order) => Ok(order == FloatOrder::Equal),
            Err(error) => Err(error),
        },
        _ => Ok(lhs.same(rhs)),
    }
}

fn fit_integer(wide: i128) -> (value: Result<ScalarValue, ExprError>)
    ensures
        value_result(value) == integer_outcome(wide as int),
{
    if wide >= i64::MIN as i128 && wide <= i64::MAX as i128 {
        Ok(ScalarValue::Int64(Some(wide as i64)))
    } else {
        Err(ExprError::Overflow)
    }
}

fn compute(op: Arithmetic, a: NumericValue, b: NumericValue, floats: &FloatResults) -> (value:
    Result<ScalarValue, ExprError>)
    ensures
        value_result(value) == arithmetic_outcome(op, a, b, floats@),
{
    let zero: bool = match b {
        NumericValue::Int(y) => y == 0,
        NumericValue::Float(bits) => bits == 0 || bits == 0x8000_0000_0000_0000,
    };
    if op == Arithmetic::Div && zero {
        return Err(ExprError::DivisionByZero);
    }
    match (a, b) {
        (NumericValue::Int(x), NumericValue::Int(y)) => match op {
            Arithmetic::Add => fit_integer(x as i128 + y as i128),
            Arithmetic::Sub => fit_integer(x as i128 - y as i128),
            Arithmetic::Mul => {
                proof {
                    let m = x as int;
                    let n = y as int;
                    assert(-0x4000_0000_0000_0000_0000_0000_0000_0000 <= m * n
                        <= 0x4000_0000_0000_0000_0000_0000_0000_0000) by (nonlinear_arith)
                        requires
                            -0x8000_0000_0000_0000 <= m <= 0x8000_0000_0000_0000,
                            -0x8000_0000_0000_0000 <= n <= 0x8000_0000_0000_0000,
                    ;
                }
                fit_integer(x as i128 * y as i128)
            },
            Arithmetic::Div => {
                if x == i64::MIN && y == -1 {
                    return Err(ExprError::Overflow);
                }
                proof {
                    predicates::lemma_quotient_fits(x as int, y as int);
                }
                fit_integer(divide_i64(x, y) as i128)
            },
        },
        _ => {
            let call = FloatCall::Compute(op, a, b);
            match floats.number_of(call) {
                Some(bits) => Ok(ScalarValue::Float64(Some(bits))),
                None => Err(ExprError::Awaits(call)),
            }
        },
    }
}

fn compare_numeric(
    op: Comparison,
    a: NumericValue,
    b: NumericValue,
    floats: &FloatResults,
) -> (value: Result<ScalarValue, ExprError>)
    ensures
        value_result(value) == comparison_outcome(op, a, b, floats@),
{
    match (a, b) {
        (NumericValue::Int(x), NumericValue::Int(y)) => {
            let holds: bool = match op {
                Comparison::Lt => x < y,
                Comparison::LtEq => x <= y,
                Comparison::Gt => x > y,
                Comparison::GtEq => x >= y,
            };
            Ok(ScalarValue::Boolean(Some(holds)))
        },
        _ => match numeric_order(a, b, floats) {
            Err(error) => Err(error),
            Ok(FloatOrder::Unordered) => Err(ExprError::NotComparable),
            Ok(order) => {
                let holds: bool = match op {
                    Comparison::Lt => order == FloatOrder::Less,
                    Comparison::LtEq => order != FloatOrder::Greater,
                    Comparison::Gt => order == FloatOrder::Greater,
                    Comparison::GtEq => order != FloatOrder::Less,
                };
                Ok(ScalarValue::Boolean(Some(holds)))
            },
        },
    }
}

fn eval_numeric(
    expr: &Expr,
    row: &Row,
    floats: &FloatResults,
) -> (number: Result<NumericValue, ExprError>)
    ensures
        number == match outcome_with(*expr, values::row_view(row@), floats@) {
            Ok(value) => numeric_operand(value),
            Err(error) => Err(error),
        },
    decreases *expr, 1nat,
{
    match evaluate_with(expr, row, floats) {
        Ok(value) => read_operand(&value),
        Err(error) => Err(error),
    }
}

/// The left operand together with the right one, which is looked at only if the left one is a
/// number.
fn eval_numeric_pair(
    left: Result<NumericValue, ExprError>,
    right: &Expr,
    row: &Row,
    floats: &FloatResults,
) -> (pair:
    Result<(NumericValue, NumericValue), ExprError>)
    ensures
        match left {
            Err(error) => pair == Err::<(NumericValue, NumericValue), ExprError>(error),
            Ok(a) => match outcome_with(*right, values::row_view(row@), floats@) {
                Err(error) => pair == Err::<(NumericValue, NumericValue), ExprError>(error),
                Ok(r) => match numeric_operand(r) {
                    Err(error) => pair == Err::<(NumericValue, NumericValue), ExprError>(error),
                    Ok(b) => pair == Ok::<(NumericValue, NumericValue), ExprError>((a, b)),
                },
            },
        },
    decreases *right, 2nat,
{
    match left {
        Err(error) => Err(error),
        Ok(a) => match eval_numeric(right, row, floats) {
            Err(error) => Err(error),
            Ok(b) => Ok((a, b)),
        },
    }
}

fn eval_int64(expr: &Expr, row: &Row, floats: &FloatResults) -> (number: Result<i64, ExprError>)
    ensures
        number == match outcome_with(*expr, values::row_view(row@), floats@) {
            Ok(value) => integer_operand(value),
            Err(error) => Err(error),
        },
    decreases *expr, 1nat,
{
    match evaluate_with(expr, row, floats) {
        Ok(ScalarValue::Int64(Some(v))) => Ok(v),
        Ok(ScalarValue::Int64(None)) => Err(ExprError::NullInteger),
        Ok(_) => Err(ExprError::NotInteger),
        Err(error) => Err(error),
    }
}

/// Evaluates a condition over a row, with results of operations on floats; a null counts as false.
pub fn evaluate_bool_with(
    expr: &Expr,
    row: &Row,
    floats: &FloatResults,
) -> (holds: Result<bool, ExprError>)
    ensures
        holds == condition_outcome(outcome_with(*expr, values::row_view(row@), floats@)),
    decreases *expr, 1nat,
{
    match evaluate_with(expr, row, floats) {
        Ok(ScalarValue::Boolean(Some(b))) => Ok(b),
        Ok(ScalarValue::Boolean(None)) => Ok(false),
        Ok(_) => Err(ExprError::NotBoolean),
        Err(error) => Err(error),
    }
}

fn finish_arithmetic(
    op: Arithmetic,
    pair: Result<(NumericValue, NumericValue), ExprError>,
    floats: &FloatResults,
) -> (value: Result<ScalarValue, ExprError>)
    ensures
        value_result(value) == match pair {
            Err(error) => Err(error),
            Ok(p) => arithmetic_outcome(op, p.0, p.1, floats@),
        },
{
    match pair {
        Err(error) => Err(error),
        Ok((a, b)) => compute(op, a, b, floats),
    }
}

fn finish_comparison(
    op: Comparison,
    pair: Result<(NumericValue, NumericValue), ExprError>,
    floats: &FloatResults,
) -> (value: Result<ScalarValue, ExprError>)
    ensures
        value_result(value) == match pair {
            Err(error) => Err(error),
            Ok(p) => comparison_outcome(op, p.0, p.1, floats@),
        },
{
    match pair {
        Err(error) => Err(error),
        Ok((a, b)) => compare_numeric(op, a, b, floats),
    }
}

fn finish_equality(
    left: Result<ScalarValue, ExprError>,
    right: Result<ScalarValue, ExprError>,
    negated: bool,
    floats: &FloatResults,
) -> (value: Result<ScalarValue, ExprError>)
    ensures
        value_result(value) == equality_outcome(value_result(left), value_result(right), negated, floats@),
{
    match left {
        Err(error) => Err(error),
        Ok(a) => match right {
            Err(error) => Err(error),
            Ok(b) => match scalar_equal(&a, &b, floats) {
                Ok(equal) => Ok(ScalarValue::Boolean(Some(equal != negated))),
                Err(error) => Err(error),
            },
        },
    }
}

/// Evaluates an expression over a row, with results of operations on floats.
pub fn evaluate_with(
    expr: &Expr,
    row: &Row,
    floats: &FloatResults,
) -> (value: Result<ScalarValue, ExprError>)
    ensures
        value_result(value) == outcome_with(*expr, values::row_view(row@), floats@),
    decreases *expr, 0nat,
{
    match expr {
        Expr::Column(index) => {
            if *index < row.len() {
                Ok(row[*index].clone())
            } else {
                Err(ExprError::ColumnOutOfBounds(*index))
            }
        },
        Expr::Literal(value) => Ok(value.clone()),
        Expr::Eq(l, r) => finish_equality(
            evaluate_with(l, row, floats),
            evaluate_with(r, row, floats),
            false,
            floats,
        ),
        Expr::NotEq(l, r) => finish_equality(
            evaluate_with(l, row, floats),
            evaluate_with(r, row, floats),
            true,
            floats,
        ),
        Expr::Lt(l, r) => finish_comparison(
            Comparison::Lt,
            eval_numeric_pair(eval_numeric(l, row, floats), r, row, floats),
            floats,
        ),
        Expr::LtEq(l, r) => finish_comparison(
            Comparison::LtEq,
            eval_numeric_pair(eval_numeric(l, row, floats), r, row, floats),
            floats,
        ),
        Expr::Gt(l, r) => finish_comparison(
            Comparison::Gt,
            eval_numeric_pair(eval_numeric(l, row, floats), r, row, floats),
            floats,
        ),
        Expr::GtEq(l, r) => finish_comparison(
            Comparison::GtEq,
            eval_numeric_pair(eval_numeric(l, row, floats), r, row, floats),
            floats,
        ),
        Expr::And(l, r) => match evaluate_bool_with(l, row, floats) {
            Err(error) => Err(error),
            Ok(false) => Ok(ScalarValue::Boolean(Some(false))),
            Ok(true) => match evaluate_bool_with(r, row, floats) {
                Err(error) => Err(error),
                Ok(b) => Ok(ScalarValue::Boolean(Some(b))),
            },
        },
        Expr::Or(l, r) => match evaluate_bool_with(l, row, floats) {
            Err(error) => Err(error),
            Ok(true) => Ok(ScalarValue::Boolean(Some(true))),
            Ok(false) => match evaluate_bool_with(r, row, floats) {
                Err(error) => Err(error),
                Ok(b) => Ok(ScalarValue::Boolean(Some(b))),
            },
        },
        Expr::Add(l, r) => finish_arithmetic(
            Arithmetic::Add,
            eval_numeric_pair(eval_numeric(l, row, floats), r, row, floats),
            floats,
        ),
        Expr::Sub(l, r) => finish_arithmetic(
            Arithmetic::Sub,
            eval_numeric_pair(eval_numeric(l, row, floats), r, row, floats),
            floats,
        ),
        Expr::Mul(l, r) => finish_arithmetic(
            Arithmetic::Mul,
            eval_numeric_pair(eval_numeric(l, row, floats), r, row, floats),
            floats,
        ),
        Expr::Div(l, r) => finish_arithmetic(
            Arithmetic::Div,
            eval_numeric_pair(eval_numeric(l, row, floats), r, row, floats),
            floats,
        ),
        Expr::Mod(l, r) => match eval_int64(l, row, floats) {
            Err(error) => Err(error),
            Ok(a) => match eval_int64(r, row, floats) {
                Err(error) => Err(error),
                Ok(b) => {
                    if b == 0 {
                        Err(ExprError::ModuloByZero)
                    } else if a == i64::MIN && b == -1 {
                        Err(ExprError::Overflow)
                    } else {
                        fit_integer(remainder_i64(a, b) as i128)
                    }
                },
            },
        },
        Expr::Neg(inner) => match eval_numeric(inner, row, floats) {
            Err(error) => Err(error),
            Ok(NumericValue::Int(v)) => fit_integer(-(v as i128)),
            Ok(NumericValue::Float(bits)) => Ok(ScalarValue::Float64(Some(negate_float(bits)))),
        },
        Expr::InList { expr, list, negated } => match evaluate_with(expr, row, floats) {
            Err(error) => Err(error),
            Ok(needle) => match eval_list(&needle, list, row, floats) {
                Err(error) => Err(error),
                Ok(contained) => Ok(ScalarValue::Boolean(Some(contained != *negated))),
            },
        },
    }
}

/// Whether the needle is in the list.
fn eval_list(
    needle: &ScalarValue,
    list: &Vec<Expr>,
    row: &Row,
    floats: &FloatResults,
) -> (contained: Result<
    bool,
    ExprError,
>)
    ensures
        contained == list_contains(list@, needle@, list@.len(), values::row_view(row@), floats@),
    decreases list@, list@.len(),
{
    let ghost views = values::row_view(row@);
    let mut i: usize = 0;
    while i < list.len()
        invariant
            i <= list@.len(),
            views == values::row_view(row@),
            list_contains(list@, needle@, i as nat, views, floats@) == Ok::<bool, ExprError>(false),
        decreases list@.len() - i,
    {
        let equal: Result<bool, ExprError> = match evaluate_with(&list[i], row, floats) {
            Err(error) => Err(error),
            Ok(candidate) => scalar_equal(needle, &candidate, floats),
        };
        match equal {
            Ok(false) => {},
            ended => {
                proof {
                    lemma_list_ended(list@, needle@, (i + 1) as nat, list@.len(), views, floats@);
                }
                return ended;
            },
        }
        i = i + 1;
    }
    Ok(false)
}

/// Once the search in a list has ended, later values do not matter.
proof fn lemma_list_ended(
    list: Seq<Expr>,
    needle: ScalarView,
    n: nat,
    m: nat,
    row: Seq<ScalarView>,
    floats: FloatMath,
)
    requires
        list_contains(list, needle, n, row, floats) != Ok::<bool, ExprError>(false),
        n <= m <= list.len(),
    ensures
        list_contains(list, needle, m, row, floats) == list_contains(
            list,
            needle,
            n,
            row,
            floats,
        ),
    decreases m,
{
    if n < m {
        lemma_list_ended(list, needle, n, (m - 1) as nat, row, floats);
    }
}

/// A negated IN list is the opposite of the IN list, and inequality that of equality.
pub proof fn law_negations(
    needle: Expr,
    list: Vec<Expr>,
    left: Expr,
    right: Expr,
    row: Seq<ScalarView>,
    floats: FloatMath,
)
    ensures
        ({
            let found = outcome_with(
                Expr::InList { expr: Box::new(needle), list, negated: false },
                row,
                floats,
            );
            let missing = outcome_with(
                Expr::InList { expr: Box::new(needle), list, negated: true },
                row,
                floats,
            );
            &&& (found is Ok) == (missing is Ok)
            &&& found is Err ==> found == missing
            &&& found is Ok ==> condition_outcome(found) == Ok::<bool, ExprError>(
                !condition_outcome(missing)->Ok_0,
            )
        }),
        ({
            let equal = outcome_with(Expr::Eq(Box::new(left), Box::new(right)), row, floats);
            let different = outcome_with(Expr::NotEq(Box::new(left), Box::new(right)), row, floats);
            &&& (equal is Ok) == (different is Ok)
            &&& equal is Err ==> equal == different
            &&& equal is Ok ==> condition_outcome(equal) == Ok::<bool, ExprError>(
                !condition_outcome(different)->Ok_0,
            )
        }),
{
}

/// Evaluates an expression over a row, without results of operations on floats.
pub fn evaluate(expr: &Expr, row: &Row) -> (value: Result<ScalarValue, ExprError>)
    ensures
        value_result(value) == expr_outcome(*expr, values::row_view(row@)),
{
    evaluate_with(expr, row, &FloatResults::new())
}

/// Evaluates a condition over a row, without results of operations on floats; a null counts as
/// false.
pub fn evaluate_bool(expr: &Expr, row: &Row) -> (holds: Result<bool, ExprError>)
    ensures
        holds == condition_outcome(expr_outcome(*expr, values::row_view(row@))),
{
    evaluate_bool_with(expr, row, &FloatResults::new())
}

/// An outcome that depends on an operation on floats without a result.
pub open spec fn awaits(outcome: ExprOutcome) -> bool {
    outcome matches Err(ExprError::Awaits(_))
}

/// The evaluation asks for results that it does not have only; with more results it gives what it
/// gave, or what it waited for; and where every operation on floats has a result, it does not wait.
pub proof fn law_results_only_complete_the_evaluation(
    expr: Expr,
    row: Seq<ScalarView>,
    some: FloatMath,
    more: FloatMath,
)
    requires
        some.within(more),
    ensures
        outcome_with(expr, row, some) matches Err(ExprError::Awaits(call)) ==> !some.answers(call),
        awaits(outcome_with(expr, row, some)) || outcome_with(expr, row, more) == outcome_with(
            expr,
            row,
            some,
        ),
        some.is_total() ==> !awaits(outcome_with(expr, row, some)),
    decreases expr, 0nat,
{
    match expr {
        Expr::Column(_) => {},
        Expr::Literal(_) => {},
        Expr::Eq(l, r) | Expr::NotEq(l, r) | Expr::Lt(l, r) | Expr::LtEq(l, r) | Expr::Gt(l, r)
        | Expr::GtEq(l, r) | Expr::And(l, r) | Expr::Or(l, r) | Expr::Add(l, r) | Expr::Sub(l, r)
        | Expr::Mul(l, r) | Expr::Div(l, r) | Expr::Mod(l, r) => {
            law_results_only_complete_the_evaluation(*l, row, some, more);
            law_results_only_complete_the_evaluation(*r, row, some, more);
            lemma_answers(some);
        },
        Expr::Neg(inner) => {
            law_results_only_complete_the_evaluation(*inner, row, some, more);
        },
        Expr::InList { expr: needle, list, negated: _ } => {
            law_results_only_complete_the_evaluation(*needle, row, some, more);
            match outcome_with(*needle, row, some) {
                Ok(found) => {
                    lemma_list_completed(list@, found, list@.len(), row, some, more);
                },
                Err(_) => {},
            }
        },
    }
}

/// Where every operation has a result, each has.
proof fn lemma_answers(floats: FloatMath)
    ensures
        floats.is_total() ==> forall|op: Arithmetic, a: NumericValue, b: NumericValue|
            #[trigger] floats.numbers.dom().contains(FloatCall::Compute(op, a, b)),
        floats.is_total() ==> forall|a: NumericValue, b: NumericValue|
            #[trigger] floats.orders.dom().contains(FloatCall::Order(a, b)),
{
    if floats.is_total() {
        assert forall|op: Arithmetic, a: NumericValue, b: NumericValue|
            #[trigger] floats.numbers.dom().contains(FloatCall::Compute(op, a, b)) by {
            assert(floats.answers(FloatCall::Compute(op, a, b)));
        }
        assert forall|a: NumericValue, b: NumericValue|
            #[trigger] floats.orders.dom().contains(FloatCall::Order(a, b)) by {
            assert(floats.answers(FloatCall::Order(a, b)));
        }
    }
}

/// The search in a list asks for results that it does not have only, and more results complete it.
proof fn lemma_list_completed(
    list: Seq<Expr>,
    needle: ScalarView,
    n: nat,
    row: Seq<ScalarView>,
    some: FloatMath,
    more: FloatMath,
)
    requires
        some.within(more),
        n <= list.len(),
    ensures
        list_contains(list, needle, n, row, some) matches Err(ExprError::Awaits(call))
            ==> !some.answers(call),
        list_contains(list, needle, n, row, some) matches Err(ExprError::Awaits(_)) || list_contains(
            list,
            needle,
            n,
            row,
            more,
        ) == list_contains(list, needle, n, row, some),
        some.is_total() ==> !(list_contains(list, needle, n, row, some) matches Err(
            ExprError::Awaits(_),
        )),
    decreases list, n,
{
    if n > 0 {
        lemma_list_completed(list, needle, (n - 1) as nat, row, some, more);
        law_results_only_complete_the_evaluation(list[n - 1], row, some, more);
        lemma_answers(some);
    }
}

/// A column has the value of the row at its position, if the row is long enough, and a constant its
/// own.
pub proof fn law_columns_and_constants(
    index: usize,
    value: ScalarValue,
    row: Seq<ScalarView>,
    floats: FloatMath,
)
    ensures
        index < row.len() ==> outcome_with(Expr::Column(index), row, floats) == Ok::<
            ScalarView,
            ExprError,
        >(row[index as int]),
        index >= row.len() ==> outcome_with(Expr::Column(index), row, floats) == Err::<
            ScalarView,
            ExprError,
        >(ExprError::ColumnOutOfBounds(index)),
        outcome_with(Expr::Literal(value), row, floats) == Ok::<ScalarView, ExprError>(value@),
{
}

/// A truth value as what an expression gives.
pub open spec fn truth(b: bool) -> ExprOutcome {
    Ok(ScalarView::Boolean(Some(b)))
}

/// An integer as what an expression gives.
pub open spec fn whole(v: int) -> ExprOutcome {
    Ok(ScalarView::Int64(Some(v as i64)))
}

/// The comparisons order integers: one less than the other is before it, and of the six
/// comparisons of two operands each is told by the others. `a <= b` is not `a > b`, and it is `a <
/// b` or `a = b`; `a < b` is `b > a`; and just one of `a < b`, `a = b` and `a > b` holds.
pub proof fn law_comparisons_order_integers(
    l: Expr,
    r: Expr,
    x: i64,
    y: i64,
    row: Seq<ScalarView>,
    floats: FloatMath,
)
    requires
        outcome_with(l, row, floats) == whole(x as int),
        outcome_with(r, row, floats) == whole(y as int),
    ensures
        ({
            let lt = outcome_with(Expr::Lt(Box::new(l), Box::new(r)), row, floats);
            let le = outcome_with(Expr::LtEq(Box::new(l), Box::new(r)), row, floats);
            let gt = outcome_with(Expr::Gt(Box::new(l), Box::new(r)), row, floats);
            let ge = outcome_with(Expr::GtEq(Box::new(l), Box::new(r)), row, floats);
            let eq = outcome_with(Expr::Eq(Box::new(l), Box::new(r)), row, floats);
            let ne = outcome_with(Expr::NotEq(Box::new(l), Box::new(r)), row, floats);
            let back_lt = outcome_with(Expr::Lt(Box::new(r), Box::new(l)), row, floats);
            let back_le = outcome_with(Expr::LtEq(Box::new(r), Box::new(l)), row, floats);
            &&& lt == truth(y - x > 0)
            &&& eq == truth(y - x == 0)
            &&& gt == truth(y - x < 0)
            &&& le == truth(gt == truth(false))
            &&& le == truth(lt == truth(true) || eq == truth(true))
            &&& ge == truth(lt == truth(false))
            &&& ge == truth(gt == truth(true) || eq == truth(true))
            &&& ne == truth(eq == truth(false))
            &&& back_lt == gt
            &&& back_le == ge
        }),
{
}

/// The comparisons of floats agree with each other: where two numbers have an order, just one of
/// `<`, `=` and `>` holds, `<=` is not `>`, and `>=` is not `<`. Where they have none, they are not
/// equal, and no other comparison has a value.
pub proof fn law_comparisons_order_floats(
    l: Expr,
    r: Expr,
    a: NumericValue,
    b: NumericValue,
    row: Seq<ScalarView>,
    floats: FloatMath,
)
    requires
        outcome_with(l, row, floats) matches Ok(value) && number_in(value) == Some(a),
        outcome_with(r, row, floats) matches Ok(value) && number_in(value) == Some(b),
        a is Float || b is Float,
        floats.orders.dom().contains(FloatCall::Order(a, b)),
    ensures
        ({
            let order = floats.orders[FloatCall::Order(a, b)];
            let lt = outcome_with(Expr::Lt(Box::new(l), Box::new(r)), row, floats);
            let le = outcome_with(Expr::LtEq(Box::new(l), Box::new(r)), row, floats);
            let gt = outcome_with(Expr::Gt(Box::new(l), Box::new(r)), row, floats);
            let ge = outcome_with(Expr::GtEq(Box::new(l), Box::new(r)), row, floats);
            let eq = outcome_with(Expr::Eq(Box::new(l), Box::new(r)), row, floats);
            let ne = outcome_with(Expr::NotEq(Box::new(l), Box::new(r)), row, floats);
            &&& ne == truth(eq == truth(false))
            &&& eq == truth(order is Equal)
            &&& order is Unordered ==> {
                let none = Err::<ScalarView, ExprError>(ExprError::NotComparable);
                lt == none && le == none && gt == none && ge == none
            }
            &&& !(order is Unordered) ==> {
                &&& lt == truth(order is Less)
                &&& gt == truth(order is Greater)
                &&& le == truth(gt == truth(false))
                &&& ge == truth(lt == truth(false))
                &&& eq == truth(le == truth(true) && ge == truth(true))
            }
        }),
{
}

/// Equality of values: a value equals itself and what is the same value, and two integers, texts
/// or truth values that differ are not equal; nor are values of different kinds, of which one is
/// no number. Which operand comes first does not matter.
pub proof fn law_equality_of_values(
    l: Expr,
    r: Expr,
    a: ScalarView,
    b: ScalarView,
    row: Seq<ScalarView>,
    floats: FloatMath,
)
    requires
        outcome_with(l, row, floats) == Ok::<ScalarView, ExprError>(a),
        outcome_with(r, row, floats) == Ok::<ScalarView, ExprError>(b),
        !(a is Float64),
        !(b is Float64),
    ensures
        ({
            let eq = outcome_with(Expr::Eq(Box::new(l), Box::new(r)), row, floats);
            let back = outcome_with(Expr::Eq(Box::new(r), Box::new(l)), row, floats);
            &&& eq == back
            &&& a == b ==> eq == truth(true)
            &&& !(a is TimestampMillisecond) && a != b ==> eq == truth(false)
            &&& a matches ScalarView::TimestampMillisecond(at, _) ==> {
                eq == truth(b matches ScalarView::TimestampMillisecond(then, _) && then == at)
            }
        }),
{
}

/// `AND` and `OR` of two truth values are what logic says, a null counts as false, and where the
/// left operand decides, the right one is not looked at.
pub proof fn law_connectives(l: Expr, r: Expr, row: Seq<ScalarView>, floats: FloatMath)
    ensures
        ({
            let and = outcome_with(Expr::And(Box::new(l), Box::new(r)), row, floats);
            let or = outcome_with(Expr::Or(Box::new(l), Box::new(r)), row, floats);
            let left = outcome_with(l, row, floats);
            let right = outcome_with(r, row, floats);
            let a = left == truth(true);
            let b = right == truth(true);
            let known = |o: ExprOutcome| o matches Ok(ScalarView::Boolean(_));
            &&& known(left) && known(right) ==> and == truth(a && b) && or == truth(a || b)
            &&& known(left) && !a ==> and == truth(false)
            &&& known(left) && a ==> or == truth(true)
            &&& left is Err ==> and == left && or == left
            &&& known(left) && a && right is Err ==> and == right
            &&& known(left) && !a && right is Err ==> or == right
            &&& left is Ok && !known(left) ==> and == Err::<ScalarView, ExprError>(
                ExprError::NotBoolean,
            ) && or == Err::<ScalarView, ExprError>(ExprError::NotBoolean)
            &&& known(left) && a && right is Ok && !known(right) ==> and == Err::<
                ScalarView,
                ExprError,
            >(ExprError::NotBoolean)
            &&& known(left) && !a && right is Ok && !known(right) ==> or == Err::<
                ScalarView,
                ExprError,
            >(ExprError::NotBoolean)
        }),
{
}

/// A condition holds where its value is true; a null counts as false, and any other value is none.
pub proof fn law_conditions(value: ScalarView)
    ensures
        condition_outcome(truth(true)) == Ok::<bool, ExprError>(true),
        condition_outcome(truth(false)) == Ok::<bool, ExprError>(false),
        condition_outcome(Ok(ScalarView::Boolean(None))) == Ok::<bool, ExprError>(false),
        !(value is Boolean) ==> condition_outcome(Ok(value)) == Err::<bool, ExprError>(
            ExprError::NotBoolean,
        ),
{
}

/// Arithmetic on integers: sums, differences and products are those of the integers, and one that
/// does not fit into sixty-four bits is an overflow.
pub proof fn law_integer_arithmetic(
    l: Expr,
    r: Expr,
    x: i64,
    y: i64,
    row: Seq<ScalarView>,
    floats: FloatMath,
)
    requires
        outcome_with(l, row, floats) == whole(x as int),
        outcome_with(r, row, floats) == whole(y as int),
    ensures
        ({
            let fits = |v: int| i64::MIN <= v <= i64::MAX;
            let over = Err::<ScalarView, ExprError>(ExprError::Overflow);
            let add = outcome_with(Expr::Add(Box::new(l), Box::new(r)), row, floats);
            let sub = outcome_with(Expr::Sub(Box::new(l), Box::new(r)), row, floats);
            let mul = outcome_with(Expr::Mul(Box::new(l), Box::new(r)), row, floats);
            let neg = outcome_with(Expr::Neg(Box::new(l)), row, floats);
            &&& if fits(x + y) { add == whole(x + y) } else { add == over }
            &&& if fits(x - y) { sub == whole(x - y) } else { sub == over }
            &&& if fits(x * y) { mul == whole(x * y) } else { mul == over }
            &&& if x == i64::MIN { neg == over } else { neg == whole(0 - x) }
        }),
{
}

/// Taking off what was added gives back what there was.
pub proof fn law_difference_undoes_sum(
    l: Expr,
    r: Expr,
    x: i64,
    y: i64,
    row: Seq<ScalarView>,
    floats: FloatMath,
)
    requires
        outcome_with(l, row, floats) == whole(x as int),
        outcome_with(r, row, floats) == whole(y as int),
        i64::MIN <= x + y <= i64::MAX,
    ensures
        ({
            let sum = Expr::Add(Box::new(l), Box::new(r));
            &&& outcome_with(Expr::Sub(Box::new(sum), Box::new(r)), row, floats) == outcome_with(
                l,
                row,
                floats,
            )
            &&& outcome_with(Expr::Sub(Box::new(sum), Box::new(l)), row, floats) == outcome_with(
                r,
                row,
                floats,
            )
        }),
{
    let sum = Expr::Add(Box::new(l), Box::new(r));
    assert(outcome_with(sum, row, floats) == whole(x + y));
    law_integer_arithmetic(sum, r, (x + y) as i64, y, row, floats);
    law_integer_arithmetic(sum, l, (x + y) as i64, x, row, floats);
}

/// Division of integers: quotient times divisor plus remainder is the dividend, the remainder is
/// smaller than the divisor and has the sign of the dividend. There is neither of a zero divisor,
/// and the one quotient that does not fit is an overflow.
#[verifier::rlimit(40)]
pub proof fn law_integer_division(
    l: Expr,
    r: Expr,
    x: i64,
    y: i64,
    row: Seq<ScalarView>,
    floats: FloatMath,
)
    requires
        outcome_with(l, row, floats) == whole(x as int),
        outcome_with(r, row, floats) == whole(y as int),
    ensures
        ({
            let div = outcome_with(Expr::Div(Box::new(l), Box::new(r)), row, floats);
            let rem = outcome_with(Expr::Mod(Box::new(l), Box::new(r)), row, floats);
            if y == 0 {
                &&& div == Err::<ScalarView, ExprError>(ExprError::DivisionByZero)
                &&& rem == Err::<ScalarView, ExprError>(ExprError::ModuloByZero)
            } else if x == i64::MIN && y == -1 {
                &&& div == Err::<ScalarView, ExprError>(ExprError::Overflow)
                &&& rem == Err::<ScalarView, ExprError>(ExprError::Overflow)
            } else {
                &&& div matches Ok(ScalarView::Int64(Some(q)))
                &&& rem matches Ok(ScalarView::Int64(Some(m)))
                &&& q * y + m == x
                &&& -y < m < y || y < m < -y
                &&& x >= 0 ==> m >= 0
                &&& x <= 0 ==> m <= 0
            }
        }),
{
    if y != 0 && !(x == i64::MIN && y == -1) {
        let a = predicates::magnitude(x as int);
        let b = predicates::magnitude(y as int);
        let q = predicates::truncated_quotient(x as int, y as int);
        let m = predicates::truncated_remainder(x as int, y as int);
        vstd::arithmetic::div_mod::lemma_fundamental_div_mod(a as int, b as int);
        vstd::arithmetic::div_mod::lemma_mod_bound(a as int, b as int);
        let d = (a / b) as int;
        assert(0 <= d <= a) by (nonlinear_arith)
            requires
                d == a / b,
                a >= 0,
                b >= 1,
        ;
        if x == i64::MIN {
            assert(b >= 1);
            assert(y > 0 || b >= 2);
            if b >= 2 {
                assert(d < a) by (nonlinear_arith)
                    requires
                        d == a / b,
                        a > 0,
                        b >= 2,
                ;
            }
        }
        assert(b * d == y * d || b * d == -(y * d)) by (nonlinear_arith)
            requires
                b == y || b == -y,
        ;
        assert(q * y + m == x) by (nonlinear_arith)
            requires
                a == b * d + (a % b),
                a == (if x < 0 { -x } else { x as int }),
                b == (if y < 0 { -y } else { y as int }),
                q == (if (x < 0) == (y < 0) { d } else { -d }),
                m == (if x < 0 { -((a % b) as int) } else { (a % b) as int }),
        ;
        let q64 = q as i64;
        let m64 = m as i64;
        assert(q64 == q && m64 == m);
        assert((q64 * y) + m64 == x);
    }
}

/// Whether a value is in a list is whether it equals one of the values in it; `NOT IN` is the
/// opposite.
pub proof fn law_in_list_is_equality_with_one(
    needle: Expr,
    list: Vec<Expr>,
    negated: bool,
    row: Seq<ScalarView>,
    floats: FloatMath,
)
    requires
        outcome_with(needle, row, floats) is Ok,
        forall|i: int|
            0 <= i < list@.len() ==> (#[trigger] outcome_with(
                Expr::Eq(Box::new(needle), Box::new(list@[i])),
                row,
                floats,
            )) is Ok,
    ensures
        outcome_with(Expr::InList { expr: Box::new(needle), list, negated }, row, floats) == truth(
            negated != exists|i: int|
                0 <= i < list@.len() && #[trigger] outcome_with(
                    Expr::Eq(Box::new(needle), Box::new(list@[i])),
                    row,
                    floats,
                ) == truth(true),
        ),
{
    let value = outcome_with(needle, row, floats)->Ok_0;
    lemma_list_contains(needle, list@, value, list@.len(), row, floats);
}

proof fn lemma_list_contains(
    needle: Expr,
    list: Seq<Expr>,
    value: ScalarView,
    n: nat,
    row: Seq<ScalarView>,
    floats: FloatMath,
)
    requires
        outcome_with(needle, row, floats) == Ok::<ScalarView, ExprError>(value),
        n <= list.len(),
        forall|i: int|
            0 <= i < list.len() ==> (#[trigger] outcome_with(
                Expr::Eq(Box::new(needle), Box::new(list[i])),
                row,
                floats,
            )) is Ok,
    ensures
        list_contains(list, value, n, row, floats) == Ok::<bool, ExprError>(
            exists|i: int|
                0 <= i < n && #[trigger] outcome_with(
                    Expr::Eq(Box::new(needle), Box::new(list[i])),
                    row,
                    floats,
                ) == truth(true),
        ),
    decreases n,
{
    if n > 0 {
        lemma_list_contains(needle, list, value, (n - 1) as nat, row, floats);
        let last = outcome_with(Expr::Eq(Box::new(needle), Box::new(list[n - 1])), row, floats);
        assert(last is Ok);
        if exists|i: int|
            0 <= i < n - 1 && #[trigger] outcome_with(
                Expr::Eq(Box::new(needle), Box::new(list[i])),
                row,
                floats,
            ) == truth(true) {
            let i = choose|i: int|
                0 <= i < n - 1 && #[trigger] outcome_with(
                    Expr::Eq(Box::new(needle), Box::new(list[i])),
                    row,
                    floats,
                ) == truth(true);
            assert(0 <= i < n);
        } else if last == truth(true) {
            assert(0 <= n - 1 < n);
        }
    }
}

/// An expression whose operand has no value has none: the error is that of the left operand, or
/// else that of the right one.
pub proof fn law_errors_come_from_the_left(
    l: Expr,
    r: Expr,
    row: Seq<ScalarView>,
    floats: FloatMath,
)
    ensures
        ({
            let left = outcome_with(l, row, floats);
            let right = outcome_with(r, row, floats);
            let whole_ops = seq![
                Expr::Lt(Box::new(l), Box::new(r)),
                Expr::LtEq(Box::new(l), Box::new(r)),
                Expr::Gt(Box::new(l), Box::new(r)),
                Expr::GtEq(Box::new(l), Box::new(r)),
                Expr::Add(Box::new(l), Box::new(r)),
                Expr::Sub(Box::new(l), Box::new(r)),
                Expr::Mul(Box::new(l), Box::new(r)),
                Expr::Div(Box::new(l), Box::new(r)),
                Expr::Mod(Box::new(l), Box::new(r)),
            ];
            let eq = outcome_with(Expr::Eq(Box::new(l), Box::new(r)), row, floats);
            &&& left is Err ==> eq == left
            &&& left is Ok && right is Err ==> eq == right
            &&& left is Err ==> outcome_with(Expr::Neg(Box::new(l)), row, floats) == left
            &&& forall|i: int|
                0 <= i < whole_ops.len() ==> {
                    let outcome = #[trigger] outcome_with(whole_ops[i], row, floats);
                    &&& left is Err ==> outcome == left
                    &&& (left matches Ok(ScalarView::Int64(Some(_)))) && right is Err ==> outcome
                        == right
                    &&& left is Ok && number_in(left->Ok_0) is None ==> outcome is Err
                    &&& right is Ok && number_in(right->Ok_0) is None ==> outcome is Err
                }
        }),
{
}

/// Operands that are no numbers: a null is told from a value of another kind.
pub proof fn law_operands_are_numbers(value: ScalarView)
    ensures
        number_in(value) is Some ==> numeric_operand(value) == Ok::<NumericValue, ExprError>(
            number_in(value)->0,
        ),
        number_in(value) is None ==> numeric_operand(value) == Err::<NumericValue, ExprError>(
            if value is Int64 || value is Float64 {
                ExprError::NullNumeric
            } else {
                ExprError::NotNumeric
            },
        ),
        forall|v: i64| #[trigger]
            number_in(ScalarView::Int64(Some(v))) == Some(NumericValue::Int(v)) && integer_operand(
                ScalarView::Int64(Some(v)),
            ) == Ok::<i64, ExprError>(v),
        forall|bits: u64| #[trigger]
            number_in(ScalarView::Float64(Some(bits))) == Some(NumericValue::Float(bits)),
        !(value is Int64) ==> integer_operand(value) == Err::<i64, ExprError>(
            ExprError::NotInteger,
        ),
        value == ScalarView::Int64(None) ==> integer_operand(value) == Err::<i64, ExprError>(
            ExprError::NullInteger,
        ),
{
}

/// Arithmetic with a float has the result that is given for just this operation on just these
/// numbers; a division by a zero of either sign has none. The negation of a float changes its sign
/// and nothing else, and twice makes the float again.
pub proof fn law_float_arithmetic(
    l: Expr,
    r: Expr,
    a: NumericValue,
    b: NumericValue,
    row: Seq<ScalarView>,
    floats: FloatMath,
)
    requires
        outcome_with(l, row, floats) matches Ok(value) && number_in(value) == Some(a),
        outcome_with(r, row, floats) matches Ok(value) && number_in(value) == Some(b),
        a is Float || b is Float,
        floats.is_total(),
    ensures
        ({
            let given = |op: Arithmetic|
                Ok::<ScalarView, ExprError>(
                    ScalarView::Float64(Some(floats.numbers[FloatCall::Compute(op, a, b)])),
                );
            let zero = b == NumericValue::Int(0) || b == NumericValue::Float(0) || b
                == NumericValue::Float(0x8000_0000_0000_0000);
            &&& outcome_with(Expr::Add(Box::new(l), Box::new(r)), row, floats) == given(
                Arithmetic::Add,
            )
            &&& outcome_with(Expr::Sub(Box::new(l), Box::new(r)), row, floats) == given(
                Arithmetic::Sub,
            )
            &&& outcome_with(Expr::Mul(Box::new(l), Box::new(r)), row, floats) == given(
                Arithmetic::Mul,
            )
            &&& outcome_with(Expr::Div(Box::new(l), Box::new(r)), row, floats) == if zero {
                Err(ExprError::DivisionByZero)
            } else {
                given(Arithmetic::Div)
            }
            &&& a matches NumericValue::Float(bits) ==> {
                let once = Expr::Neg(Box::new(l));
                let twice = Expr::Neg(Box::new(once));
                &&& outcome_with(once, row, floats) matches Ok(ScalarView::Float64(Some(n)))
                    && n as int % 0x8000_0000_0000_0000 == bits as int % 0x8000_0000_0000_0000
                    && n != bits
                &&& outcome_with(twice, row, floats) == outcome_with(l, row, floats)
            }
        }),
{
    lemma_answers(floats);
    if let NumericValue::Float(bits) = a {
        let once = Expr::Neg(Box::new(l));
        assert(outcome_with(once, row, floats) == Ok::<ScalarView, ExprError>(
            ScalarView::Float64(Some(float_results::negated_float(bits))),
        ));
    }
}

} // verus!
