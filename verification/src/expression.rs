//! Expressions bound to the schema of the rows that they are evaluated over.

use vstd::prelude::*;

use crate::expression_eval;
use crate::expression_eval::{
    eval_total, scalar_to_bool, DfExpr, EvalError, Evaluated, Outcome, RowSchema,
};
use crate::values;
use crate::values::{Row, ScalarValue, ScalarView};

verus! {

/// Why an evaluation gave no value.
#[derive(Clone, Copy, Debug, PartialEq, Eq, Structural)]
pub enum EvalFailure {
    /// The expression has no value.
    Error(EvalError),
    /// Integer arithmetic leaves its range, a divisor is zero, or a date pattern is malformed.
    Panics,
}

/// What evaluating a condition comes to.
pub enum Condition {
    Holds(bool),
    Failed(EvalFailure),
}

/// The outcome that an evaluation result stands for.
pub open spec fn eval_result(result: Result<ScalarValue, EvalFailure>) -> Outcome {
    match result {
        Ok(value) => Outcome::Value(value@),
        Err(EvalFailure::Error(error)) => Outcome::Error(error),
        Err(EvalFailure::Panics) => Outcome::Panics,
    }
}

/// The failure that an outcome other than a value stands for.
pub open spec fn outcome_failure(outcome: Outcome) -> EvalFailure {
    match outcome {
        Outcome::Error(error) => EvalFailure::Error(error),
        _ => EvalFailure::Panics,
    }
}

/// The outcome of a condition: unknown counts as false.
pub open spec fn condition_of(outcome: Outcome) -> Condition {
    match outcome {
        Outcome::Value(value) => match expression_eval::condition_value(value) {
            Ok(holds) => Condition::Holds(holds),
            Err(error) => Condition::Failed(EvalFailure::Error(error)),
        },
        failed => Condition::Failed(outcome_failure(failed)),
    }
}

/// The condition that a result stands for.
pub open spec fn condition_result(result: Result<bool, EvalFailure>) -> Condition {
    match result {
        Ok(holds) => Condition::Holds(holds),
        Err(failure) => Condition::Failed(failure),
    }
}

/// Evaluates an expression against decoded rows.
pub struct ExpressionEvaluator {
    pub schema: RowSchema,
    pub expr: DfExpr,
}

impl ExpressionEvaluator {
    /// What the expression comes to over a row.
    pub open spec fn outcome(self, row: Seq<ScalarView>) -> Outcome {
        expression_eval::eval_outcome(self.expr, row, expression_eval::field_names(self.schema))
    }

    /// An evaluator of `expr` over rows of `schema`.
    pub fn new(schema: RowSchema, expr: DfExpr) -> (evaluator: Self)
        ensures
            evaluator.schema == schema,
            evaluator.expr == expr,
    {
        ExpressionEvaluator { schema, expr }
    }

    /// The value of the expression over a row.
    pub fn eval(&self, row: &Row) -> (value: Result<ScalarValue, EvalFailure>)
        ensures
            eval_result(value) == self.outcome(values::row_view(row@)),
    {
        match eval_total(&self.expr, row, &self.schema) {
            Evaluated::Value(value) => Ok(value),
            Evaluated::Error(error) => Err(EvalFailure::Error(error)),
            Evaluated::Panics => Err(EvalFailure::Panics),
        }
    }

    /// Whether the expression holds for a row; unknown counts as false.
    pub fn eval_bool(&self, row: &Row) -> (holds: Result<bool, EvalFailure>)
        ensures
            condition_result(holds) == condition_of(self.outcome(values::row_view(row@))),
    {
        match self.eval(row) {
            Err(failure) => Err(failure),
            Ok(value) => match scalar_to_bool(&value) {
                Ok(holds) => Ok(holds),
                Err(error) => Err(EvalFailure::Error(error)),
            },
        }
    }
}

/// A condition holds where its value is true: false and unknown do not, and a failure is told as
/// it came.
pub proof fn law_conditions_of_outcomes(outcome: Outcome)
    ensures
        outcome matches Outcome::Value(ScalarView::Boolean(Some(truth))) ==> condition_of(outcome)
            == Condition::Holds(truth),
        outcome == Outcome::Value(ScalarView::Null) || outcome == Outcome::Value(
            ScalarView::Boolean(None),
        ) ==> condition_of(outcome) == Condition::Holds(false),
        condition_of(outcome) == Condition::Holds(true) ==> outcome == Outcome::Value(
            ScalarView::Boolean(Some(true)),
        ) || (outcome matches Outcome::Value(value) && !values::null_value(value)),
        outcome matches Outcome::Error(error) ==> condition_of(outcome) == Condition::Failed(
            EvalFailure::Error(error),
        ),
        outcome is Panics ==> condition_of(outcome) == Condition::Failed(EvalFailure::Panics),
{
}

} // verus!
