//! Rows computed from rows by a list of expressions.

use vstd::prelude::*;

use crate::expression;
use crate::expression::{EvalFailure, ExpressionEvaluator};
use crate::expression_eval::{DfExpr, Outcome, RowSchema};
use crate::values;
use crate::values::{Row, ScalarView};

verus! {

/// What evaluating a list of expressions comes to.
pub enum Projected {
    Row(Seq<ScalarView>),
    /// The first failure, from the first expression to the last.
    Failed(EvalFailure),
}

/// What the first `n` evaluators come to over a row.
pub open spec fn projected(
    evaluators: Seq<ExpressionEvaluator>,
    n: nat,
    row: Seq<ScalarView>,
) -> Projected
    decreases n,
{
    if n == 0 || n > evaluators.len() {
        Projected::Row(Seq::empty())
    } else {
        match projected(evaluators, (n - 1) as nat, row) {
            Projected::Failed(failure) => Projected::Failed(failure),
            Projected::Row(values) => match evaluators[n - 1].outcome(row) {
                Outcome::Value(value) => Projected::Row(values.push(value)),
                failed => Projected::Failed(expression::outcome_failure(failed)),
            },
        }
    }
}

/// The projection that a result stands for.
pub open spec fn projection_result(result: Result<Row, EvalFailure>) -> Projected {
    match result {
        Ok(row) => Projected::Row(values::row_view(row@)),
        Err(failure) => Projected::Failed(failure),
    }
}

/// Computes one output column per expression.
pub struct ProjectionEvaluator {
    pub evaluators: Vec<ExpressionEvaluator>,
}

impl ProjectionEvaluator {
    /// An evaluator of `exprs` over rows of `input_schema`.
    pub fn new(input_schema: &RowSchema, exprs: Vec<DfExpr>) -> (evaluator: Self)
        ensures
            evaluator.evaluators@.len() == exprs@.len(),
            forall|i: int|
                0 <= i < exprs@.len() ==> (#[trigger] evaluator.evaluators@[i]).expr == exprs@[i]
                    && evaluator.evaluators@[i].schema.fields@ == input_schema.fields@,
    {
        let mut evaluators: Vec<ExpressionEvaluator> = Vec::new();
        for expr in it: exprs
            invariant
                it.seq() == exprs@,
                evaluators@.len() == it.index(),
                forall|i: int|
                    0 <= i < it.index() ==> (#[trigger] evaluators@[i]).expr == exprs@[i]
                        && evaluators@[i].schema.fields@ == input_schema.fields@,
        {
            evaluators.push(ExpressionEvaluator::new(input_schema.copy(), expr));
        }
        ProjectionEvaluator { evaluators }
    }

    /// The projected row.
    pub fn project(&self, input: &Row) -> (output: Result<Row, EvalFailure>)
        ensures
            projection_result(output) == projected(
                self.evaluators@,
                self.evaluators@.len(),
                values::row_view(input@),
            ),
    {
        let ghost views = values::row_view(input@);
        let mut output: Row = Vec::new();
        let mut i: usize = 0;
        assert(values::row_view(output@) =~= Seq::<ScalarView>::empty());
        while i < self.evaluators.len()
            invariant
                i <= self.evaluators@.len(),
                views == values::row_view(input@),
                projected(self.evaluators@, i as nat, views) == Projected::Row(
                    values::row_view(output@),
                ),
            decreases self.evaluators@.len() - i,
        {
            match self.evaluators[i].eval(input) {
                Ok(value) => {
                    let ghost before = values::row_view(output@);
                    output.push(value);
                    assert(values::row_view(output@) =~= before.push(value@));
                },
                Err(failure) => {
                    proof {
                        lemma_projection_ended(
                            self.evaluators@,
                            (i + 1) as nat,
                            self.evaluators@.len(),
                            views,
                        );
                    }
                    return Err(failure);
                },
            }
            i = i + 1;
        }
        Ok(output)
    }
}

/// Once an expression has no value, later ones do not matter.
proof fn lemma_projection_ended(
    evaluators: Seq<ExpressionEvaluator>,
    n: nat,
    m: nat,
    row: Seq<ScalarView>,
)
    requires
        projected(evaluators, n, row) is Failed,
        n <= m <= evaluators.len(),
    ensures
        projected(evaluators, m, row) == projected(evaluators, n, row),
    decreases m,
{
    if n < m {
        lemma_projection_ended(evaluators, n, (m - 1) as nat, row);
    }
}

/// A projected row has the value of each expression, in their order; where one has none the row
/// has none either, and the first such expression tells why.
pub proof fn law_projected_row_has_a_value_per_expression(
    evaluators: Seq<ExpressionEvaluator>,
    n: nat,
    row: Seq<ScalarView>,
)
    requires
        n <= evaluators.len(),
    ensures
        match projected(evaluators, n, row) {
            Projected::Row(found) => {
                &&& found.len() == n
                &&& forall|i: int|
                    0 <= i < n ==> evaluators[i].outcome(row) == Outcome::Value(#[trigger] found[i])
            },
            Projected::Failed(failure) => exists|i: int|
                {
                    &&& 0 <= i < n
                    &&& !((#[trigger] evaluators[i]).outcome(row) is Value)
                    &&& failure == expression::outcome_failure(evaluators[i].outcome(row))
                    &&& forall|j: int|
                        0 <= j < i ==> (#[trigger] evaluators[j]).outcome(row) is Value
                },
        },
    decreases n,
{
    if n > 0 {
        law_projected_row_has_a_value_per_expression(evaluators, (n - 1) as nat, row);
        match projected(evaluators, (n - 1) as nat, row) {
            Projected::Row(front) => {
                assert forall|j: int| 0 <= j < n - 1 implies (#[trigger] evaluators[j]).outcome(
                    row,
                ) is Value by {
                    assert(evaluators[j].outcome(row) == Outcome::Value(front[j]));
                }
                match evaluators[n - 1].outcome(row) {
                    Outcome::Value(value) => {
                        let found = front.push(value);
                        assert forall|i: int| 0 <= i < n implies evaluators[i].outcome(row)
                            == Outcome::Value(#[trigger] found[i]) by {
                            if i < n - 1 {
                                assert(found[i] == front[i]);
                            }
                        }
                    },
                    _ => {
                        assert(!(evaluators[n - 1].outcome(row) is Value));
                    },
                }
            },
            Projected::Failed(_) => {},
        }
    }
}

} // verus!
