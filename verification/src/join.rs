//! Matching of the rows of two inputs.

use vstd::prelude::*;

use crate::expression;
use crate::expression::{Condition, EvalFailure, ExpressionEvaluator};
use crate::expression_eval;
use crate::expression_eval::{scalar_equals, DfExpr, Outcome, RowSchema};
use crate::values;
use crate::values::{concat_rows, Row, ScalarValue, ScalarView};

verus! {

/// How far comparing the keys of two rows came.
pub enum KeyComparison {
    /// All keys so far are equal.
    Equal,
    /// A key differs or is null, or evaluating one went wrong.
    Ended(Condition),
}

/// How far collecting the key of a row came.
pub enum KeyValues {
    Values(Seq<ScalarView>),
    /// A part of the key is null.
    HasNull,
    Failed(EvalFailure),
}

/// How comparing the first `n` keys of two rows ends.
pub open spec fn compared_keys(
    keys: Seq<(ExpressionEvaluator, ExpressionEvaluator)>,
    n: nat,
    left: Seq<ScalarView>,
    right: Seq<ScalarView>,
) -> KeyComparison
    decreases n,
{
    if n == 0 || n > keys.len() {
        KeyComparison::Equal
    } else {
        match compared_keys(keys, (n - 1) as nat, left, right) {
            KeyComparison::Ended(condition) => KeyComparison::Ended(condition),
            KeyComparison::Equal => match keys[n - 1].0.outcome(left) {
                Outcome::Value(l) => match keys[n - 1].1.outcome(right) {
                    Outcome::Value(r) => if expression_eval::equal_values(l, r) == Some(true) {
                        KeyComparison::Equal
                    } else {
                        KeyComparison::Ended(Condition::Holds(false))
                    },
                    failed => KeyComparison::Ended(
                        Condition::Failed(expression::outcome_failure(failed)),
                    ),
                },
                failed => KeyComparison::Ended(
                    Condition::Failed(expression::outcome_failure(failed)),
                ),
            },
        }
    }
}

/// The side of a key.
pub open spec fn key_side(
    key: (ExpressionEvaluator, ExpressionEvaluator),
    left_side: bool,
) -> ExpressionEvaluator {
    if left_side {
        key.0
    } else {
        key.1
    }
}

/// The first `n` parts of the key of a row.
pub open spec fn collected_key(
    keys: Seq<(ExpressionEvaluator, ExpressionEvaluator)>,
    left_side: bool,
    n: nat,
    row: Seq<ScalarView>,
) -> KeyValues
    decreases n,
{
    if n == 0 || n > keys.len() {
        KeyValues::Values(Seq::empty())
    } else {
        match collected_key(keys, left_side, (n - 1) as nat, row) {
            KeyValues::Values(values) => match key_side(keys[n - 1], left_side).outcome(row) {
                Outcome::Value(value) => if values::null_value(value) {
                    KeyValues::HasNull
                } else {
                    KeyValues::Values(values.push(value))
                },
                failed => KeyValues::Failed(expression::outcome_failure(failed)),
            },
            ended => ended,
        }
    }
}

/// The key that a result stands for.
pub open spec fn key_result(result: Result<Option<Row>, EvalFailure>) -> KeyValues {
    match result {
        Ok(Some(key)) => KeyValues::Values(values::row_view(key@)),
        Ok(None) => KeyValues::HasNull,
        Err(failure) => KeyValues::Failed(failure),
    }
}

/// Decides which rows of two inputs belong together.
pub struct JoinEvaluator {
    pub key_evaluators: Vec<(ExpressionEvaluator, ExpressionEvaluator)>,
    pub residual: Option<ExpressionEvaluator>,
}

impl JoinEvaluator {
    /// The condition beyond the keys, over the values of both rows.
    pub open spec fn residual_condition(
        self,
        left: Seq<ScalarView>,
        right: Seq<ScalarView>,
    ) -> Condition {
        match self.residual {
            Some(residual) => expression::condition_of(residual.outcome(left + right)),
            None => Condition::Holds(true),
        }
    }

    /// Whether two rows belong together.
    pub open spec fn match_condition(
        self,
        left: Seq<ScalarView>,
        right: Seq<ScalarView>,
    ) -> Condition {
        match compared_keys(self.key_evaluators@, self.key_evaluators@.len(), left, right) {
            KeyComparison::Ended(condition) => condition,
            KeyComparison::Equal => self.residual_condition(left, right),
        }
    }

    /// An evaluator of equalities between the keys of both sides and of a further condition over
    /// the values of both.
    pub fn new(
        left_schema: &RowSchema,
        right_schema: &RowSchema,
        output_schema: &RowSchema,
        keys: Vec<(DfExpr, DfExpr)>,
        residual: Option<DfExpr>,
    ) -> (evaluator: Self)
        ensures
            evaluator.key_evaluators@.len() == keys@.len(),
            forall|i: int|
                0 <= i < keys@.len() ==> {
                    &&& (#[trigger] evaluator.key_evaluators@[i]).0.expr == keys@[i].0
                    &&& evaluator.key_evaluators@[i].0.schema.fields@ == left_schema.fields@
                    &&& evaluator.key_evaluators@[i].1.expr == keys@[i].1
                    &&& evaluator.key_evaluators@[i].1.schema.fields@ == right_schema.fields@
                },
            match evaluator.residual {
                Some(e) => residual == Some(e.expr) && e.schema.fields@ == output_schema.fields@,
                None => residual is None,
            },
    {
        let mut key_evaluators: Vec<(ExpressionEvaluator, ExpressionEvaluator)> = Vec::new();
        for key in it: keys
            invariant
                it.seq() == keys@,
                key_evaluators@.len() == it.index(),
                forall|i: int|
                    0 <= i < it.index() ==> {
                        &&& (#[trigger] key_evaluators@[i]).0.expr == keys@[i].0
                        &&& key_evaluators@[i].0.schema.fields@ == left_schema.fields@
                        &&& key_evaluators@[i].1.expr == keys@[i].1
                        &&& key_evaluators@[i].1.schema.fields@ == right_schema.fields@
                    },
        {
            let (left_expr, right_expr) = key;
            key_evaluators.push(
                (
                    ExpressionEvaluator::new(left_schema.copy(), left_expr),
                    ExpressionEvaluator::new(right_schema.copy(), right_expr),
                ),
            );
        }
        let residual_evaluator = match residual {
            Some(expr) => Some(ExpressionEvaluator::new(output_schema.copy(), expr)),
            None => None,
        };
        JoinEvaluator { key_evaluators, residual: residual_evaluator }
    }

    /// Whether two rows belong together: all keys are equal and not null, and the further
    /// condition holds.
    pub fn matches(&self, left: &Row, right: &Row) -> (matched: Result<bool, EvalFailure>)
        ensures
            expression::condition_result(matched) == self.match_condition(
                values::row_view(left@),
                values::row_view(right@),
            ),
    {
        let ghost l = values::row_view(left@);
        let ghost r = values::row_view(right@);
        let mut i: usize = 0;
        while i < self.key_evaluators.len()
            invariant
                i <= self.key_evaluators@.len(),
                l == values::row_view(left@),
                r == values::row_view(right@),
                compared_keys(self.key_evaluators@, i as nat, l, r) == KeyComparison::Equal,
            decreases self.key_evaluators@.len() - i,
        {
            let left_value: ScalarValue = match self.key_evaluators[i].0.eval(left) {
                Ok(value) => value,
                Err(failure) => {
                    proof {
                        lemma_comparison_ended(
                            self.key_evaluators@,
                            (i + 1) as nat,
                            self.key_evaluators@.len(),
                            l,
                            r,
                        );
                    }
                    return Err(failure);
                },
            };
            let right_value: ScalarValue = match self.key_evaluators[i].1.eval(right) {
                Ok(value) => value,
                Err(failure) => {
                    proof {
                        lemma_comparison_ended(
                            self.key_evaluators@,
                            (i + 1) as nat,
                            self.key_evaluators@.len(),
                            l,
                            r,
                        );
                    }
                    return Err(failure);
                },
            };
            let equal: bool = match scalar_equals(&left_value, &right_value) {
                Some(equal) => equal,
                None => false,
            };
            if !equal {
                proof {
                    lemma_comparison_ended(
                        self.key_evaluators@,
                        (i + 1) as nat,
                        self.key_evaluators@.len(),
                        l,
                        r,
                    );
                }
                return Ok(false);
            }
            i = i + 1;
        }
        self.residual_matches(left, right)
    }

    fn side_key(&self, row: &Row, left_side: bool) -> (key: Result<Option<Row>, EvalFailure>)
        ensures
            key_result(key) == collected_key(
                self.key_evaluators@,
                left_side,
                self.key_evaluators@.len(),
                values::row_view(row@),
            ),
    {
        let ghost views = values::row_view(row@);
        let mut key: Row = Vec::new();
        let mut i: usize = 0;
        assert(values::row_view(key@) =~= Seq::<ScalarView>::empty());
        while i < self.key_evaluators.len()
            invariant
                i <= self.key_evaluators@.len(),
                views == values::row_view(row@),
                collected_key(self.key_evaluators@, left_side, i as nat, views)
                    == KeyValues::Values(values::row_view(key@)),
            decreases self.key_evaluators@.len() - i,
        {
            let evaluated = if left_side {
                self.key_evaluators[i].0.eval(row)
            } else {
                self.key_evaluators[i].1.eval(row)
            };
            match evaluated {
                Err(failure) => {
                    proof {
                        lemma_key_ended(
                            self.key_evaluators@,
                            left_side,
                            (i + 1) as nat,
                            self.key_evaluators@.len(),
                            views,
                        );
                    }
                    return Err(failure);
                },
                Ok(value) => {
                    if value.is_null() {
                        proof {
                            lemma_key_ended(
                                self.key_evaluators@,
                                left_side,
                                (i + 1) as nat,
                                self.key_evaluators@.len(),
                                views,
                            );
                        }
                        return Ok(None);
                    }
                    let ghost before = values::row_view(key@);
                    key.push(value);
                    assert(values::row_view(key@) =~= before.push(value@));
                },
            }
            i = i + 1;
        }
        Ok(Some(key))
    }

    /// The key of a row of the left input; nothing when a part of it is null.
    pub fn left_key(&self, left: &Row) -> (key: Result<Option<Row>, EvalFailure>)
        ensures
            key_result(key) == collected_key(
                self.key_evaluators@,
                true,
                self.key_evaluators@.len(),
                values::row_view(left@),
            ),
    {
        self.side_key(left, true)
    }

    /// The key of a row of the right input; nothing when a part of it is null.
    pub fn right_key(&self, right: &Row) -> (key: Result<Option<Row>, EvalFailure>)
        ensures
            key_result(key) == collected_key(
                self.key_evaluators@,
                false,
                self.key_evaluators@.len(),
                values::row_view(right@),
            ),
    {
        self.side_key(right, false)
    }

    /// Whether the condition beyond the keys holds.
    pub fn residual_matches(&self, left: &Row, right: &Row) -> (matched: Result<bool, EvalFailure>)
        ensures
            expression::condition_result(matched) == self.residual_condition(
                values::row_view(left@),
                values::row_view(right@),
            ),
    {
        match &self.residual {
            Some(residual) => {
                let combined = self.project(left, right);
                residual.eval_bool(&combined)
            },
            None => Ok(true),
        }
    }

    /// Whether there is a condition beyond the keys.
    pub fn has_residual(&self) -> (found: bool)
        ensures
            found == (self.residual is Some),
    {
        self.residual.is_some()
    }

    /// The joined row: the values of the left row followed by those of the right row.
    pub fn project(&self, left: &Row, right: &Row) -> (joined: Row)
        ensures
            joined@ == left@ + right@,
            values::row_view(joined@) == values::row_view(left@) + values::row_view(right@),
    {
        concat_rows(left, right)
    }
}

/// Once comparing keys has ended, later keys do not matter.
proof fn lemma_comparison_ended(
    keys: Seq<(ExpressionEvaluator, ExpressionEvaluator)>,
    n: nat,
    m: nat,
    left: Seq<ScalarView>,
    right: Seq<ScalarView>,
)
    requires
        compared_keys(keys, n, left, right) is Ended,
        n <= m <= keys.len(),
    ensures
        compared_keys(keys, m, left, right) == compared_keys(keys, n, left, right),
    decreases m,
{
    if n < m {
        lemma_comparison_ended(keys, n, (m - 1) as nat, left, right);
    }
}

/// Once collecting a key has ended, later parts do not matter.
proof fn lemma_key_ended(
    keys: Seq<(ExpressionEvaluator, ExpressionEvaluator)>,
    left_side: bool,
    n: nat,
    m: nat,
    row: Seq<ScalarView>,
)
    requires
        !(collected_key(keys, left_side, n, row) is Values),
        n <= m <= keys.len(),
    ensures
        collected_key(keys, left_side, m, row) == collected_key(keys, left_side, n, row),
    decreases m,
{
    if n < m {
        lemma_key_ended(keys, left_side, n, (m - 1) as nat, row);
    }
}

proof fn lemma_null_key(
    keys: Seq<(ExpressionEvaluator, ExpressionEvaluator)>,
    left_side: bool,
    n: nat,
    left: Seq<ScalarView>,
    right: Seq<ScalarView>,
)
    requires
        n <= keys.len(),
        collected_key(
            keys,
            left_side,
            n,
            if left_side {
                left
            } else {
                right
            },
        ) == KeyValues::HasNull,
    ensures
        compared_keys(keys, n, left, right) is Ended,
        compared_keys(keys, n, left, right)->Ended_0 != Condition::Holds(true),
    decreases n,
{
    if n > 0 {
        let row = if left_side {
            left
        } else {
            right
        };
        if collected_key(keys, left_side, (n - 1) as nat, row) == KeyValues::HasNull {
            lemma_null_key(keys, left_side, (n - 1) as nat, left, right);
        } else {
            lemma_ended_is_no_match(keys, (n - 1) as nat, left, right);
        }
    }
}

proof fn lemma_ended_is_no_match(
    keys: Seq<(ExpressionEvaluator, ExpressionEvaluator)>,
    n: nat,
    left: Seq<ScalarView>,
    right: Seq<ScalarView>,
)
    ensures
        compared_keys(keys, n, left, right) is Ended ==> compared_keys(
            keys,
            n,
            left,
            right,
        )->Ended_0 != Condition::Holds(true),
    decreases n,
{
    if 0 < n <= keys.len() {
        lemma_ended_is_no_match(keys, (n - 1) as nat, left, right);
    }
}

/// A row whose key has a null part matches no row, on either side.
pub proof fn law_null_keys_do_not_match(
    evaluator: JoinEvaluator,
    left_side: bool,
    left: Seq<ScalarView>,
    right: Seq<ScalarView>,
)
    requires
        collected_key(
            evaluator.key_evaluators@,
            left_side,
            evaluator.key_evaluators@.len(),
            if left_side {
                left
            } else {
                right
            },
        ) == KeyValues::HasNull,
    ensures
        evaluator.match_condition(left, right) != Condition::Holds(true),
{
    lemma_null_key(
        evaluator.key_evaluators@,
        left_side,
        evaluator.key_evaluators@.len(),
        left,
        right,
    );
}

/// The keys of two rows are equal where each pair of them has values that are equal; a null is
/// equal to nothing.
pub proof fn law_keys_are_equal_pair_by_pair(
    keys: Seq<(ExpressionEvaluator, ExpressionEvaluator)>,
    n: nat,
    left: Seq<ScalarView>,
    right: Seq<ScalarView>,
)
    requires
        n <= keys.len(),
    ensures
        compared_keys(keys, n, left, right) is Equal <==> forall|i: int|
            0 <= i < n ==> match ((#[trigger] keys[i]).0.outcome(left), keys[i].1.outcome(right)) {
                (Outcome::Value(l), Outcome::Value(r)) => expression_eval::equal_values(l, r)
                    == Some(true),
                _ => false,
            },
        compared_keys(keys, n, left, right) != KeyComparison::Ended(Condition::Holds(true)),
    decreases n,
{
    if n > 0 {
        law_keys_are_equal_pair_by_pair(keys, (n - 1) as nat, left, right);
        if compared_keys(keys, n, left, right) is Equal {
            assert forall|i: int| 0 <= i < n implies match (
                (#[trigger] keys[i]).0.outcome(left),
                keys[i].1.outcome(right),
            ) {
                (Outcome::Value(l), Outcome::Value(r)) => expression_eval::equal_values(l, r)
                    == Some(true),
                _ => false,
            } by {
                if i == n - 1 {
                    assert(keys[i] == keys[n - 1]);
                }
            }
        } else if compared_keys(keys, (n - 1) as nat, left, right) is Equal {
            assert(!match (keys[n - 1].0.outcome(left), keys[n - 1].1.outcome(right)) {
                (Outcome::Value(l), Outcome::Value(r)) => expression_eval::equal_values(l, r)
                    == Some(true),
                _ => false,
            });
        }
    }
}

/// Two rows match where all of their keys are equal and what is asked of both rows besides holds
/// of the left row with the right one behind it.
pub proof fn law_rows_match_by_keys_and_residual(
    evaluator: JoinEvaluator,
    left: Seq<ScalarView>,
    right: Seq<ScalarView>,
)
    ensures
        evaluator.match_condition(left, right) == Condition::Holds(true) <==> {
            &&& forall|i: int|
                0 <= i < evaluator.key_evaluators@.len() ==> match (
                    (#[trigger] evaluator.key_evaluators@[i]).0.outcome(left),
                    evaluator.key_evaluators@[i].1.outcome(right),
                ) {
                    (Outcome::Value(l), Outcome::Value(r)) => expression_eval::equal_values(l, r)
                        == Some(true),
                    _ => false,
                }
            &&& evaluator.residual matches Some(residual) ==> expression::condition_of(
                residual.outcome(left + right),
            ) == Condition::Holds(true)
        },
{
    law_keys_are_equal_pair_by_pair(
        evaluator.key_evaluators@,
        evaluator.key_evaluators@.len(),
        left,
        right,
    );
}

/// The key of a row has the value of each key expression of its side, in their order, and none of
/// them is null; where one is, the row has no key.
pub proof fn law_key_has_a_value_per_expression(
    keys: Seq<(ExpressionEvaluator, ExpressionEvaluator)>,
    left_side: bool,
    n: nat,
    row: Seq<ScalarView>,
)
    requires
        n <= keys.len(),
    ensures
        match collected_key(keys, left_side, n, row) {
            KeyValues::Values(found) => {
                &&& found.len() == n
                &&& forall|i: int|
                    0 <= i < n ==> (if left_side {
                        keys[i].0
                    } else {
                        keys[i].1
                    }).outcome(row) == Outcome::Value(#[trigger] found[i]) && !values::null_value(
                        found[i],
                    )
            },
            KeyValues::HasNull => exists|i: int|
                0 <= i < n && (key_side(#[trigger] keys[i], left_side).outcome(
                    row,
                ) matches Outcome::Value(value) && values::null_value(value)),
            KeyValues::Failed(failure) => exists|i: int|
                0 <= i < n && !(key_side(#[trigger] keys[i], left_side).outcome(row) is Value)
                    && failure == expression::outcome_failure(
                    key_side(keys[i], left_side).outcome(row),
                ),
        },
    decreases n,
{
    if n > 0 {
        law_key_has_a_value_per_expression(keys, left_side, (n - 1) as nat, row);
        match collected_key(keys, left_side, (n - 1) as nat, row) {
            KeyValues::Values(front) => {
                match key_side(keys[n - 1], left_side).outcome(row) {
                    Outcome::Value(value) => {
                        if !values::null_value(value) {
                            let found = front.push(value);
                            assert forall|i: int| 0 <= i < n implies (if left_side {
                                keys[i].0
                            } else {
                                keys[i].1
                            }).outcome(row) == Outcome::Value(#[trigger] found[i])
                                && !values::null_value(found[i]) by {
                                if i < n - 1 {
                                    assert(found[i] == front[i]);
                                }
                            }
                        }
                    },
                    _ => {},
                }
            },
            _ => {},
        }
    }
}

} // verus!
