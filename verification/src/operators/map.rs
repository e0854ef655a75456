//! Rows that are made of the values of expressions.

use vstd::prelude::*;

use super::join;
use super::join::RowCounts;
use super::{from_sink, OperatorError, RowSink};
use crate::dataflow_plan::Expr;
use crate::expr_eval;
use crate::expr_eval::{evaluate_with, ExprError};
use crate::float_results::{FloatMath, FloatResults};
use crate::stream_types::{Diff, InputPort, Timestamp};
use crate::values;
use crate::values::{Row, ScalarView};

verus! {

/// The values of the first `n` expressions over a row, or the first failure, with what operations
/// on floats give.
pub open spec fn mapped_with(
    exprs: Seq<Expr>,
    n: nat,
    row: Seq<ScalarView>,
    floats: FloatMath,
) -> Result<
    Seq<ScalarView>,
    ExprError,
>
    decreases n,
{
    if n == 0 || n > exprs.len() {
        Ok(Seq::empty())
    } else {
        match mapped_with(exprs, (n - 1) as nat, row, floats) {
            Err(error) => Err(error),
            Ok(values) => match expr_eval::outcome_with(exprs[n - 1], row, floats) {
                Err(error) => Err(error),
                Ok(value) => Ok(values.push(value)),
            },
        }
    }
}

/// Once an expression has no value, later ones do not matter.
proof fn lemma_mapping_ended(
    exprs: Seq<Expr>,
    n: nat,
    m: nat,
    row: Seq<ScalarView>,
    floats: FloatMath,
)
    requires
        mapped_with(exprs, n, row, floats) is Err,
        n <= m <= exprs.len(),
    ensures
        mapped_with(exprs, m, row, floats) == mapped_with(exprs, n, row, floats),
    decreases m,
{
    if n < m {
        lemma_mapping_ended(exprs, n, (m - 1) as nat, row, floats);
    }
}

/// The row that expressions compute from a row.
pub fn project_row_with(exprs: &Vec<Expr>, row: &Row, floats: &FloatResults) -> (projected:
    Result<Row, ExprError>)
    ensures
        match projected {
            Ok(values) => mapped_with(
                exprs@,
                exprs@.len(),
                values::row_view(row@),
                floats@,
            ) == Ok::<
                Seq<ScalarView>,
                ExprError,
            >(values::row_view(values@)),
            Err(error) => mapped_with(
                exprs@,
                exprs@.len(),
                values::row_view(row@),
                floats@,
            ) == Err::<
                Seq<ScalarView>,
                ExprError,
            >(error),
        },
{
    let ghost views = values::row_view(row@);
    let mut projected: Row = Vec::new();
    let mut i: usize = 0;
    assert(values::row_view(projected@) =~= Seq::<ScalarView>::empty());
    while i < exprs.len()
        invariant
            i <= exprs@.len(),
            views == values::row_view(row@),
            mapped_with(exprs@, i as nat, views, floats@) == Ok::<Seq<ScalarView>, ExprError>(
                values::row_view(projected@),
            ),
        decreases exprs@.len() - i,
    {
        match evaluate_with(&exprs[i], row, floats) {
            Err(error) => {
                proof {
                    lemma_mapping_ended(exprs@, (i + 1) as nat, exprs@.len(), views, floats@);
                }
                return Err(error);
            },
            Ok(value) => {
                let ghost before = values::row_view(projected@);
                projected.push(value);
                assert(values::row_view(projected@) =~= before.push(value@));
            },
        }
        i = i + 1;
    }
    Ok(projected)
}

/// The values of expressions wait for results only that there are not, and with more results they
/// are what they were, or what they waited for.
pub proof fn law_results_only_complete_a_row(
    exprs: Seq<Expr>,
    n: nat,
    row: Seq<ScalarView>,
    some: FloatMath,
    more: FloatMath,
)
    requires
        some.within(more),
    ensures
        mapped_with(exprs, n, row, some) matches Err(ExprError::Awaits(call)) ==> !some.answers(
            call,
        ),
        !(mapped_with(exprs, n, row, some) matches Err(ExprError::Awaits(_))) ==> mapped_with(
            exprs,
            n,
            row,
            more,
        ) == mapped_with(exprs, n, row, some),
    decreases n,
{
    if 0 < n <= exprs.len() {
        law_results_only_complete_a_row(exprs, (n - 1) as nat, row, some, more);
        expr_eval::law_results_only_complete_the_evaluation(exprs[n - 1], row, some, more);
    }
}

/// The values of the first `n` expressions over a row, or the first failure.
pub open spec fn mapped(exprs: Seq<Expr>, n: nat, row: Seq<ScalarView>) -> Result<
    Seq<ScalarView>,
    ExprError,
> {
    mapped_with(exprs, n, row, FloatMath::none())
}

/// The rows that expressions compute from the first `n` rows that occur at all, each with its
/// multiplicity, or the first failure.
pub open spec fn mapped_rows(
    exprs: Seq<Expr>,
    rows: Seq<(Row, Diff)>,
    n: nat,
    floats: FloatMath,
) -> Result<Seq<(Seq<ScalarView>, Diff)>, ExprError>
    decreases n,
{
    if n == 0 {
        Ok(Seq::empty())
    } else {
        match mapped_rows(exprs, rows, (n - 1) as nat, floats) {
            Err(error) => Err(error),
            Ok(front) => if rows[n - 1].1 == 0 {
                Ok(front)
            } else {
                match mapped_with(exprs, exprs.len(), values::row_view(rows[n - 1].0@), floats) {
                    Err(error) => Err(error),
                    Ok(row) => Ok(front.push((row, rows[n - 1].1))),
                }
            },
        }
    }
}

/// Once a row has no image, later ones do not matter.
proof fn lemma_mapped_rows_ended(
    exprs: Seq<Expr>,
    rows: Seq<(Row, Diff)>,
    n: nat,
    m: nat,
    floats: FloatMath,
)
    requires
        mapped_rows(exprs, rows, n, floats) is Err,
        n <= m,
    ensures
        mapped_rows(exprs, rows, m, floats) == mapped_rows(exprs, rows, n, floats),
    decreases m,
{
    if n < m {
        lemma_mapped_rows_ended(exprs, rows, n, (m - 1) as nat, floats);
    }
}

/// Rows with multiplicities as what they stand for.
pub open spec fn diff_views(rows: Seq<(Row, Diff)>) -> Seq<(Seq<ScalarView>, Diff)> {
    Seq::new(rows.len(), |i: int| (values::row_view(rows[i].0@), rows[i].1))
}

/// The rows that expressions compute from the rows of a snapshot; rows that occur zero times are
/// left out.
pub fn project_snapshot(
    exprs: &Vec<Expr>,
    rows: &Vec<(Row, Diff)>,
    floats: &FloatResults,
) -> (projected: Result<
    Vec<(Row, Diff)>,
    ExprError,
>)
    ensures
        match projected {
            Ok(images) => mapped_rows(exprs@, rows@, rows@.len(), floats@) == Ok::<
                Seq<(Seq<ScalarView>, Diff)>,
                ExprError,
            >(diff_views(images@)),
            Err(error) => mapped_rows(exprs@, rows@, rows@.len(), floats@) == Err::<
                Seq<(Seq<ScalarView>, Diff)>,
                ExprError,
            >(error),
        },
{
    let mut images: Vec<(Row, Diff)> = Vec::new();
    let mut i: usize = 0;
    assert(diff_views(images@) =~= Seq::<(Seq<ScalarView>, Diff)>::empty());
    while i < rows.len()
        invariant
            i <= rows@.len(),
            mapped_rows(exprs@, rows@, i as nat, floats@) == Ok::<
                Seq<(Seq<ScalarView>, Diff)>,
                ExprError,
            >(diff_views(images@)),
        decreases rows@.len() - i,
    {
        let diff: i64 = rows[i].1;
        if diff != 0 {
            match project_row_with(exprs, &rows[i].0, floats) {
                Err(error) => {
                    proof {
                        lemma_mapped_rows_ended(
                            exprs@,
                            rows@,
                            (i + 1) as nat,
                            rows@.len(),
                            floats@,
                        );
                    }
                    return Err(error);
                },
                Ok(image) => {
                    let ghost before = diff_views(images@);
                    let ghost view = values::row_view(image@);
                    images.push((image, diff));
                    assert(diff_views(images@) =~= before.push((view, diff)));
                },
            }
        }
        i = i + 1;
    }
    Ok(images)
}

/// Computes one output column per expression.
#[derive(Debug)]
pub struct MapOperator<S: RowSink> {
    pub input: InputPort,
    pub expressions: Vec<Expr>,
    pub sink: S,
}

impl<S: RowSink> MapOperator<S> {
    /// A mapping of the rows of `input` that feeds `sink`.
    pub fn new(input: InputPort, expressions: Vec<Expr>, sink: S) -> (operator: Self)
        ensures
            operator.input == input,
            operator.expressions == expressions,
            operator.sink == sink,
    {
        MapOperator { input, expressions, sink }
    }

    /// The sink that is fed.
    pub fn sink(&self) -> (sink: &S)
        ensures
            *sink == self.sink,
    {
        &self.sink
    }

    /// Hands on what the expressions compute from a row.
    pub fn on_input(
        &mut self,
        input: InputPort,
        row: Row,
        diff: Diff,
        timestamp: Timestamp,
    ) -> (result: Result<(), OperatorError>)
        ensures
            final(self).input == old(self).input,
            final(self).expressions == old(self).expressions,
            if input != old(self).input {
                &&& result == Err::<(), OperatorError>(OperatorError::UnexpectedPort(input))
                &&& final(self).sink == old(self).sink
            } else {
                match mapped(
                    old(self).expressions@,
                    old(self).expressions@.len(),
                    values::row_view(row@),
                ) {
                    Err(error) => {
                        &&& result == Err::<(), OperatorError>(OperatorError::Expression(error))
                        &&& final(self).sink == old(self).sink
                    },
                    Ok(projected) => super::forwards(
                        old(self).sink,
                        projected,
                        diff,
                        timestamp,
                        final(self).sink,
                        result,
                    ),
                }
            },
    {
        self.on_input_with(input, row, diff, timestamp, &FloatResults::new())
    }

    /// Hands on what the expressions compute from a row, with results of operations on floats.
    pub fn on_input_with(
        &mut self,
        input: InputPort,
        row: Row,
        diff: Diff,
        timestamp: Timestamp,
        floats: &FloatResults,
    ) -> (result: Result<(), OperatorError>)
        ensures
            final(self).input == old(self).input,
            final(self).expressions == old(self).expressions,
            if input != old(self).input {
                &&& result == Err::<(), OperatorError>(OperatorError::UnexpectedPort(input))
                &&& final(self).sink == old(self).sink
            } else {
                match mapped_with(
                    old(self).expressions@,
                    old(self).expressions@.len(),
                    values::row_view(row@),
                    floats@,
                ) {
                    Err(error) => {
                        &&& result == Err::<(), OperatorError>(OperatorError::Expression(error))
                        &&& final(self).sink == old(self).sink
                    },
                    Ok(projected) => super::forwards(
                        old(self).sink,
                        projected,
                        diff,
                        timestamp,
                        final(self).sink,
                        result,
                    ),
                }
            },
    {
        if input != self.input {
            return Err(OperatorError::UnexpectedPort(input));
        }
        match project_row_with(&self.expressions, &row, floats) {
            Err(error) => Err(OperatorError::Expression(error)),
            Ok(projected) => from_sink(self.sink.push(projected, diff, timestamp)),
        }
    }

    /// Hands a watermark to the sink.
    pub fn on_watermark(&mut self, watermark: Timestamp) -> (result: Result<(), OperatorError>)
        ensures
            super::passes_watermark(old(self).sink, watermark, final(self).sink, result),
            final(self).input == old(self).input,
            final(self).expressions == old(self).expressions,
    {
        from_sink(self.sink.watermark(watermark))
    }
}

/// What becomes of the first rows does not depend on the rows behind them.
proof fn lemma_mapped_rows_prefix(
    exprs: Seq<Expr>,
    first: Seq<(Row, Diff)>,
    second: Seq<(Row, Diff)>,
    n: nat,
    floats: FloatMath,
)
    requires
        n <= first.len(),
    ensures
        mapped_rows(exprs, first + second, n, floats) == mapped_rows(exprs, first, n, floats),
    decreases n,
{
    if n > 0 {
        lemma_mapped_rows_prefix(exprs, first, second, (n - 1) as nat, floats);
        assert((first + second)[n - 1] == first[n - 1]);
    }
}

/// The images of the first rows, followed by those of the others.
pub open spec fn mapped_in_turn(
    first: Result<Seq<(Seq<ScalarView>, Diff)>, ExprError>,
    second: Result<Seq<(Seq<ScalarView>, Diff)>, ExprError>,
) -> Result<Seq<(Seq<ScalarView>, Diff)>, ExprError> {
    match (first, second) {
        (Err(error), _) => Err(error),
        (Ok(_), Err(error)) => Err(error),
        (Ok(front), Ok(back)) => Ok(front + back),
    }
}

proof fn lemma_mapped_in_turn(
    exprs: Seq<Expr>,
    first: Seq<(Row, Diff)>,
    second: Seq<(Row, Diff)>,
    n: nat,
    floats: FloatMath,
)
    requires
        n <= second.len(),
    ensures
        mapped_rows(exprs, first + second, first.len() + n, floats) == mapped_in_turn(
            mapped_rows(exprs, first, first.len(), floats),
            mapped_rows(exprs, second, n, floats),
        ),
    decreases n,
{
    let before = mapped_rows(exprs, first, first.len(), floats);
    if n == 0 {
        lemma_mapped_rows_prefix(exprs, first, second, first.len(), floats);
        if let Ok(front) = before {
            assert(front + Seq::<(Seq<ScalarView>, Diff)>::empty() =~= front);
        }
    } else {
        lemma_mapped_in_turn(exprs, first, second, (n - 1) as nat, floats);
        assert((first + second)[first.len() + n - 1] == second[n - 1]);
        if let (Ok(front), Ok(back)) = (before, mapped_rows(exprs, second, (n - 1) as nat, floats)) {
            if let Ok(row) = mapped_with(exprs, exprs.len(), values::row_view(second[n - 1].0@), floats) {
                let entry = (row, second[n - 1].1);
                assert((front + back).push(entry) =~= front + back.push(entry));
            }
        }
    }
}

/// A map is linear: mapping changes in parts, one part after the other, gives what mapping them
/// at once gives.
pub proof fn law_map_is_linear(
    exprs: Seq<Expr>,
    first: Seq<(Row, Diff)>,
    second: Seq<(Row, Diff)>,
    floats: FloatMath,
)
    ensures
        mapped_rows(exprs, first + second, first.len() + second.len(), floats) == mapped_in_turn(
            mapped_rows(exprs, first, first.len(), floats),
            mapped_rows(exprs, second, second.len(), floats),
        ),
{
    lemma_mapped_in_turn(exprs, first, second, second.len(), floats);
}

/// Rows with how often they occur.
pub open spec fn counted(rows: Seq<(Seq<ScalarView>, Diff)>) -> RowCounts {
    Seq::new(rows.len(), |i: int| (rows[i].0, rows[i].1 as int))
}

/// One for the rows whose image is `image`, zero for every other.
spec fn mapping_to(
    exprs: Seq<Expr>,
    image: Seq<ScalarView>,
    floats: FloatMath,
) -> spec_fn(Seq<ScalarView>) -> int {
    |row: Seq<ScalarView>|
        if mapped_with(exprs, exprs.len(), row, floats) == Ok::<Seq<ScalarView>, ExprError>(image) {
            1
        } else {
            0
        }
}

/// An image occurs as often as the rows that are mapped to it.
proof fn lemma_image_occurrences(
    exprs: Seq<Expr>,
    rows: Seq<(Row, Diff)>,
    n: nat,
    image: Seq<ScalarView>,
    floats: FloatMath,
)
    requires
        n <= rows.len(),
        mapped_rows(exprs, rows, n, floats) is Ok,
    ensures
        join::occurrences(counted(mapped_rows(exprs, rows, n, floats)->Ok_0), image) == join::weighted_sum(
            counted(diff_views(rows)).take(n as int),
            mapping_to(exprs, image, floats),
        ),
    decreases n,
{
    let f = mapping_to(exprs, image, floats);
    let all = counted(diff_views(rows));
    let images = counted(mapped_rows(exprs, rows, n, floats)->Ok_0);
    if n == 0 {
        assert(images =~= RowCounts::empty());
        assert(all.take(0) =~= RowCounts::empty());
    } else {
        lemma_image_occurrences(exprs, rows, (n - 1) as nat, image, floats);
        let before = counted(mapped_rows(exprs, rows, (n - 1) as nat, floats)->Ok_0);
        let taken = all.take(n as int);
        let row = values::row_view(rows[n - 1].0@);
        let diff = rows[n - 1].1 as int;
        assert(taken.drop_last() =~= all.take(n - 1));
        assert(taken.last() == (row, diff));
        if diff == 0 {
            assert(diff * f(row) == 0) by (nonlinear_arith)
                requires
                    diff == 0,
            ;
        } else {
            let made = mapped_with(exprs, exprs.len(), row, floats)->Ok_0;
            assert(images =~= before.push((made, diff)));
            join::lemma_sum_push(before, (made, diff), join::indicator(image));
            assert(join::indicator(image)(made) == f(row));
        }
    }
}

/// What is stored of a map is what it sends on: where a snapshot holds each row as often as the
/// changes that led to it say in all, each image occurs in the image of the snapshot as often as
/// in the images of the changes.
pub proof fn law_mapped_snapshot_matches_mapped_changes(
    exprs: Seq<Expr>,
    changes: Seq<(Row, Diff)>,
    snapshot: Seq<(Row, Diff)>,
    image: Seq<ScalarView>,
    floats: FloatMath,
)
    requires
        mapped_rows(exprs, changes, changes.len(), floats) is Ok,
        mapped_rows(exprs, snapshot, snapshot.len(), floats) is Ok,
        forall|row: Seq<ScalarView>| #[trigger]
            join::occurrences(counted(diff_views(changes)), row) == join::occurrences(
                counted(diff_views(snapshot)),
                row,
            ),
    ensures
        join::occurrences(counted(mapped_rows(exprs, changes, changes.len(), floats)->Ok_0), image)
            == join::occurrences(
            counted(mapped_rows(exprs, snapshot, snapshot.len(), floats)->Ok_0),
            image,
        ),
{
    let first = counted(diff_views(changes));
    let second = counted(diff_views(snapshot));
    lemma_image_occurrences(exprs, changes, changes.len(), image, floats);
    lemma_image_occurrences(exprs, snapshot, snapshot.len(), image, floats);
    assert(first.take(changes.len() as int) =~= first);
    assert(second.take(snapshot.len() as int) =~= second);
    join::lemma_sum_of_same_rows(first, second, mapping_to(exprs, image, floats));
}

/// A mapped row has one value for each expression, the one that the expression has on the row; and
/// there is none where an expression has none, whose error is then the first of such errors.
pub proof fn law_mapped_row_has_a_value_per_expression(
    exprs: Seq<Expr>,
    n: nat,
    row: Seq<ScalarView>,
    floats: FloatMath,
)
    requires
        n <= exprs.len(),
    ensures
        match mapped_with(exprs, n, row, floats) {
            Ok(out) => {
                &&& out.len() == n
                &&& forall|i: int|
                    0 <= i < n ==> expr_eval::outcome_with(#[trigger] exprs[i], row, floats) == Ok::<
                        ScalarView,
                        ExprError,
                    >(out[i])
            },
            Err(error) => exists|i: int|
                {
                    &&& 0 <= i < n
                    &&& expr_eval::outcome_with(#[trigger] exprs[i], row, floats) == Err::<
                        ScalarView,
                        ExprError,
                    >(error)
                    &&& forall|j: int|
                        0 <= j < i ==> expr_eval::outcome_with(#[trigger] exprs[j], row, floats)
                            is Ok
                },
        },
    decreases n,
{
    if n > 0 {
        law_mapped_row_has_a_value_per_expression(exprs, (n - 1) as nat, row, floats);
        if mapped_with(exprs, (n - 1) as nat, row, floats) is Ok {
            assert(expr_eval::outcome_with(exprs[n - 1], row, floats) is Err
                || expr_eval::outcome_with(exprs[n - 1], row, floats) is Ok);
        }
    }
}

/// A row more in a snapshot is one mapped row more, as often as the row occurs; a row that does not
/// occur is left out.
pub proof fn law_each_row_is_mapped(
    exprs: Seq<Expr>,
    rows: Seq<(Row, Diff)>,
    row: Row,
    diff: Diff,
    floats: FloatMath,
)
    requires
        mapped_rows(exprs, rows, rows.len(), floats) is Ok,
    ensures
        ({
            let front = mapped_rows(exprs, rows, rows.len(), floats)->Ok_0;
            let all = mapped_rows(exprs, rows.push((row, diff)), rows.len() + 1, floats);
            &&& diff == 0 ==> all == Ok::<Seq<(Seq<ScalarView>, Diff)>, ExprError>(front)
            &&& diff != 0 ==> match mapped_with(
                exprs,
                exprs.len(),
                values::row_view(row@),
                floats,
            ) {
                Ok(out) => all == Ok::<Seq<(Seq<ScalarView>, Diff)>, ExprError>(
                    front.push((out, diff)),
                ),
                Err(error) => all == Err::<Seq<(Seq<ScalarView>, Diff)>, ExprError>(error),
            }
        }),
{
    assert(rows.push((row, diff)) =~= rows + seq![(row, diff)]);
    lemma_mapped_rows_prefix(exprs, rows, seq![(row, diff)], rows.len(), floats);
}

} // verus!
