//! Rows for which a predicate holds.

use vstd::prelude::*;

use super::{from_sink, OperatorError, RowSink};
use crate::dataflow_plan::Expr;
use crate::expr_eval;
use crate::expr_eval::{evaluate_bool_with, ExprError};
use crate::float_results::{FloatMath, FloatResults};
use crate::stream_types::{Diff, InputPort, Timestamp};
use crate::values;
use crate::values::{Row, ScalarView};
use crate::zset;
use crate::zset::PublishedSnapshot;

verus! {

/// A row of a snapshot: its encoding, the row, and how often it occurs.
#[derive(Debug)]
pub struct SnapshotRow {
    pub key: Vec<u8>,
    pub row: Row,
    pub diff: Diff,
}

/// Whether a predicate holds for a row, with what operations on floats give.
pub open spec fn holds(
    predicate: Expr,
    row: Seq<ScalarView>,
    floats: FloatMath,
) -> Result<bool, ExprError> {
    expr_eval::condition_outcome(expr_eval::outcome_with(predicate, row, floats))
}

/// The encodings of those of the first `n` rows that occur at all and for which the predicate
/// holds, each with its multiplicity, or the first failure.
pub open spec fn kept_rows(
    predicate: Expr,
    rows: Seq<SnapshotRow>,
    n: nat,
    floats: FloatMath,
) -> Result<
    Seq<(Seq<u8>, int)>,
    ExprError,
>
    decreases n,
{
    if n == 0 {
        Ok(Seq::empty())
    } else {
        match kept_rows(predicate, rows, (n - 1) as nat, floats) {
            Err(error) => Err(error),
            Ok(front) => if rows[n - 1].diff == 0 {
                Ok(front)
            } else {
                match holds(predicate, values::row_view(rows[n - 1].row@), floats) {
                    Err(error) => Err(error),
                    Ok(true) => Ok(front.push((rows[n - 1].key@, rows[n - 1].diff as int))),
                    Ok(false) => Ok(front),
                }
            },
        }
    }
}

/// Once the predicate has no value, later rows do not matter.
proof fn lemma_kept_rows_ended(
    predicate: Expr,
    rows: Seq<SnapshotRow>,
    n: nat,
    m: nat,
    floats: FloatMath,
)
    requires
        kept_rows(predicate, rows, n, floats) is Err,
        n <= m,
    ensures
        kept_rows(predicate, rows, m, floats) == kept_rows(predicate, rows, n, floats),
    decreases m,
{
    if n < m {
        lemma_kept_rows_ended(predicate, rows, n, (m - 1) as nat, floats);
    }
}

/// The encodings of the rows of a snapshot for which a predicate holds; rows that occur zero
/// times are left out.
pub fn filter_snapshot(
    predicate: &Expr,
    rows: Vec<SnapshotRow>,
    floats: &FloatResults,
) -> (kept: Result<
    Vec<(Vec<u8>, Diff)>,
    ExprError,
>)
    ensures
        match kept {
            Ok(keys) => kept_rows(*predicate, rows@, rows@.len(), floats@) == Ok::<
                Seq<(Seq<u8>, int)>,
                ExprError,
            >(zset::weighted(keys@)),
            Err(error) => kept_rows(*predicate, rows@, rows@.len(), floats@) == Err::<
                Seq<(Seq<u8>, int)>,
                ExprError,
            >(error),
        },
{
    let ghost given = rows@;
    let mut kept: Vec<(Vec<u8>, Diff)> = Vec::new();
    assert(zset::weighted(kept@) =~= Seq::<(Seq<u8>, int)>::empty());
    for entry in it: rows
        invariant
            it.seq() == given,
            kept_rows(*predicate, given, it.index() as nat, floats@) == Ok::<
                Seq<(Seq<u8>, int)>,
                ExprError,
            >(zset::weighted(kept@)),
    {
        let ghost at = it.index() as int;
        assert(entry == given[at]);
        if entry.diff != 0 {
            match evaluate_bool_with(predicate, &entry.row, floats) {
                Err(error) => {
                    proof {
                        lemma_kept_rows_ended(
                            *predicate,
                            given,
                            (at + 1) as nat,
                            given.len(),
                            floats@,
                        );
                    }
                    return Err(error);
                },
                Ok(true) => {
                    let ghost before = zset::weighted(kept@);
                    kept.push((entry.key, entry.diff));
                    assert(zset::weighted(kept@) =~= before.push(
                        (given[at].key@, given[at].diff as int),
                    ));
                },
                Ok(false) => {},
            }
        }
    }
    Ok(kept)
}

/// What a filter handed on of the snapshots of its input.
pub struct FilterLiveState {
    pub published: PublishedSnapshot,
}

impl FilterLiveState {
    /// Nothing was handed on.
    pub fn new() -> (state: Self)
        ensures
            state.published.view() == Seq::<(Seq<u8>, int)>::empty(),
    {
        FilterLiveState { published: PublishedSnapshot::new() }
    }

    /// Hands on those rows of a snapshot for which a predicate holds: what changed since the last
    /// snapshot.
    pub fn publish_pending(
        &mut self,
        predicate: &Expr,
        rows: Vec<SnapshotRow>,
        floats: &FloatResults,
    ) -> (result: Result<
        Vec<(Vec<u8>, Diff)>,
        OperatorError,
    >)
        ensures
            match kept_rows(*predicate, rows@, rows@.len(), floats@) {
                Err(error) => {
                    &&& result == Err::<Vec<(Vec<u8>, Diff)>, OperatorError>(
                        OperatorError::Expression(error),
                    )
                    &&& final(self).published.view() == old(self).published.view()
                },
                Ok(kept) => match result {
                    Ok(changes) => {
                        &&& zset::publishable(old(self).published.view(), kept)
                        &&& forall|key: Seq<u8>|
                            #[trigger] zset::weight(final(self).published.view(), key)
                                == zset::weight(kept, key)
                        &&& zset::distinct_keys(zset::weighted(changes@))
                        &&& forall|i: int|
                            0 <= i < changes@.len() ==> (#[trigger] changes@[i]).1 != 0
                        &&& forall|key: Seq<u8>|
                            #[trigger] zset::weight(zset::weighted(changes@), key)
                                == zset::weight(kept, key) - zset::weight(
                                old(self).published.view(),
                                key,
                            )
                    },
                    Err(error) => {
                        &&& !zset::publishable(old(self).published.view(), kept)
                        &&& error == OperatorError::MultiplicityOverflow
                        &&& final(self).published.view() == old(self).published.view()
                    },
                },
            },
    {
        match filter_snapshot(predicate, rows, floats) {
            Err(error) => Err(OperatorError::Expression(error)),
            Ok(kept) => match self.published.publish(kept) {
                Some(changes) => Ok(changes),
                None => Err(OperatorError::MultiplicityOverflow),
            },
        }
    }
}

/// Keeps the rows for which a predicate holds.
#[derive(Debug)]
pub struct FilterOperator<S: RowSink> {
    pub input: InputPort,
    pub predicate: Expr,
    pub sink: S,
}

impl<S: RowSink> FilterOperator<S> {
    /// A filter of the rows of `input` that feeds `sink`.
    pub fn new(input: InputPort, predicate: Expr, sink: S) -> (operator: Self)
        ensures
            operator.input == input,
            operator.predicate == predicate,
            operator.sink == sink,
    {
        FilterOperator { input, predicate, sink }
    }

    /// The sink that is fed.
    pub fn sink(&self) -> (sink: &S)
        ensures
            *sink == self.sink,
    {
        &self.sink
    }

    /// Hands a row on if the predicate holds for it; unknown counts as false.
    pub fn on_input(
        &mut self,
        input: InputPort,
        row: Row,
        diff: Diff,
        timestamp: Timestamp,
    ) -> (result: Result<(), OperatorError>)
        ensures
            final(self).input == old(self).input,
            final(self).predicate == old(self).predicate,
            if input != old(self).input {
                &&& result == Err::<(), OperatorError>(OperatorError::UnexpectedPort(input))
                &&& final(self).sink == old(self).sink
            } else {
                match expr_eval::condition_outcome(
                    expr_eval::expr_outcome(old(self).predicate, values::row_view(row@)),
                ) {
                    Err(error) => {
                        &&& result == Err::<(), OperatorError>(OperatorError::Expression(error))
                        &&& final(self).sink == old(self).sink
                    },
                    Ok(false) => result is Ok && final(self).sink == old(self).sink,
                    Ok(true) => super::forwards(
                        old(self).sink,
                        values::row_view(row@),
                        diff,
                        timestamp,
                        final(self).sink,
                        result,
                    ),
                }
            },
    {
        self.on_input_with(input, row, diff, timestamp, &FloatResults::new())
    }

    /// Hands a row on if the predicate holds for it, with results of operations on floats.
    pub fn on_input_with(
        &mut self,
        input: InputPort,
        row: Row,
        diff: Diff,
        timestamp: Timestamp,
        floats: &FloatResults,
    ) -> (result: Result<(), OperatorError>)
        ensures
            final(self).input == old(self).input,
            final(self).predicate == old(self).predicate,
            if input != old(self).input {
                &&& result == Err::<(), OperatorError>(OperatorError::UnexpectedPort(input))
                &&& final(self).sink == old(self).sink
            } else {
                match holds(old(self).predicate, values::row_view(row@), floats@) {
                    Err(error) => {
                        &&& result == Err::<(), OperatorError>(OperatorError::Expression(error))
                        &&& final(self).sink == old(self).sink
                    },
                    Ok(false) => result is Ok && final(self).sink == old(self).sink,
                    Ok(true) => super::forwards(
                        old(self).sink,
                        values::row_view(row@),
                        diff,
                        timestamp,
                        final(self).sink,
                        result,
                    ),
                }
            },
    {
        if input != self.input {
            return Err(OperatorError::UnexpectedPort(input));
        }
        match evaluate_bool_with(&self.predicate, &row, floats) {
            Err(error) => Err(OperatorError::Expression(error)),
            Ok(false) => Ok(()),
            Ok(true) => from_sink(self.sink.push(row, diff, timestamp)),
        }
    }

    /// Hands a watermark to the sink.
    pub fn on_watermark(&mut self, watermark: Timestamp) -> (result: Result<(), OperatorError>)
        ensures
            super::passes_watermark(old(self).sink, watermark, final(self).sink, result),
            final(self).input == old(self).input,
            final(self).predicate == old(self).predicate,
    {
        from_sink(self.sink.watermark(watermark))
    }
}

/// What becomes of the first rows does not depend on the rows behind them.
proof fn lemma_kept_rows_prefix(
    predicate: Expr,
    first: Seq<SnapshotRow>,
    second: Seq<SnapshotRow>,
    n: nat,
    floats: FloatMath,
)
    requires
        n <= first.len(),
    ensures
        kept_rows(predicate, first + second, n, floats) == kept_rows(predicate, first, n, floats),
    decreases n,
{
    if n > 0 {
        lemma_kept_rows_prefix(predicate, first, second, (n - 1) as nat, floats);
        assert((first + second)[n - 1] == first[n - 1]);
    }
}

/// What is kept of the first rows, followed by what is kept of the others.
pub open spec fn kept_in_turn(
    first: Result<Seq<(Seq<u8>, int)>, ExprError>,
    second: Result<Seq<(Seq<u8>, int)>, ExprError>,
) -> Result<Seq<(Seq<u8>, int)>, ExprError> {
    match (first, second) {
        (Err(error), _) => Err(error),
        (Ok(_), Err(error)) => Err(error),
        (Ok(front), Ok(back)) => Ok(front + back),
    }
}

proof fn lemma_kept_in_turn(
    predicate: Expr,
    first: Seq<SnapshotRow>,
    second: Seq<SnapshotRow>,
    n: nat,
    floats: FloatMath,
)
    requires
        n <= second.len(),
    ensures
        kept_rows(predicate, first + second, first.len() + n, floats) == kept_in_turn(
            kept_rows(predicate, first, first.len(), floats),
            kept_rows(predicate, second, n, floats),
        ),
    decreases n,
{
    let before = kept_rows(predicate, first, first.len(), floats);
    if n == 0 {
        lemma_kept_rows_prefix(predicate, first, second, first.len(), floats);
        if let Ok(front) = before {
            assert(front + Seq::<(Seq<u8>, int)>::empty() =~= front);
        }
    } else {
        lemma_kept_in_turn(predicate, first, second, (n - 1) as nat, floats);
        assert((first + second)[first.len() + n - 1] == second[n - 1]);
        if let (Ok(front), Ok(back)) = (before, kept_rows(predicate, second, (n - 1) as nat, floats)) {
            let entry = (second[n - 1].key@, second[n - 1].diff as int);
            assert((front + back).push(entry) =~= front + back.push(entry));
        }
    }
}

/// A filter is linear: filtering changes in parts, one part after the other, gives what
/// filtering them at once gives.
pub proof fn law_filter_is_linear(
    predicate: Expr,
    first: Seq<SnapshotRow>,
    second: Seq<SnapshotRow>,
    floats: FloatMath,
)
    ensures
        kept_rows(predicate, first + second, first.len() + second.len(), floats) == kept_in_turn(
            kept_rows(predicate, first, first.len(), floats),
            kept_rows(predicate, second, second.len(), floats),
        ),
{
    lemma_kept_in_turn(predicate, first, second, second.len(), floats);
}

/// Rows by their encodings, with how often they occur.
pub open spec fn keyed(rows: Seq<SnapshotRow>) -> Seq<(Seq<u8>, int)> {
    Seq::new(rows.len(), |i: int| (rows[i].key@, rows[i].diff as int))
}

/// Rows with one encoding are the same row.
pub open spec fn one_row_per_key(rows: Seq<SnapshotRow>) -> bool {
    forall|i: int, j: int|
        0 <= i < rows.len() && 0 <= j < rows.len() && (#[trigger] rows[i]).key@ == (
        #[trigger] rows[j]).key@ ==> values::row_view(rows[i].row@) == values::row_view(
            rows[j].row@,
        )
}

/// A row occurs in what is kept as often as in what is given if the predicate holds for it, else
/// not at all.
proof fn lemma_kept_weight(
    predicate: Expr,
    rows: Seq<SnapshotRow>,
    n: nat,
    key: Seq<u8>,
    row: Seq<ScalarView>,
    floats: FloatMath,
)
    requires
        n <= rows.len(),
        kept_rows(predicate, rows, n, floats) is Ok,
        forall|i: int|
            0 <= i < rows.len() && (#[trigger] rows[i]).key@ == key ==> values::row_view(
                rows[i].row@,
            ) == row,
    ensures
        zset::weight(kept_rows(predicate, rows, n, floats)->Ok_0, key) == if holds(predicate, row, floats) == Ok::<
            bool,
            ExprError,
        >(true) {
            zset::weight(keyed(rows).take(n as int), key)
        } else {
            0
        },
    decreases n,
{
    let taken = keyed(rows).take(n as int);
    if n > 0 {
        lemma_kept_weight(predicate, rows, (n - 1) as nat, key, row, floats);
        let before = kept_rows(predicate, rows, (n - 1) as nat, floats)->Ok_0;
        let entry = (rows[n - 1].key@, rows[n - 1].diff as int);
        assert(taken.drop_last() =~= keyed(rows).take(n - 1));
        assert(taken.last() == entry);
        assert(before.push(entry).drop_last() =~= before);
        assert(before.push(entry).last() == entry);
        assert(rows[n - 1].key@ == key ==> values::row_view(rows[n - 1].row@) == row);
    }
}

/// What is stored of a filter is what it sends on: where a snapshot holds each row as often as
/// the changes that led to it say in all, each row is kept of the snapshot as often as of the
/// changes.
pub proof fn law_filtered_snapshot_matches_filtered_changes(
    predicate: Expr,
    changes: Seq<SnapshotRow>,
    snapshot: Seq<SnapshotRow>,
    key: Seq<u8>,
    floats: FloatMath,
)
    requires
        kept_rows(predicate, changes, changes.len(), floats) is Ok,
        kept_rows(predicate, snapshot, snapshot.len(), floats) is Ok,
        one_row_per_key(changes + snapshot),
        zset::weight(keyed(changes), key) == zset::weight(keyed(snapshot), key),
    ensures
        zset::weight(kept_rows(predicate, changes, changes.len(), floats)->Ok_0, key) == zset::weight(
            kept_rows(predicate, snapshot, snapshot.len(), floats)->Ok_0,
            key,
        ),
{
    let all = changes + snapshot;
    let row = if exists|i: int| 0 <= i < all.len() && (#[trigger] all[i]).key@ == key {
        let i = choose|i: int| 0 <= i < all.len() && (#[trigger] all[i]).key@ == key;
        values::row_view(all[i].row@)
    } else {
        Seq::empty()
    };
    assert forall|i: int|
        0 <= i < changes.len() && (#[trigger] changes[i]).key@ == key implies values::row_view(
        changes[i].row@,
    ) == row by {
        assert(all[i] == changes[i]);
    }
    assert forall|i: int|
        0 <= i < snapshot.len() && (#[trigger] snapshot[i]).key@ == key implies values::row_view(
        snapshot[i].row@,
    ) == row by {
        assert(all[changes.len() + i] == snapshot[i]);
    }
    lemma_kept_weight(predicate, changes, changes.len(), key, row, floats);
    lemma_kept_weight(predicate, snapshot, snapshot.len(), key, row, floats);
    assert(keyed(changes).take(changes.len() as int) =~= keyed(changes));
    assert(keyed(snapshot).take(snapshot.len() as int) =~= keyed(snapshot));
}

/// A row more in a snapshot is kept just where the predicate is true for it; a row that does not
/// occur, or for which the predicate is false or null, is left out.
pub proof fn law_rows_are_kept_where_the_predicate_is_true(
    predicate: Expr,
    rows: Seq<SnapshotRow>,
    row: SnapshotRow,
    floats: FloatMath,
)
    requires
        kept_rows(predicate, rows, rows.len(), floats) is Ok,
    ensures
        ({
            let front = kept_rows(predicate, rows, rows.len(), floats)->Ok_0;
            let all = kept_rows(predicate, rows.push(row), rows.len() + 1, floats);
            let value = expr_eval::outcome_with(predicate, values::row_view(row.row@), floats);
            &&& row.diff != 0 && value == Ok::<ScalarView, ExprError>(
                ScalarView::Boolean(Some(true)),
            ) ==> all == Ok::<Seq<(Seq<u8>, int)>, ExprError>(
                front.push((row.key@, row.diff as int)),
            )
            &&& row.diff == 0 || value == Ok::<ScalarView, ExprError>(
                ScalarView::Boolean(Some(false)),
            ) || value == Ok::<ScalarView, ExprError>(ScalarView::Boolean(None)) ==> all == Ok::<
                Seq<(Seq<u8>, int)>,
                ExprError,
            >(front)
            &&& row.diff != 0 && value is Err ==> all == Err::<Seq<(Seq<u8>, int)>, ExprError>(
                value->Err_0,
            )
        }),
{
    assert(rows.push(row) =~= rows + seq![row]);
    lemma_kept_rows_prefix(predicate, rows, seq![row], rows.len(), floats);
}

} // verus!
