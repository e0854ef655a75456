//! The incremental equi-join of two streams of rows.

use vstd::prelude::*;

use crate::float_results::{FloatCall, FloatMath, FloatResults};
use crate::operators::map::project_row_with;
use crate::expr_eval::ExprError;
use super::{
    from_sink, DispatchSink, Encodable, EventView, OperatorError, RowSink, SinkError,
};
use crate::dataflow_plan::Expr;
use crate::stream_types::{Diff, InputPort, Timestamp};
use crate::values;
use crate::values::{clone_row, concat_rows, rows_same, Row, ScalarValue, ScalarView};

verus! {

/// The inputs of a join.
#[derive(Clone, Copy, Debug, PartialEq, Eq, Structural)]
pub enum JoinSide {
    Left,
    Right,
}

/// A row kept by a join together with how often it occurs.
#[derive(Debug, PartialEq, Eq)]
pub struct StoredRow {
    pub row: Row,
    pub multiplicity: Diff,
}

/// Rows with how often they occur.
pub type RowCounts = Seq<(Seq<ScalarView>, int)>;

/// The rows kept for each key.
pub type KeyedCounts = Seq<(Seq<ScalarView>, RowCounts)>;

impl View for StoredRow {
    type V = (Seq<ScalarView>, int);

    open spec fn view(&self) -> (Seq<ScalarView>, int) {
        (values::row_view(self.row@), self.multiplicity as int)
    }
}

/// Stored rows as what they stand for.
pub open spec fn stored_views(entries: Seq<StoredRow>) -> RowCounts {
    Seq::new(entries.len(), |i: int| entries[i]@)
}

/// How much of `remaining` an entry takes off.
pub open spec fn taken_off(remaining: int, multiplicity: int) -> int {
    if remaining < multiplicity {
        remaining
    } else {
        multiplicity
    }
}

/// The entries left after `remaining` occurrences of a row are taken off, from the first entry of
/// that row on; entries that come to nothing go.
pub open spec fn reduced(entries: RowCounts, row: Seq<ScalarView>, remaining: int) -> RowCounts
    decreases entries.len(),
{
    if entries.len() == 0 {
        Seq::empty()
    } else {
        let (stored, count) = entries[0];
        let taken = if values::same_row(stored, row) && remaining > 0 {
            taken_off(remaining, count)
        } else {
            0
        };
        let rest = reduced(entries.drop_first(), row, remaining - taken);
        if count - taken != 0 {
            seq![(stored, count - taken)] + rest
        } else {
            rest
        }
    }
}

/// Taking off `remaining` occurrences of a row never leaves sixty-four bits.
pub open spec fn removal_fits(
    entries: RowCounts,
    row: Seq<ScalarView>,
    remaining: int,
) -> bool
    decreases entries.len(),
{
    if entries.len() == 0 {
        true
    } else {
        let (stored, count) = entries[0];
        let taken = if values::same_row(stored, row) && remaining > 0 {
            taken_off(remaining, count)
        } else {
            0
        };
        remaining - taken <= i64::MAX && removal_fits(
            entries.drop_first(),
            row,
            remaining - taken,
        )
    }
}

/// The change of a row's multiplicity can be carried out within sixty-four bits.
pub open spec fn change_fits(entries: RowCounts, row: Seq<ScalarView>, diff: Diff) -> bool {
    diff > 0 || (diff != i64::MIN && removal_fits(entries, row, -diff))
}

/// The entries after the multiplicity of a row changed.
pub open spec fn changed(entries: RowCounts, row: Seq<ScalarView>, diff: Diff) -> RowCounts {
    if diff > 0 {
        entries.push((row, diff as int))
    } else {
        reduced(entries, row, -diff)
    }
}

/// Whether taking off occurrences stays within sixty-four bits.
fn state_change_fits(entries: &Vec<StoredRow>, row: &Row, diff: Diff) -> (fits: bool)
    ensures
        fits == change_fits(stored_views(entries@), values::row_view(row@), diff),
{
    if diff > 0 {
        return true;
    }
    if diff == i64::MIN {
        return false;
    }
    let ghost all = stored_views(entries@);
    let ghost wanted = values::row_view(row@);
    let mut remaining: i64 = -diff;
    let mut i: usize = 0;
    assert(all.skip(0) =~= all);
    while i < entries.len()
        invariant
            i <= entries@.len(),
            all == stored_views(entries@),
            wanted == values::row_view(row@),
            remaining >= 0,
            i64::MIN < diff <= 0,
            removal_fits(all, wanted, -diff) == removal_fits(
                all.skip(i as int),
                wanted,
                remaining as int,
            ),
        decreases entries@.len() - i,
    {
        assert(all.skip(i as int)[0] == entries@[i as int]@);
        assert(all.skip(i as int).drop_first() =~= all.skip(i + 1));
        if remaining > 0 && rows_same(&entries[i].row, row) {
            let count: i64 = entries[i].multiplicity;
            if count >= 0 {
                let taken: i64 = if remaining < count {
                    remaining
                } else {
                    count
                };
                remaining = remaining - taken;
            } else {
                if remaining as i128 - count as i128 > i64::MAX as i128 {
                    return false;
                }
                remaining = remaining - count;
            }
        }
        i = i + 1;
    }
    true
}

/// Changes the multiplicity of a row among the entries of its key.
pub fn apply_state_change(entries: &mut Vec<StoredRow>, row: &Row, diff: Diff)
    requires
        change_fits(stored_views(old(entries)@), values::row_view(row@), diff),
    ensures
        stored_views(final(entries)@) == changed(
            stored_views(old(entries)@),
            values::row_view(row@),
            diff,
        ),
{
    let ghost all = stored_views(entries@);
    let ghost wanted = values::row_view(row@);
    if diff > 0 {
        entries.push(StoredRow { row: clone_row(row), multiplicity: diff });
        assert(stored_views(entries@) =~= all.push((wanted, diff as int)));
        return;
    }
    let mut source: Vec<StoredRow> = Vec::new();
    std::mem::swap(&mut source, entries);
    let mut kept: Vec<StoredRow> = Vec::new();
    let mut remaining: i64 = -diff;
    assert(all.skip(0) =~= all);
    assert(reduced(all, wanted, -diff) =~= stored_views(kept@) + reduced(
        all.skip(0),
        wanted,
        remaining as int,
    ));
    for stored in it: source
        invariant
            it.seq() == source@,
            all == stored_views(source@),
            wanted == values::row_view(row@),
            remaining >= 0,
            removal_fits(all.skip(it.index()), wanted, remaining as int),
            reduced(all, wanted, -diff) == stored_views(kept@) + reduced(
                all.skip(it.index()),
                wanted,
                remaining as int,
            ),
    {
        let ghost i = it.index();
        let ghost entry = stored@;
        let ghost before = stored_views(kept@);
        assert(all.skip(i)[0] == entry);
        assert(all.skip(i).drop_first() =~= all.skip(i + 1));
        let mut count: i64 = stored.multiplicity;
        if remaining > 0 && rows_same(&stored.row, row) {
            let taken: i64 = if remaining < count {
                remaining
            } else {
                count
            };
            count = count - taken;
            remaining = remaining - taken;
        }
        if count != 0 {
            kept.push(StoredRow { row: stored.row, multiplicity: count });
            assert(stored_views(kept@) =~= before.push((entry.0, count as int)));
        }
        assert(reduced(all, wanted, -diff) =~= stored_views(kept@) + reduced(
            all.skip(i + 1),
            wanted,
            remaining as int,
        ));
    }
    assert(all.skip(all.len() as int) =~= Seq::empty());
    assert(stored_views(kept@) =~= reduced(all, wanted, -diff));
    *entries = kept;
}


/// The rows kept for one key.
#[derive(Debug)]
pub struct Bucket {
    pub key: Row,
    pub rows: Vec<StoredRow>,
}

impl View for Bucket {
    type V = (Seq<ScalarView>, RowCounts);

    open spec fn view(&self) -> (Seq<ScalarView>, RowCounts) {
        (values::row_view(self.key@), stored_views(self.rows@))
    }
}

/// Buckets as what they stand for.
pub open spec fn bucket_views(buckets: Seq<Bucket>) -> KeyedCounts {
    Seq::new(buckets.len(), |i: int| buckets[i]@)
}

/// The position of the first bucket of a key; the number of buckets where there is none.
pub open spec fn bucket_of(state: KeyedCounts, key: Seq<ScalarView>) -> nat
    decreases state.len(),
{
    if state.len() == 0 || values::same_row(state[0].0, key) {
        0
    } else {
        1 + bucket_of(state.drop_first(), key)
    }
}

/// The rows kept for a key.
pub open spec fn rows_for(state: KeyedCounts, key: Seq<ScalarView>) -> RowCounts {
    let at = bucket_of(state, key) as int;
    if at < state.len() {
        state[at].1
    } else {
        Seq::empty()
    }
}

/// The state with other rows for a key.
pub open spec fn with_rows(
    state: KeyedCounts,
    key: Seq<ScalarView>,
    rows: RowCounts,
) -> KeyedCounts {
    let at = bucket_of(state, key) as int;
    if at < state.len() {
        state.update(at, (state[at].0, rows))
    } else {
        state.push((key, rows))
    }
}

/// The rows of one input of a join by key.
#[derive(Debug)]
pub struct JoinState {
    pub buckets: Vec<Bucket>,
}

proof fn lemma_bucket_of_skip(state: KeyedCounts, key: Seq<ScalarView>, i: int)
    requires
        0 <= i <= state.len(),
        forall|j: int| 0 <= j < i ==> !values::same_row((#[trigger] state[j]).0, key),
    ensures
        bucket_of(state, key) == i + bucket_of(state.skip(i), key),
    decreases i,
{
    if i == 0 {
        assert(state.skip(0) =~= state);
    } else {
        assert(!values::same_row(state[0].0, key));
        let rest = state.drop_first();
        assert forall|j: int| 0 <= j < i - 1 implies !values::same_row(
            (#[trigger] rest[j]).0,
            key,
        ) by {
            assert(rest[j] == state[j + 1]);
        }
        lemma_bucket_of_skip(rest, key, i - 1);
        assert(rest.skip(i - 1) =~= state.skip(i));
    }
}

impl JoinState {
    /// The rows by key.
    pub open spec fn view(&self) -> KeyedCounts {
        bucket_views(self.buckets@)
    }

    /// A state without rows.
    pub fn new() -> (state: Self)
        ensures
            state.view() == KeyedCounts::empty(),
    {
        let state = JoinState { buckets: Vec::new() };
        assert(state.view() =~= KeyedCounts::empty());
        state
    }

    /// The position of the bucket of a key.
    fn position(&self, key: &Row) -> (at: usize)
        ensures
            at == bucket_of(self.view(), values::row_view(key@)),
            at <= self.buckets@.len(),
    {
        let ghost state = self.view();
        let ghost wanted = values::row_view(key@);
        let mut i: usize = 0;
        while i < self.buckets.len()
            invariant
                i <= self.buckets@.len(),
                state == self.view(),
                wanted == values::row_view(key@),
                forall|j: int| 0 <= j < i ==> !values::same_row((#[trigger] state[j]).0, wanted),
            decreases self.buckets@.len() - i,
        {
            if rows_same(&self.buckets[i].key, key) {
                proof {
                    lemma_bucket_of_skip(state, wanted, i as int);
                    assert(state.skip(i as int)[0] == state[i as int]);
                }
                return i;
            }
            assert(state[i as int] == self.buckets@[i as int]@);
            i = i + 1;
        }
        proof {
            lemma_bucket_of_skip(state, wanted, i as int);
        }
        i
    }

    /// Whether the change of a row's multiplicity stays within sixty-four bits.
    fn change_fits(&self, key: &Row, row: &Row, diff: Diff) -> (fits: bool)
        ensures
            fits == change_fits(
                rows_for(self.view(), values::row_view(key@)),
                values::row_view(row@),
                diff,
            ),
    {
        let at: usize = self.position(key);
        if at < self.buckets.len() {
            state_change_fits(&self.buckets[at].rows, row, diff)
        } else {
            let none: Vec<StoredRow> = Vec::new();
            assert(stored_views(none@) =~= RowCounts::empty());
            state_change_fits(&none, row, diff)
        }
    }

    /// Changes the multiplicity of a row under its key.
    fn change(&mut self, key: &Row, row: &Row, diff: Diff)
        requires
            change_fits(
                rows_for(old(self).view(), values::row_view(key@)),
                values::row_view(row@),
                diff,
            ),
        ensures
            final(self).view() == with_rows(
                old(self).view(),
                values::row_view(key@),
                changed(
                    rows_for(old(self).view(), values::row_view(key@)),
                    values::row_view(row@),
                    diff,
                ),
            ),
    {
        let ghost before = self.view();
        let ghost wanted = values::row_view(key@);
        let at: usize = self.position(key);
        if at < self.buckets.len() {
            let mut bucket = Bucket { key: Vec::new(), rows: Vec::new() };
            std::mem::swap(&mut bucket, &mut self.buckets[at]);
            let ghost kept = bucket.key;
            assert(bucket@ == before[at as int]);
            apply_state_change(&mut bucket.rows, row, diff);
            self.buckets.set(at, bucket);
        } else {
            let mut rows: Vec<StoredRow> = Vec::new();
            assert(stored_views(rows@) =~= RowCounts::empty());
            apply_state_change(&mut rows, row, diff);
            self.buckets.push(Bucket { key: clone_row(key), rows });
        }
        assert(self.view() =~= with_rows(
            before,
            wanted,
            changed(rows_for(before, wanted), values::row_view(row@), diff),
        ));
    }

    /// Keeps a row under its key with the multiplicity it was stored with.
    fn store(&mut self, key: &Row, row: &Row, multiplicity: Diff)
        ensures
            final(self).view() == with_rows(
                old(self).view(),
                values::row_view(key@),
                rows_for(old(self).view(), values::row_view(key@)).push(
                    (values::row_view(row@), multiplicity as int),
                ),
            ),
    {
        let ghost before = self.view();
        let ghost wanted = values::row_view(key@);
        let stored = StoredRow { row: clone_row(row), multiplicity };
        let at: usize = self.position(key);
        if at < self.buckets.len() {
            let mut bucket = Bucket { key: Vec::new(), rows: Vec::new() };
            std::mem::swap(&mut bucket, &mut self.buckets[at]);
            assert(bucket@ == before[at as int]);
            let ghost rows = stored_views(bucket.rows@);
            bucket.rows.push(stored);
            assert(stored_views(bucket.rows@) =~= rows.push(stored@));
            self.buckets.set(at, bucket);
        } else {
            let mut rows: Vec<StoredRow> = Vec::new();
            rows.push(stored);
            assert(stored_views(rows@) =~= RowCounts::empty().push(stored@));
            self.buckets.push(Bucket { key: clone_row(key), rows });
        }
        assert(self.view() =~= with_rows(
            before,
            wanted,
            rows_for(before, wanted).push((values::row_view(row@), multiplicity as int)),
        ));
    }
}

/// The values of the first `n` key columns of a row.
pub open spec fn key_values(row: Seq<ScalarView>, columns: Seq<usize>, n: nat) -> Result<
    Seq<ScalarView>,
    OperatorError,
>
    decreases n,
{
    if n == 0 || n > columns.len() {
        Ok(Seq::empty())
    } else {
        match key_values(row, columns, (n - 1) as nat) {
            Err(error) => Err(error),
            Ok(values) => if columns[n - 1] < row.len() {
                Ok(values.push(row[columns[n - 1] as int]))
            } else {
                Err(OperatorError::KeyOutOfBounds(columns[n - 1]))
            },
        }
    }
}

/// The key columns of one side.
pub open spec fn side_columns(on: Seq<(usize, usize)>, side: JoinSide) -> Seq<usize> {
    Seq::new(
        on.len(),
        |i: int|
            match side {
                JoinSide::Left => on[i].0,
                JoinSide::Right => on[i].1,
            },
    )
}

/// The key of a row of one side.
pub open spec fn side_key(row: Seq<ScalarView>, on: Seq<(usize, usize)>, side: JoinSide) -> Result<
    Seq<ScalarView>,
    OperatorError,
> {
    key_values(row, side_columns(on, side), on.len())
}

proof fn lemma_key_ended(row: Seq<ScalarView>, columns: Seq<usize>, n: nat, m: nat)
    requires
        key_values(row, columns, n) is Err,
        n <= m <= columns.len(),
    ensures
        key_values(row, columns, m) == key_values(row, columns, n),
    decreases m,
{
    if n < m {
        lemma_key_ended(row, columns, n, (m - 1) as nat);
    }
}

/// The key of a row of one side.
fn build_key(row: &Row, on: &Vec<(usize, usize)>, side: JoinSide) -> (key: Result<
    Row,
    OperatorError,
>)
    ensures
        match key {
            Ok(k) => side_key(values::row_view(row@), on@, side) == Ok::<
                Seq<ScalarView>,
                OperatorError,
            >(values::row_view(k@)),
            Err(error) => side_key(values::row_view(row@), on@, side) == Err::<
                Seq<ScalarView>,
                OperatorError,
            >(error),
        },
{
    let ghost view = values::row_view(row@);
    let ghost columns = side_columns(on@, side);
    let mut key: Row = Vec::new();
    let mut i: usize = 0;
    assert(values::row_view(key@) =~= Seq::<ScalarView>::empty());
    while i < on.len()
        invariant
            i <= on@.len(),
            view == values::row_view(row@),
            columns == side_columns(on@, side),
            key_values(view, columns, i as nat) == Ok::<Seq<ScalarView>, OperatorError>(
                values::row_view(key@),
            ),
        decreases on@.len() - i,
    {
        let column: usize = match side {
            JoinSide::Left => on[i].0,
            JoinSide::Right => on[i].1,
        };
        assert(column == columns[i as int]);
        if column >= row.len() {
            proof {
                lemma_key_ended(view, columns, (i + 1) as nat, columns.len());
            }
            return Err(OperatorError::KeyOutOfBounds(column));
        }
        let ghost before = values::row_view(key@);
        let value: ScalarValue = row[column].clone();
        key.push(value);
        assert(values::row_view(key@) =~= before.push(view[column as int]));
        i = i + 1;
    }
    Ok(key)
}

/// The joined values of a row of one side and a row of the other.
pub open spec fn joined_row(
    side: JoinSide,
    row: Seq<ScalarView>,
    other: Seq<ScalarView>,
) -> Seq<ScalarView> {
    match side {
        JoinSide::Left => row + other,
        JoinSide::Right => other + row,
    }
}

/// The changes of the output for the first `n` rows of the other side, or the first failure.
pub open spec fn join_outputs(
    side: JoinSide,
    row: Seq<ScalarView>,
    diff: int,
    others: RowCounts,
    projection: Seq<Expr>,
    n: nat,
    floats: FloatMath,
) -> Result<RowCounts, OperatorError>
    decreases n,
{
    if n == 0 || n > others.len() {
        Ok(Seq::empty())
    } else {
        match join_outputs(side, row, diff, others, projection, (n - 1) as nat, floats) {
            Err(error) => Err(error),
            Ok(outputs) => match crate::operators::map::mapped_with(
                projection,
                projection.len(),
                joined_row(side, row, others[n - 1].0),
                floats,
            ) {
                Err(error) => Err(OperatorError::Expression(error)),
                Ok(projected) => {
                    let change = diff * others[n - 1].1;
                    if !(i64::MIN <= change <= i64::MAX) {
                        Err(OperatorError::MultiplicityOverflow)
                    } else if change == 0 {
                        Ok(outputs)
                    } else {
                        Ok(outputs.push((projected, change)))
                    }
                },
            },
        }
    }
}

proof fn lemma_outputs_ended(
    side: JoinSide,
    row: Seq<ScalarView>,
    diff: int,
    others: RowCounts,
    projection: Seq<Expr>,
    n: nat,
    m: nat,
    floats: FloatMath,
)
    requires
        join_outputs(side, row, diff, others, projection, n, floats) is Err,
        n <= m <= others.len(),
    ensures
        join_outputs(side, row, diff, others, projection, m, floats) == join_outputs(
            side,
            row,
            diff,
            others,
            projection,
            n,
            floats,
        ),
    decreases m,
{
    if n < m {
        lemma_outputs_ended(side, row, diff, others, projection, n, (m - 1) as nat, floats);
    }
}

/// With more results of operations on floats, the changes of the output are what they were, where
/// they did not wait for a result.
pub proof fn law_results_only_complete_the_outputs(
    side: JoinSide,
    row: Seq<ScalarView>,
    diff: int,
    others: RowCounts,
    projection: Seq<Expr>,
    n: nat,
    some: FloatMath,
    more: FloatMath,
)
    requires
        some.within(more),
        !(join_outputs(side, row, diff, others, projection, n, some) matches Err(
            OperatorError::Expression(ExprError::Awaits(_)),
        )),
    ensures
        join_outputs(side, row, diff, others, projection, n, more) == join_outputs(
            side,
            row,
            diff,
            others,
            projection,
            n,
            some,
        ),
    decreases n,
{
    if 0 < n <= others.len() {
        law_results_only_complete_the_outputs(
            side,
            row,
            diff,
            others,
            projection,
            (n - 1) as nat,
            some,
            more,
        );
        crate::operators::map::law_results_only_complete_a_row(
            projection,
            projection.len(),
            joined_row(side, row, others[n - 1].0),
            some,
            more,
        );
    }
}

/// Changes of rows as what they stand for.
pub open spec fn change_views(changes: Seq<(Row, Diff)>) -> RowCounts {
    Seq::new(changes.len(), |i: int| (values::row_view(changes[i].0@), changes[i].1 as int))
}

/// The changes of the output that a change of one side brings about.
fn build_outputs(
    side: JoinSide,
    row: &Row,
    diff: Diff,
    others: &Vec<StoredRow>,
    projection: &Vec<Expr>,
    floats: &FloatResults,
) -> (outputs: Result<Vec<(Row, Diff)>, OperatorError>)
    ensures
        ({
            let expected = join_outputs(
                side,
                values::row_view(row@),
                diff as int,
                stored_views(others@),
                projection@,
                others@.len(),
                floats@,
            );
            match outputs {
                Ok(changes) => expected == Ok::<RowCounts, OperatorError>(change_views(changes@)),
                Err(error) => expected == Err::<RowCounts, OperatorError>(error),
            }
        }),
{
    let ghost view = values::row_view(row@);
    let ghost counts = stored_views(others@);
    let mut outputs: Vec<(Row, Diff)> = Vec::new();
    let mut i: usize = 0;
    assert(change_views(outputs@) =~= RowCounts::empty());
    while i < others.len()
        invariant
            i <= others@.len(),
            view == values::row_view(row@),
            counts == stored_views(others@),
            join_outputs(side, view, diff as int, counts, projection@, i as nat, floats@) == Ok::<
                RowCounts,
                OperatorError,
            >(change_views(outputs@)),
        decreases others@.len() - i,
    {
        let other = &others[i];
        assert(counts[i as int] == other@);
        let joined: Row = match side {
            JoinSide::Left => concat_rows(row, &other.row),
            JoinSide::Right => concat_rows(&other.row, row),
        };
        match project_row_with(projection, &joined, floats) {
            Err(error) => {
                proof {
                    lemma_outputs_ended(
                        side,
                        view,
                        diff as int,
                        counts,
                        projection@,
                        (i + 1) as nat,
                        counts.len(),
                        floats@,
                    );
                }
                return Err(OperatorError::Expression(error));
            },
            Ok(projected) => {
                proof {
                    let a = diff as int;
                    let b = other.multiplicity as int;
                    assert(-0x4000_0000_0000_0000_0000_0000_0000_0000 <= a * b
                        <= 0x4000_0000_0000_0000_0000_0000_0000_0000) by (nonlinear_arith)
                        requires
                            -0x8000_0000_0000_0000 <= a <= 0x8000_0000_0000_0000,
                            -0x8000_0000_0000_0000 <= b <= 0x8000_0000_0000_0000,
                    ;
                }
                let change: i128 = diff as i128 * other.multiplicity as i128;
                if change < i64::MIN as i128 || change > i64::MAX as i128 {
                    proof {
                        lemma_outputs_ended(
                            side,
                            view,
                            diff as int,
                            counts,
                            projection@,
                            (i + 1) as nat,
                            counts.len(),
                            floats@,
                        );
                    }
                    return Err(OperatorError::MultiplicityOverflow);
                }
                if change != 0 {
                    let ghost before = change_views(outputs@);
                    let ghost projected_view = values::row_view(projected@);
                    outputs.push((projected, change as i64));
                    assert(change_views(outputs@) =~= before.push(
                        (projected_view, change as int),
                    ));
                }
            },
        }
        i = i + 1;
    }
    Ok(outputs)
}

/// How handing changes to a sink one after the other may go: the sink takes the first `handed` of
/// them and the operator answers accordingly.
pub open spec fn emits<S: RowSink>(
    before: S,
    changes: RowCounts,
    timestamp: Timestamp,
    after: S,
    handed: nat,
    result: Result<(), OperatorError>,
) -> bool
    decreases changes.len(),
{
    if changes.len() == 0 {
        after == before && handed == 0 && result is Ok
    } else {
        exists|diff: Diff, mid: S, outcome: Result<(), SinkError>|
            {
                &&& #[trigger] S::push_step(before, changes[0].0, diff, timestamp, mid, outcome)
                &&& diff == changes[0].1
                &&& handed > 0
                &&& match outcome {
                    Err(error) => after == mid && handed == 1 && result == Err::<
                        (),
                        OperatorError,
                    >(OperatorError::Sink(error)),
                    Ok(_) => emits(
                        mid,
                        changes.drop_first(),
                        timestamp,
                        after,
                        (handed - 1) as nat,
                        result,
                    ),
                }
            }
    }
}

/// Changes of a join that are still to be stored.
#[derive(Debug, PartialEq, Eq)]
pub struct JoinChanges {
    pub left: Vec<(Row, Diff)>,
    pub right: Vec<(Row, Diff)>,
    pub output: Vec<(Row, Diff)>,
}

/// Joins the rows of two inputs on equal columns.
#[derive(Debug)]
pub struct JoinOperator<S: RowSink> {
    pub left_input: InputPort,
    pub right_input: InputPort,
    pub join_keys: Vec<(usize, usize)>,
    pub projection: Vec<Expr>,
    pub sink: S,
    pub left_state: JoinState,
    pub right_state: JoinState,
    /// Changes of the left rows that are still to be stored.
    pub left_changes: Vec<(Row, Diff)>,
    /// Changes of the right rows that are still to be stored.
    pub right_changes: Vec<(Row, Diff)>,
    /// Changes of the output that are still to be stored.
    pub output_changes: Vec<(Row, Diff)>,
}


/// Handing on a first part and then the rest is handing on the whole.
proof fn lemma_emits_then<S: RowSink>(
    before: S,
    first: RowCounts,
    timestamp: Timestamp,
    mid: S,
    rest: RowCounts,
    after: S,
    handed: nat,
    result: Result<(), OperatorError>,
)
    requires
        emits(before, first, timestamp, mid, first.len(), Ok(())),
        emits(mid, rest, timestamp, after, handed, result),
    ensures
        emits(before, first + rest, timestamp, after, first.len() + handed, result),
    decreases first.len(),
{
    if first.len() == 0 {
        assert(first + rest =~= rest);
    } else {
        let (diff, m, outcome) = choose|diff: Diff, m: S, outcome: Result<(), SinkError>|
            {
                &&& #[trigger] S::push_step(before, first[0].0, diff, timestamp, m, outcome)
                &&& diff == first[0].1
                &&& first.len() > 0
                &&& match outcome {
                    Err(error) => mid == m && first.len() == 1 && Ok::<(), OperatorError>(())
                        == Err::<(), OperatorError>(OperatorError::Sink(error)),
                    Ok(_) => emits(
                        m,
                        first.drop_first(),
                        timestamp,
                        mid,
                        (first.len() - 1) as nat,
                        Ok(()),
                    ),
                }
            };
        lemma_emits_then(m, first.drop_first(), timestamp, mid, rest, after, handed, result);
        assert((first + rest).drop_first() =~= first.drop_first() + rest);
        assert((first + rest)[0] == first[0]);
    }
}

/// Handing on one change.
proof fn lemma_emits_one<S: RowSink>(
    before: S,
    change: (Seq<ScalarView>, int),
    diff: Diff,
    rest: RowCounts,
    timestamp: Timestamp,
    after: S,
    outcome: Result<(), SinkError>,
)
    requires
        diff == change.1,
        S::push_step(before, change.0, diff, timestamp, after, outcome),
    ensures
        match outcome {
            Ok(_) => emits(before, seq![change], timestamp, after, 1, Ok(())),
            Err(error) => emits(
                before,
                seq![change] + rest,
                timestamp,
                after,
                1,
                Err(OperatorError::Sink(error)),
            ),
        },
{
    match outcome {
        Ok(_) => {
            let one = seq![change];
            assert(one.drop_first() =~= RowCounts::empty());
            assert(emits(after, one.drop_first(), timestamp, after, 0, Ok(())));
            assert(one[0] == change);
        },
        Err(_) => {
            let all = seq![change] + rest;
            assert(all[0] == change);
        },
    }
}

/// How noting changes and handing them to a sink one after the other may go.
pub open spec fn noted_and_handed<S: RowSink>(
    before: S,
    changes: RowCounts,
    timestamp: Timestamp,
    after: S,
    noted_before: RowCounts,
    noted_after: RowCounts,
    result: Result<(), OperatorError>,
) -> bool {
    exists|handed: nat|
        {
            &&& #[trigger] emits(before, changes, timestamp, after, handed, result)
            &&& handed <= changes.len()
            &&& noted_after == noted_before + changes.take(handed as int)
        }
}

/// How that may go where the change at a position, if there is one, cannot be encoded: the changes
/// before it are noted and handed on.
pub open spec fn handed_up_to<S: RowSink>(
    before: S,
    changes: RowCounts,
    refused: Option<usize>,
    timestamp: Timestamp,
    after: S,
    noted_before: RowCounts,
    noted_after: RowCounts,
    result: Result<(), OperatorError>,
) -> bool {
    match refused {
        Some(at) if at < changes.len() => exists|outcome: Result<(), OperatorError>|
            {
                &&& #[trigger] noted_and_handed(
                    before,
                    changes.take(at as int),
                    timestamp,
                    after,
                    noted_before,
                    noted_after,
                    outcome,
                )
                &&& result == match outcome {
                    Ok(_) => Err::<(), OperatorError>(OperatorError::NotEncoded),
                    Err(error) => Err(error),
                }
            },
        _ => noted_and_handed(
            before,
            changes,
            timestamp,
            after,
            noted_before,
            noted_after,
            result,
        ),
    }
}

/// Hands changes to a sink one after the other, noting each one first.
fn emit_all<S: RowSink>(
    sink: &mut S,
    changes: Vec<(Row, Diff)>,
    timestamp: Timestamp,
    noted: &mut Vec<(Row, Diff)>,
) -> (result: Result<(), OperatorError>)
    ensures
        noted_and_handed(
            *old(sink),
            change_views(changes@),
            timestamp,
            *final(sink),
            change_views(old(noted)@),
            change_views(final(noted)@),
            result,
        ),
{
    let ghost all = change_views(changes@);
    let ghost start = *sink;
    let ghost noted_before = change_views(noted@);
    assert(all.take(0) =~= RowCounts::empty());
    assert(change_views(noted@) =~= noted_before + all.take(0));
    for change in it: changes
        invariant
            it.seq() == changes@,
            all == change_views(changes@),
            start == *old(sink),
            noted_before == change_views(old(noted)@),
            emits(start, all.take(it.index()), timestamp, *sink, it.index() as nat, Ok(())),
            change_views(noted@) == noted_before + all.take(it.index()),
    {
        let ghost i = it.index();
        let ghost mid = *sink;
        let ghost noted_so_far = change_views(noted@);
        let (row, diff) = change;
        let ghost entry = (values::row_view(row@), diff as int);
        assert(all[i] == entry);
        let copy = clone_row(&row);
        assert(values::row_view(copy@) =~= values::row_view(row@));
        noted.push((copy, diff));
        assert(change_views(noted@) =~= noted_so_far.push(entry));
        assert(all.take(i + 1) =~= all.take(i) + seq![entry]);
        assert(change_views(noted@) =~= noted_before + all.take(i + 1));
        let outcome = sink.push(row, diff, timestamp);
        proof {
            let rest = all.skip(i + 1);
            lemma_emits_one(mid, entry, diff, rest, timestamp, *sink, outcome);
        }
        match outcome {
            Ok(()) => {
                proof {
                    lemma_emits_then(
                        start,
                        all.take(i),
                        timestamp,
                        mid,
                        seq![entry],
                        *sink,
                        1,
                        Ok(()),
                    );
                }
            },
            Err(error) => {
                proof {
                    lemma_emits_then(
                        start,
                        all.take(i),
                        timestamp,
                        mid,
                        seq![entry] + all.skip(i + 1),
                        *sink,
                        1,
                        Err(OperatorError::Sink(error)),
                    );
                    assert(all =~= all.take(i) + (seq![entry] + all.skip(i + 1)));
                    assert(emits(
                        start,
                        all,
                        timestamp,
                        *sink,
                        (i + 1) as nat,
                        Err(OperatorError::Sink(error)),
                    ));
                }
                return Err(OperatorError::Sink(error));
            },
        }
    }
    assert(all.take(all.len() as int) =~= all);
    assert(emits(start, all, timestamp, *sink, all.len(), Ok(())));
    Ok(())
}

impl<S: RowSink> JoinOperator<S> {
    /// The rows of one side.
    pub open spec fn rows(self, side: JoinSide) -> KeyedCounts {
        match side {
            JoinSide::Left => self.left_state.view(),
            JoinSide::Right => self.right_state.view(),
        }
    }

    /// The changes of one side that are still to be stored.
    pub open spec fn unstored(self, side: JoinSide) -> RowCounts {
        match side {
            JoinSide::Left => change_views(self.left_changes@),
            JoinSide::Right => change_views(self.right_changes@),
        }
    }

    /// The operator joins the same inputs in the same way.
    pub open spec fn same_plan(self, other: Self) -> bool {
        &&& self.left_input == other.left_input
        &&& self.right_input == other.right_input
        &&& self.join_keys == other.join_keys
        &&& self.projection == other.projection
    }

    /// The operator is in the same state.
    pub open spec fn same_state(self, other: Self) -> bool {
        &&& self.sink == other.sink
        &&& self.left_state == other.left_state
        &&& self.right_state == other.right_state
        &&& self.left_changes == other.left_changes
        &&& self.right_changes == other.right_changes
        &&& self.output_changes == other.output_changes
    }

    /// A join of two inputs without rows.
    pub fn new(
        left_input: InputPort,
        right_input: InputPort,
        join_keys: Vec<(usize, usize)>,
        projection: Vec<Expr>,
        sink: S,
    ) -> (operator: Self)
        ensures
            operator.left_input == left_input,
            operator.right_input == right_input,
            operator.join_keys == join_keys,
            operator.projection == projection,
            operator.sink == sink,
            operator.rows(JoinSide::Left) == KeyedCounts::empty(),
            operator.rows(JoinSide::Right) == KeyedCounts::empty(),
            operator.left_changes@.len() == 0,
            operator.right_changes@.len() == 0,
            operator.output_changes@.len() == 0,
    {
        JoinOperator {
            left_input,
            right_input,
            join_keys,
            projection,
            sink,
            left_state: JoinState::new(),
            right_state: JoinState::new(),
            left_changes: Vec::new(),
            right_changes: Vec::new(),
            output_changes: Vec::new(),
        }
    }

    /// The sink that is fed.
    pub fn sink(&self) -> (sink: &S)
        ensures
            *sink == self.sink,
    {
        &self.sink
    }

    /// Takes a change of a row of one side: updates the rows of that side, and hands on the changes
    /// that it brings about with the matching rows of the other side.
    pub fn handle_row(
        &mut self,
        side: JoinSide,
        row: Row,
        diff: Diff,
        timestamp: Timestamp,
    ) -> (result: Result<(), OperatorError>)
        ensures
            final(self).same_plan(*old(self)),
            old(self).row_handled(
                side,
                values::row_view(row@),
                diff,
                timestamp,
                FloatMath::none(),
                Encodable::spec_all(),
                *final(self),
                result,
            ),
    {
        self.handle_row_with(side, row, diff, timestamp, &FloatResults::new(), Encodable::all())
    }

    /// The same, with results of operations on floats, and where some rows cannot be encoded.
    pub fn handle_row_with(
        &mut self,
        side: JoinSide,
        row: Row,
        diff: Diff,
        timestamp: Timestamp,
        floats: &FloatResults,
        encodable: Encodable,
    ) -> (result: Result<(), OperatorError>)
        ensures
            final(self).same_plan(*old(self)),
            old(self).row_handled(
                side,
                values::row_view(row@),
                diff,
                timestamp,
                floats@,
                encodable,
                *final(self),
                result,
            ),
    {
        if diff == 0 {
            return Ok(());
        }
        let key: Row = match build_key(&row, &self.join_keys, side) {
            Ok(key) => key,
            Err(error) => {
                return Err(error);
            },
        };
        let ghost view = values::row_view(row@);
        let copy = clone_row(&row);
        assert(values::row_view(copy@) =~= view);
        let others: Result<Vec<(Row, Diff)>, OperatorError>;
        match side {
            JoinSide::Left => {
                if !self.left_state.change_fits(&key, &row, diff) {
                    return Err(OperatorError::MultiplicityOverflow);
                }
                self.left_state.change(&key, &row, diff);
                if !encodable.row {
                    return Err(OperatorError::NotEncoded);
                }
                let ghost noted = change_views(self.left_changes@);
                self.left_changes.push((copy, diff));
                assert(change_views(self.left_changes@) =~= noted.push((view, diff as int)));
                let at: usize = self.right_state.position(&key);
                if at < self.right_state.buckets.len() {
                    others = build_outputs(
                        side,
                        &row,
                        diff,
                        &self.right_state.buckets[at].rows,
                        &self.projection,
                        floats,
                    );
                } else {
                    others = Ok(Vec::new());
                    assert(change_views(others->Ok_0@) =~= RowCounts::empty());
                }
            },
            JoinSide::Right => {
                if !self.right_state.change_fits(&key, &row, diff) {
                    return Err(OperatorError::MultiplicityOverflow);
                }
                self.right_state.change(&key, &row, diff);
                if !encodable.row {
                    return Err(OperatorError::NotEncoded);
                }
                let ghost noted = change_views(self.right_changes@);
                self.right_changes.push((copy, diff));
                assert(change_views(self.right_changes@) =~= noted.push((view, diff as int)));
                let at: usize = self.left_state.position(&key);
                if at < self.left_state.buckets.len() {
                    others = build_outputs(
                        side,
                        &row,
                        diff,
                        &self.left_state.buckets[at].rows,
                        &self.projection,
                        floats,
                    );
                } else {
                    others = Ok(Vec::new());
                    assert(change_views(others->Ok_0@) =~= RowCounts::empty());
                }
            },
        }
        match others {
            Err(error) => Err(error),
            Ok(changes) => {
                let mut changes = changes;
                let mut cut: bool = false;
                let ghost all = change_views(changes@);
                if let Some(at) = encodable.output {
                    if at < changes.len() {
                        changes.truncate(at);
                        cut = true;
                        assert(change_views(changes@) =~= all.take(at as int));
                    }
                }
                let outcome = emit_all(
                    &mut self.sink,
                    changes,
                    timestamp,
                    &mut self.output_changes,
                );
                if cut {
                    match outcome {
                        Ok(()) => Err(OperatorError::NotEncoded),
                        Err(error) => Err(error),
                    }
                } else {
                    outcome
                }
            },
        }
    }

    /// How taking a change of a row of one side may change the operator and what it may answer.
    pub open spec fn row_handled(
        self,
        side: JoinSide,
        row: Seq<ScalarView>,
        diff: Diff,
        timestamp: Timestamp,
        floats: FloatMath,
        encodable: Encodable,
        after: Self,
        result: Result<(), OperatorError>,
    ) -> bool {
        let other = match side {
            JoinSide::Left => JoinSide::Right,
            JoinSide::Right => JoinSide::Left,
        };
        if diff == 0 {
            result is Ok && after.same_state(self)
        } else {
            match side_key(row, self.join_keys@, side) {
                Err(error) => result == Err::<(), OperatorError>(error) && after.same_state(self),
                Ok(key) => {
                    let kept = rows_for(self.rows(side), key);
                    if !change_fits(kept, row, diff) {
                        result == Err::<(), OperatorError>(OperatorError::MultiplicityOverflow)
                            && after.same_state(self)
                    } else {
                        &&& after.rows(side) == with_rows(
                            self.rows(side),
                            key,
                            changed(kept, row, diff),
                        )
                        &&& after.rows(other) == self.rows(other)
                        &&& after.unstored(other) == self.unstored(other)
                        &&& if !encodable.row {
                            &&& result == Err::<(), OperatorError>(OperatorError::NotEncoded)
                            &&& after.unstored(side) == self.unstored(side)
                            &&& after.sink == self.sink
                            &&& after.output_changes == self.output_changes
                        } else {
                            &&& after.unstored(side) == self.unstored(side).push((row, diff as int))
                            &&& match join_outputs(
                                side,
                                row,
                                diff as int,
                                rows_for(self.rows(other), key),
                                self.projection@,
                                rows_for(self.rows(other), key).len(),
                                floats,
                            ) {
                                Err(error) => {
                                    &&& result == Err::<(), OperatorError>(error)
                                    &&& after.sink == self.sink
                                    &&& after.output_changes == self.output_changes
                                },
                                Ok(outputs) => handed_up_to(
                                    self.sink,
                                    outputs,
                                    encodable.output,
                                    timestamp,
                                    after.sink,
                                    change_views(self.output_changes@),
                                    change_views(after.output_changes@),
                                    result,
                                ),
                            }
                        }
                    }
                },
            }
        }
    }

    /// The input from which a row of a side comes.
    pub open spec fn side_of(self, input: InputPort) -> Option<JoinSide> {
        if input == self.left_input {
            Some(JoinSide::Left)
        } else if input == self.right_input {
            Some(JoinSide::Right)
        } else {
            None
        }
    }

    /// How taking a change of a row of an input may change the operator and what it may answer.
    pub open spec fn input_handled(
        self,
        input: InputPort,
        row: Seq<ScalarView>,
        diff: Diff,
        timestamp: Timestamp,
        floats: FloatMath,
        encodable: Encodable,
        after: Self,
        result: Result<(), OperatorError>,
    ) -> bool {
        match self.side_of(input) {
            Some(side) => self.row_handled(
                side,
                row,
                diff,
                timestamp,
                floats,
                encodable,
                after,
                result,
            ),
            None => {
                &&& result == Err::<(), OperatorError>(OperatorError::UnexpectedPort(input))
                &&& after.same_state(self)
            },
        }
    }

    /// Takes a change of a row of the input that it comes from.
    pub fn on_input(
        &mut self,
        input: InputPort,
        row: Row,
        diff: Diff,
        timestamp: Timestamp,
    ) -> (result: Result<(), OperatorError>)
        ensures
            final(self).same_plan(*old(self)),
            old(self).input_handled(
                input,
                values::row_view(row@),
                diff,
                timestamp,
                FloatMath::none(),
                Encodable::spec_all(),
                *final(self),
                result,
            ),
    {
        self.on_input_with(input, row, diff, timestamp, &FloatResults::new(), Encodable::all())
    }

    /// The same, with results of operations on floats, and where some rows cannot be encoded.
    pub fn on_input_with(
        &mut self,
        input: InputPort,
        row: Row,
        diff: Diff,
        timestamp: Timestamp,
        floats: &FloatResults,
        encodable: Encodable,
    ) -> (result: Result<(), OperatorError>)
        ensures
            final(self).same_plan(*old(self)),
            old(self).input_handled(
                input,
                values::row_view(row@),
                diff,
                timestamp,
                floats@,
                encodable,
                *final(self),
                result,
            ),
    {
        if input == self.left_input {
            self.handle_row_with(JoinSide::Left, row, diff, timestamp, floats, encodable)
        } else if input == self.right_input {
            self.handle_row_with(JoinSide::Right, row, diff, timestamp, floats, encodable)
        } else {
            Err(OperatorError::UnexpectedPort(input))
        }
    }

    /// The changes of the output that a change of a row of a side brings about, or the first
    /// failure.
    pub fn outputs(&self, side: JoinSide, row: &Row, diff: Diff, floats: &FloatResults) -> (outputs:
        Result<Vec<(Row, Diff)>, OperatorError>)
        ensures
            ({
                let other = match side {
                    JoinSide::Left => JoinSide::Right,
                    JoinSide::Right => JoinSide::Left,
                };
                let view = values::row_view(row@);
                let expected = match side_key(view, self.join_keys@, side) {
                    Err(error) => Err(error),
                    Ok(key) => {
                        let others = rows_for(self.rows(other), key);
                        join_outputs(
                            side,
                            view,
                            diff as int,
                            others,
                            self.projection@,
                            others.len(),
                            floats@,
                        )
                    },
                };
                match outputs {
                    Ok(changes) => expected == Ok::<RowCounts, OperatorError>(
                        change_views(changes@),
                    ),
                    Err(error) => expected == Err::<RowCounts, OperatorError>(error),
                }
            }),
    {
        let key: Row = match build_key(row, &self.join_keys, side) {
            Ok(key) => key,
            Err(error) => {
                return Err(error);
            },
        };
        let other = match side {
            JoinSide::Left => &self.right_state,
            JoinSide::Right => &self.left_state,
        };
        let at: usize = other.position(&key);
        if at < other.buckets.len() {
            build_outputs(
                side,
                row,
                diff,
                &other.buckets[at].rows,
                &self.projection,
                floats,
            )
        } else {
            let none: Vec<(Row, Diff)> = Vec::new();
            assert(change_views(none@) =~= RowCounts::empty());
            Ok(none)
        }
    }

    /// The operation on floats whose result taking a change of a row of a side waits for.
    pub open spec fn awaited_of(
        self,
        side: JoinSide,
        row: Seq<ScalarView>,
        diff: Diff,
        floats: FloatMath,
        encodable: Encodable,
    ) -> Option<FloatCall> {
        let other = match side {
            JoinSide::Left => JoinSide::Right,
            JoinSide::Right => JoinSide::Left,
        };
        match side_key(row, self.join_keys@, side) {
            Ok(key) if diff != 0 && encodable.row && change_fits(
                rows_for(self.rows(side), key),
                row,
                diff,
            ) => match join_outputs(
                side,
                row,
                diff as int,
                rows_for(self.rows(other), key),
                self.projection@,
                rows_for(self.rows(other), key).len(),
                floats,
            ) {
                Err(OperatorError::Expression(ExprError::Awaits(call))) => Some(call),
                _ => None,
            },
            _ => None,
        }
    }

    /// The operation on floats whose result taking a change of a row waits for.
    pub fn awaited(
        &self,
        input: InputPort,
        row: &Row,
        diff: Diff,
        floats: &FloatResults,
        encodable: Encodable,
    ) -> (call: Option<FloatCall>)
        ensures
            call == match self.side_of(input) {
                Some(side) => self.awaited_of(
                    side,
                    values::row_view(row@),
                    diff,
                    floats@,
                    encodable,
                ),
                None => None,
            },
    {
        let side: JoinSide = if input == self.left_input {
            JoinSide::Left
        } else if input == self.right_input {
            JoinSide::Right
        } else {
            return None;
        };
        if diff == 0 || !encodable.row {
            return None;
        }
        let key: Row = match build_key(row, &self.join_keys, side) {
            Ok(key) => key,
            Err(_) => {
                return None;
            },
        };
        let own = match side {
            JoinSide::Left => &self.left_state,
            JoinSide::Right => &self.right_state,
        };
        if !own.change_fits(&key, row, diff) {
            return None;
        }
        match self.outputs(side, row, diff, floats) {
            Err(OperatorError::Expression(ExprError::Awaits(call))) => Some(call),
            _ => None,
        }
    }

    /// How handing the changes out that are still to be stored changes the operator.
    pub open spec fn changes_taken(self, after: Self, changes: JoinChanges) -> bool {
        &&& changes.left == self.left_changes
        &&& changes.right == self.right_changes
        &&& changes.output == self.output_changes
        &&& after.left_changes@.len() == 0
        &&& after.right_changes@.len() == 0
        &&& after.output_changes@.len() == 0
        &&& after.same_plan(self)
        &&& after.left_state == self.left_state
        &&& after.right_state == self.right_state
        &&& after.sink == self.sink
    }

    /// Hands out the changes that are still to be stored.
    pub fn take_changes(&mut self) -> (changes: JoinChanges)
        ensures
            old(self).changes_taken(*final(self), changes),
    {
        let mut changes = JoinChanges { left: Vec::new(), right: Vec::new(), output: Vec::new() };
        std::mem::swap(&mut changes.left, &mut self.left_changes);
        std::mem::swap(&mut changes.right, &mut self.right_changes);
        std::mem::swap(&mut changes.output, &mut self.output_changes);
        changes
    }

    /// Hands a watermark to the sink.
    pub fn on_watermark(&mut self, watermark: Timestamp) -> (result: Result<(), OperatorError>)
        ensures
            super::passes_watermark(old(self).sink, watermark, final(self).sink, result),
            final(self).same_plan(*old(self)),
            final(self).left_state == old(self).left_state,
            final(self).right_state == old(self).right_state,
            final(self).left_changes == old(self).left_changes,
            final(self).right_changes == old(self).right_changes,
            final(self).output_changes == old(self).output_changes,
    {
        from_sink(self.sink.watermark(watermark))
    }
}


/// How far loading a stored state came.
pub struct Loaded {
    pub rows: KeyedCounts,
    /// The failure that ended it.
    pub failure: Option<OperatorError>,
}

/// The rows of one side after the first `n` stored rows are loaded; rows of weight zero are left
/// out, and the first row without a key ends it.
pub open spec fn loaded(
    state: KeyedCounts,
    stored: RowCounts,
    on: Seq<(usize, usize)>,
    side: JoinSide,
    n: nat,
) -> Loaded
    decreases n,
{
    if n == 0 || n > stored.len() {
        Loaded { rows: state, failure: None }
    } else {
        let before = loaded(state, stored, on, side, (n - 1) as nat);
        let (row, count) = stored[n - 1];
        if before.failure is Some || count == 0 {
            before
        } else {
            match side_key(row, on, side) {
                Err(error) => Loaded { rows: before.rows, failure: Some(error) },
                Ok(key) => Loaded {
                    rows: with_rows(before.rows, key, rows_for(before.rows, key).push((row, count))),
                    failure: None,
                },
            }
        }
    }
}

proof fn lemma_loading_ended(
    state: KeyedCounts,
    stored: RowCounts,
    on: Seq<(usize, usize)>,
    side: JoinSide,
    n: nat,
    m: nat,
)
    requires
        loaded(state, stored, on, side, n).failure is Some,
        n <= m <= stored.len(),
    ensures
        loaded(state, stored, on, side, m) == loaded(state, stored, on, side, n),
    decreases m,
{
    if n < m {
        lemma_loading_ended(state, stored, on, side, n, (m - 1) as nat);
    }
}

impl<S: RowSink> JoinOperator<S> {
    /// Loads the stored rows of one side.
    pub fn load_snapshot(&mut self, snapshot: Vec<(Row, Diff)>, side: JoinSide) -> (result: Result<
        (),
        OperatorError,
    >)
        ensures
            final(self).same_plan(*old(self)),
            final(self).sink == old(self).sink,
            final(self).left_changes == old(self).left_changes,
            final(self).right_changes == old(self).right_changes,
            final(self).output_changes == old(self).output_changes,
            ({
                let end = loaded(
                    old(self).rows(side),
                    change_views(snapshot@),
                    old(self).join_keys@,
                    side,
                    snapshot@.len(),
                );
                &&& final(self).rows(side) == end.rows
                &&& result == match end.failure {
                    Some(error) => Err::<(), OperatorError>(error),
                    None => Ok(()),
                }
            }),
            side == JoinSide::Left ==> final(self).right_state == old(self).right_state,
            side == JoinSide::Right ==> final(self).left_state == old(self).left_state,
    {
        let ghost stored = change_views(snapshot@);
        let ghost start = self.rows(side);
        let mut i: usize = 0;
        while i < snapshot.len()
            invariant
                i <= snapshot@.len(),
                stored == change_views(snapshot@),
                start == old(self).rows(side),
                self.same_plan(*old(self)),
                self.sink == old(self).sink,
                self.left_changes == old(self).left_changes,
                self.right_changes == old(self).right_changes,
                self.output_changes == old(self).output_changes,
                side == JoinSide::Left ==> self.right_state == old(self).right_state,
                side == JoinSide::Right ==> self.left_state == old(self).left_state,
                loaded(start, stored, self.join_keys@, side, i as nat) == (Loaded {
                    rows: self.rows(side),
                    failure: None,
                }),
            decreases snapshot@.len() - i,
        {
            let row = &snapshot[i].0;
            let count: i64 = snapshot[i].1;
            assert(stored[i as int] == (values::row_view(row@), count as int));
            if count != 0 {
                match build_key(row, &self.join_keys, side) {
                    Err(error) => {
                        proof {
                            lemma_loading_ended(
                                start,
                                stored,
                                self.join_keys@,
                                side,
                                (i + 1) as nat,
                                stored.len(),
                            );
                        }
                        return Err(error);
                    },
                    Ok(key) => {
                        match side {
                            JoinSide::Left => self.left_state.store(&key, row, count),
                            JoinSide::Right => self.right_state.store(&key, row, count),
                        }
                    },
                }
            }
            i = i + 1;
        }
        Ok(())
    }
}

/// The sum of `f` over rows, each taken as often as it occurs.
pub open spec fn weighted_sum(entries: RowCounts, f: spec_fn(Seq<ScalarView>) -> int) -> int
    decreases entries.len(),
{
    if entries.len() == 0 {
        0
    } else {
        weighted_sum(entries.drop_last(), f) + entries.last().1 * f(entries.last().0)
    }
}

/// One for the given row, zero for every other.
pub open spec fn indicator(row: Seq<ScalarView>) -> spec_fn(Seq<ScalarView>) -> int {
    |r: Seq<ScalarView>|
        if r == row {
            1
        } else {
            0
        }
}

/// How often a row occurs.
pub open spec fn occurrences(entries: RowCounts, row: Seq<ScalarView>) -> int {
    weighted_sum(entries, indicator(row))
}

/// One where joining two rows gives the output row `o`, else zero.
pub open spec fn gives(
    side: JoinSide,
    row: Seq<ScalarView>,
    other: Seq<ScalarView>,
    projection: Seq<Expr>,
    o: Seq<ScalarView>,
    floats: FloatMath,
) -> int {
    if crate::operators::map::mapped_with(projection, projection.len(), joined_row(side, row, other), floats)
        == Ok::<Seq<ScalarView>, ExprError>(o) {
        1
    } else {
        0
    }
}

/// One for the rows that give the output row `o` together with `row`, zero for every other.
pub open spec fn giving(
    side: JoinSide,
    row: Seq<ScalarView>,
    projection: Seq<Expr>,
    o: Seq<ScalarView>,
    floats: FloatMath,
) -> spec_fn(Seq<ScalarView>) -> int {
    |other: Seq<ScalarView>| gives(side, row, other, projection, o, floats)
}

/// How often joining a row with the other side gives the output row `o`.
pub open spec fn partners(
    side: JoinSide,
    row: Seq<ScalarView>,
    others: RowCounts,
    projection: Seq<Expr>,
    o: Seq<ScalarView>,
    floats: FloatMath,
) -> int {
    weighted_sum(others, giving(side, row, projection, o, floats))
}

/// For each row, how often joining it with the other side gives the output row `o`.
pub open spec fn partnering(
    side: JoinSide,
    others: RowCounts,
    projection: Seq<Expr>,
    o: Seq<ScalarView>,
    floats: FloatMath,
) -> spec_fn(Seq<ScalarView>) -> int {
    |row: Seq<ScalarView>| partners(side, row, others, projection, o, floats)
}

/// How often the output row `o` occurs in the join of the rows of one key: over all pairs of rows,
/// the product of their multiplicities.
pub open spec fn join_occurrences(
    side: JoinSide,
    own: RowCounts,
    others: RowCounts,
    projection: Seq<Expr>,
    o: Seq<ScalarView>,
    floats: FloatMath,
) -> int {
    weighted_sum(own, partnering(side, others, projection, o, floats))
}

pub proof fn lemma_sum_push(
    entries: RowCounts,
    entry: (Seq<ScalarView>, int),
    f: spec_fn(Seq<ScalarView>) -> int,
)
    ensures
        weighted_sum(entries.push(entry), f) == weighted_sum(entries, f) + entry.1 * f(entry.0),
{
    assert(entries.push(entry).drop_last() =~= entries);
}

/// The entries of all rows but one.
spec fn without(entries: RowCounts, row: Seq<ScalarView>) -> RowCounts
    decreases entries.len(),
{
    if entries.len() == 0 {
        entries
    } else {
        let front = without(entries.drop_last(), row);
        if entries.last().0 == row {
            front
        } else {
            front.push(entries.last())
        }
    }
}

/// A sum is the sum over the other rows and what one row adds as often as it occurs.
proof fn lemma_sum_without(
    entries: RowCounts,
    row: Seq<ScalarView>,
    f: spec_fn(Seq<ScalarView>) -> int,
)
    ensures
        weighted_sum(entries, f) == weighted_sum(without(entries, row), f) + occurrences(
            entries,
            row,
        ) * f(row),
        without(entries, row).len() <= entries.len(),
        entries.len() > 0 && entries.last().0 == row ==> without(entries, row).len()
            < entries.len(),
    decreases entries.len(),
{
    if entries.len() == 0 {
        assert(occurrences(entries, row) == 0);
        assert(occurrences(entries, row) * f(row) == 0) by (nonlinear_arith)
            requires
                occurrences(entries, row) == 0,
        ;
    } else {
        let front = entries.drop_last();
        let last = entries.last();
        lemma_sum_without(front, row, f);
        let others = occurrences(front, row);
        if last.0 == row {
            assert(occurrences(entries, row) == others + last.1);
            assert((others + last.1) * f(row) == others * f(row) + last.1 * f(row))
                by (nonlinear_arith);
        } else {
            assert(occurrences(entries, row) == others);
            lemma_sum_push(without(front, row), last, f);
        }
    }
}

proof fn lemma_occurrences_without(
    entries: RowCounts,
    row: Seq<ScalarView>,
    other: Seq<ScalarView>,
)
    ensures
        occurrences(without(entries, row), other) == if other == row {
            0
        } else {
            occurrences(entries, other)
        },
{
    lemma_sum_without(entries, row, indicator(other));
    let count = occurrences(entries, row);
    let f = indicator(other);
    if other == row {
        assert(count * f(row) == count) by (nonlinear_arith)
            requires
                f(row) == 1,
        ;
    } else {
        assert(count * f(row) == 0) by (nonlinear_arith)
            requires
                f(row) == 0,
        ;
    }
}

/// A sum depends only on how often each row occurs.
pub proof fn lemma_sum_of_same_rows(
    first: RowCounts,
    second: RowCounts,
    f: spec_fn(Seq<ScalarView>) -> int,
)
    requires
        forall|row: Seq<ScalarView>|
            #[trigger] occurrences(first, row) == occurrences(second, row),
    ensures
        weighted_sum(first, f) == weighted_sum(second, f),
    decreases first.len() + second.len(),
{
    if first.len() > 0 || second.len() > 0 {
        let row = if first.len() > 0 {
            first.last().0
        } else {
            second.last().0
        };
        lemma_sum_without(first, row, f);
        lemma_sum_without(second, row, f);
        assert(occurrences(first, row) == occurrences(second, row));
        let a = without(first, row);
        let b = without(second, row);
        assert forall|other: Seq<ScalarView>| #[trigger]
            occurrences(a, other) == occurrences(b, other) by {
            lemma_occurrences_without(first, row, other);
            lemma_occurrences_without(second, row, other);
            assert(occurrences(first, other) == occurrences(second, other));
        }
        lemma_sum_of_same_rows(a, b, f);
    }
}

proof fn lemma_sum_front(entries: RowCounts, f: spec_fn(Seq<ScalarView>) -> int)
    requires
        entries.len() > 0,
    ensures
        weighted_sum(entries, f) == entries[0].1 * f(entries[0].0) + weighted_sum(
            entries.drop_first(),
            f,
        ),
    decreases entries.len(),
{
    if entries.len() == 1 {
        assert(entries.drop_first() =~= RowCounts::empty());
        assert(entries.drop_last() =~= RowCounts::empty());
        reveal_with_fuel(weighted_sum, 2);
    } else {
        lemma_sum_front(entries.drop_last(), f);
        assert(entries.drop_last().drop_first() =~= entries.drop_first().drop_last());
        assert(entries.drop_first().last() == entries.last());
    }
}

/// Taking off occurrences of a row lowers every sum by what those occurrences contributed.
proof fn lemma_reduced_sum(
    entries: RowCounts,
    row: Seq<ScalarView>,
    remaining: int,
    f: spec_fn(Seq<ScalarView>) -> int,
)
    requires
        0 <= remaining <= occurrences(entries, row),
        forall|i: int|
            0 <= i < entries.len() ==> (#[trigger] entries[i]).1 > 0 && (values::same_row(
                entries[i].0,
                row,
            ) <==> entries[i].0 == row),
    ensures
        weighted_sum(reduced(entries, row, remaining), f) == weighted_sum(entries, f) - remaining
            * f(row),
    decreases entries.len(),
{
    let one = indicator(row);
    if entries.len() == 0 {
        assert(remaining == 0);
        assert(remaining * f(row) == 0) by (nonlinear_arith)
            requires
                remaining == 0,
        ;
    } else {
        let (stored, count) = entries[0];
        let tail = entries.drop_first();
        lemma_sum_front(entries, f);
        lemma_sum_front(entries, one);
        assert forall|i: int| 0 <= i < tail.len() implies (#[trigger] tail[i]).1 > 0 && (
        values::same_row(tail[i].0, row) <==> tail[i].0 == row) by {
            assert(tail[i] == entries[i + 1]);
        }
        let taken = if values::same_row(stored, row) && remaining > 0 {
            taken_off(remaining, count)
        } else {
            0
        };
        assert(count * one(stored) == if stored == row {
            count
        } else {
            0
        }) by (nonlinear_arith)
            requires
                one(stored) == (if stored == row {
                    1int
                } else {
                    0
                }),
        ;
        lemma_occurrences_positive(tail, row);
        lemma_reduced_sum(tail, row, remaining - taken, f);
        let rest = reduced(tail, row, remaining - taken);
        if count - taken != 0 {
            let all = seq![(stored, count - taken)] + rest;
            lemma_sum_front(all, f);
            assert(all.drop_first() =~= rest);
        }
        assert((count - taken) * f(stored) == count * f(stored) - taken * f(row)) by (
        nonlinear_arith)
            requires
                taken == 0 || stored == row,
        ;
        assert((remaining - taken) * f(row) == remaining * f(row) - taken * f(row)) by (
        nonlinear_arith);
        if count - taken == 0 {
            assert((count - taken) * f(stored) == 0) by (nonlinear_arith)
                requires
                    count - taken == 0,
            ;
        }
    }
}

proof fn lemma_occurrences_positive(entries: RowCounts, row: Seq<ScalarView>)
    requires
        forall|i: int| 0 <= i < entries.len() ==> (#[trigger] entries[i]).1 > 0,
    ensures
        occurrences(entries, row) >= 0,
    decreases entries.len(),
{
    if entries.len() > 0 {
        let front = entries.drop_last();
        assert forall|i: int| 0 <= i < front.len() implies (#[trigger] front[i]).1 > 0 by {
            assert(front[i] == entries[i]);
        }
        lemma_occurrences_positive(front, row);
        let last = entries[entries.len() - 1];
        let hit = if last.0 == row {
            1int
        } else {
            0
        };
        assert(last.1 * hit >= 0) by (nonlinear_arith)
            requires
                last.1 > 0,
                hit == 0 || hit == 1,
        ;
    }
}

/// The changes handed on for a row weigh as much as its partners, times the change of the row.
proof fn lemma_outputs_weight(
    side: JoinSide,
    row: Seq<ScalarView>,
    diff: int,
    others: RowCounts,
    projection: Seq<Expr>,
    o: Seq<ScalarView>,
    n: nat,
    floats: FloatMath,
)
    requires
        n <= others.len(),
        join_outputs(side, row, diff, others, projection, n, floats) is Ok,
    ensures
        occurrences(join_outputs(side, row, diff, others, projection, n, floats)->Ok_0, o) == diff
            * partners(side, row, others.take(n as int), projection, o, floats),
    decreases n,
{
    let f = giving(side, row, projection, o, floats);
    let one = indicator(o);
    if n == 0 {
        assert(others.take(0) =~= RowCounts::empty());
    } else {
        let m = (n - 1) as nat;
        lemma_outputs_weight(side, row, diff, others, projection, o, m, floats);
        let before = join_outputs(side, row, diff, others, projection, m, floats)->Ok_0;
        let taken = others.take(n as int);
        assert(taken.drop_last() =~= others.take(m as int));
        let entry = others[n - 1];
        let change = diff * entry.1;
        let projected = crate::operators::map::mapped_with(
            projection,
            projection.len(),
            joined_row(side, row, entry.0),
            floats,
        )->Ok_0;
        let g = f(entry.0);
        assert(g == one(projected));
        let p = partners(side, row, others.take(m as int), projection, o, floats);
        assert(weighted_sum(taken, f) == p + entry.1 * g);
        assert(diff * (p + entry.1 * g) == diff * p + change * g) by (nonlinear_arith)
            requires
                change == diff * entry.1,
        ;
        if change != 0 {
            lemma_sum_push(before, (projected, change), one);
        } else {
            assert(change * g == 0) by (nonlinear_arith)
                requires
                    change == 0,
            ;
        }
    }
}

/// The changes that a join hands on are the change of its result: after a row of one side was
/// added or taken off, each output row occurs in the join of the rows of that key as often as
/// before plus what was handed on.
///
/// A row can only be taken off as often as it is there. A state loaded with negative
/// multiplicities, and rows that differ in nothing but a time zone, are left out.
pub proof fn law_join_is_incremental(
    side: JoinSide,
    own: RowCounts,
    others: RowCounts,
    row: Seq<ScalarView>,
    diff: Diff,
    projection: Seq<Expr>,
    o: Seq<ScalarView>,
    floats: FloatMath,
)
    requires
        diff > i64::MIN,
        join_outputs(side, row, diff as int, others, projection, others.len(), floats) is Ok,
        diff < 0 ==> -diff <= occurrences(own, row),
        diff <= 0 ==> forall|i: int|
            0 <= i < own.len() ==> (#[trigger] own[i]).1 > 0 && (values::same_row(own[i].0, row)
                <==> own[i].0 == row),
    ensures
        join_occurrences(side, changed(own, row, diff), others, projection, o, floats)
            == join_occurrences(side, own, others, projection, o, floats) + occurrences(
            join_outputs(side, row, diff as int, others, projection, others.len(), floats)->Ok_0,
            o,
        ),
{
    let f = partnering(side, others, projection, o, floats);
    lemma_outputs_weight(side, row, diff as int, others, projection, o, others.len(), floats);
    assert(others.take(others.len() as int) =~= others);
    let p = partners(side, row, others, projection, o, floats);
    assert(p == f(row));
    if diff > 0 {
        lemma_sum_push(own, (row, diff as int), f);
    } else {
        lemma_occurrences_positive(own, row);
        lemma_reduced_sum(own, row, -diff, f);
        assert((-diff) * p == -(diff * p)) by (nonlinear_arith);
    }
}

/// The state of a join counts its rows: after a row was added or taken off, it occurs as often as
/// before plus the change, and every other row as often as before.
///
/// A row can only be taken off as often as it is there. A state loaded with negative
/// multiplicities, and rows that differ in nothing but a time zone, are left out.
pub proof fn law_join_state_counts_rows(
    own: RowCounts,
    row: Seq<ScalarView>,
    diff: Diff,
    other: Seq<ScalarView>,
)
    requires
        diff > i64::MIN,
        diff < 0 ==> -diff <= occurrences(own, row),
        diff <= 0 ==> forall|i: int|
            0 <= i < own.len() ==> (#[trigger] own[i]).1 > 0 && (values::same_row(own[i].0, row)
                <==> own[i].0 == row),
    ensures
        occurrences(changed(own, row, diff), other) == occurrences(own, other) + if other == row {
            diff as int
        } else {
            0
        },
{
    let f = indicator(other);
    if diff > 0 {
        lemma_sum_push(own, (row, diff as int), f);
    } else {
        lemma_occurrences_positive(own, row);
        lemma_reduced_sum(own, row, -diff, f);
    }
    assert(diff * f(row) == if other == row {
        diff as int
    } else {
        0
    }) by (nonlinear_arith)
        requires
            f(row) == (if other == row {
                1int
            } else {
                0
            }),
    ;
    assert((-diff) * f(row) == -(diff * f(row))) by (nonlinear_arith);
}

/// Keys that are the same have the same bucket.
proof fn lemma_same_bucket(state: KeyedCounts, key: Seq<ScalarView>, other: Seq<ScalarView>)
    requires
        values::same_row(key, other),
    ensures
        bucket_of(state, key) == bucket_of(state, other),
    decreases state.len(),
{
    if state.len() > 0 {
        lemma_same_bucket(state.drop_first(), key, other);
        lemma_same_rows(state[0].0, key, other);
    }
}

/// A row is the same as both of two rows that are the same, or as none of them.
proof fn lemma_same_rows(row: Seq<ScalarView>, key: Seq<ScalarView>, other: Seq<ScalarView>)
    requires
        values::same_row(key, other),
    ensures
        values::same_row(row, key) == values::same_row(row, other),
{
    if values::same_row(row, key) {
        assert forall|i: int| 0 <= i < row.len() implies values::same_value(
            #[trigger] row[i],
            other[i],
        ) by {
            assert(values::same_value(row[i], key[i]));
            assert(values::same_value(key[i], other[i]));
        }
    }
    if values::same_row(row, other) {
        assert forall|i: int| 0 <= i < row.len() implies values::same_value(
            #[trigger] row[i],
            key[i],
        ) by {
            assert(values::same_value(row[i], other[i]));
            assert(values::same_value(key[i], other[i]));
        }
    }
}

/// The rows kept for a key after those of a key were replaced.
proof fn lemma_rows_replaced(
    state: KeyedCounts,
    key: Seq<ScalarView>,
    rows: RowCounts,
    other: Seq<ScalarView>,
)
    ensures
        rows_for(with_rows(state, key, rows), other) == if values::same_row(key, other) {
            rows
        } else {
            rows_for(state, other)
        },
    decreases state.len(),
{
    let after = with_rows(state, key, rows);
    if state.len() == 0 {
        assert(after[0] == (key, rows));
        assert(bucket_of(after.drop_first(), other) == 0);
    } else {
        let tail = state.drop_first();
        lemma_rows_replaced(tail, key, rows, other);
        if values::same_row(state[0].0, key) {
            assert(after.drop_first() =~= tail);
            assert(after[0] == (state[0].0, rows));
            if values::same_row(key, other) {
                lemma_same_rows(state[0].0, key, other);
            } else if values::same_row(state[0].0, other) {
                assert(values::same_row(key, state[0].0)) by {
                    assert forall|i: int| 0 <= i < key.len() implies values::same_value(
                        #[trigger] key[i],
                        state[0].0[i],
                    ) by {
                        assert(values::same_value(state[0].0[i], key[i]));
                    }
                }
                lemma_same_rows(key, state[0].0, other);
            }
        } else {
            assert(after[0] == state[0]);
            assert(after.drop_first() =~= with_rows(tail, key, rows));
            if values::same_row(key, other) {
                lemma_same_rows(state[0].0, key, other);
            }
        }
    }
}

proof fn lemma_loaded_occurrences(
    state: KeyedCounts,
    stored: RowCounts,
    on: Seq<(usize, usize)>,
    side: JoinSide,
    n: nat,
    row: Seq<ScalarView>,
)
    requires
        n <= stored.len(),
        loaded(state, stored, on, side, n).failure is None,
        side_key(row, on, side) is Ok,
    ensures
        occurrences(
            rows_for(loaded(state, stored, on, side, n).rows, side_key(row, on, side)->Ok_0),
            row,
        ) == occurrences(rows_for(state, side_key(row, on, side)->Ok_0), row) + occurrences(
            stored.take(n as int),
            row,
        ),
    decreases n,
{
    let key = side_key(row, on, side)->Ok_0;
    let one = indicator(row);
    if n == 0 {
        assert(stored.take(0) =~= RowCounts::empty());
    } else {
        lemma_loaded_occurrences(state, stored, on, side, (n - 1) as nat, row);
        let before = loaded(state, stored, on, side, (n - 1) as nat).rows;
        let entry = stored[n - 1];
        let taken = stored.take(n as int);
        assert(taken.drop_last() =~= stored.take(n - 1));
        assert(taken.last() == entry);
        assert(entry.1 * one(entry.0) == if entry.0 == row {
            entry.1
        } else {
            0
        }) by (nonlinear_arith)
            requires
                one(entry.0) == (if entry.0 == row {
                    1int
                } else {
                    0
                }),
        ;
        if entry.1 != 0 {
            let own = side_key(entry.0, on, side)->Ok_0;
            let kept = rows_for(before, own).push(entry);
            lemma_rows_replaced(before, own, kept, key);
            if values::same_row(own, key) {
                lemma_same_bucket(before, own, key);
                lemma_sum_push(rows_for(before, own), entry, one);
            }
        }
    }
}

/// A join that goes on from a checkpoint keeps every row as often as the stored collection holds
/// it, besides what it kept before.
pub proof fn law_loaded_rows_are_kept(
    state: KeyedCounts,
    stored: RowCounts,
    on: Seq<(usize, usize)>,
    side: JoinSide,
    row: Seq<ScalarView>,
)
    requires
        loaded(state, stored, on, side, stored.len()).failure is None,
        side_key(row, on, side) is Ok,
    ensures
        occurrences(
            rows_for(
                loaded(state, stored, on, side, stored.len()).rows,
                side_key(row, on, side)->Ok_0,
            ),
            row,
        ) == occurrences(rows_for(state, side_key(row, on, side)->Ok_0), row) + occurrences(
            stored,
            row,
        ),
{
    lemma_loaded_occurrences(state, stored, on, side, stored.len(), row);
    assert(stored.take(stored.len() as int) =~= stored);
}

/// What a join hands on depends only on how often the other side holds each row, not on how the
/// rows came there: a join that was restored hands on what the one before would have.
pub proof fn law_join_depends_on_counts_alone(
    side: JoinSide,
    row: Seq<ScalarView>,
    diff: Diff,
    others: RowCounts,
    restored: RowCounts,
    projection: Seq<Expr>,
    o: Seq<ScalarView>,
    floats: FloatMath,
)
    requires
        join_outputs(side, row, diff as int, others, projection, others.len(), floats) is Ok,
        join_outputs(side, row, diff as int, restored, projection, restored.len(), floats) is Ok,
        forall|other: Seq<ScalarView>| #[trigger]
            occurrences(others, other) == occurrences(restored, other),
    ensures
        occurrences(
            join_outputs(side, row, diff as int, others, projection, others.len(), floats)->Ok_0,
            o,
        ) == occurrences(
            join_outputs(side, row, diff as int, restored, projection, restored.len(), floats)->Ok_0,
            o,
        ),
{
    lemma_outputs_weight(side, row, diff as int, others, projection, o, others.len(), floats);
    lemma_outputs_weight(side, row, diff as int, restored, projection, o, restored.len(), floats);
    assert(others.take(others.len() as int) =~= others);
    assert(restored.take(restored.len() as int) =~= restored);
    lemma_sum_of_same_rows(others, restored, giving(side, row, projection, o, floats));
}

/// The key column of a pair on one side.
pub open spec fn key_column(pair: (usize, usize), side: JoinSide) -> usize {
    match side {
        JoinSide::Left => pair.0,
        JoinSide::Right => pair.1,
    }
}

/// The other input of a join.
pub open spec fn opposite(side: JoinSide) -> JoinSide {
    match side {
        JoinSide::Left => JoinSide::Right,
        JoinSide::Right => JoinSide::Left,
    }
}

/// Two rows, one of each side, have the same values in every pair of key columns.
pub open spec fn keys_agree(
    on: Seq<(usize, usize)>,
    left: Seq<ScalarView>,
    right: Seq<ScalarView>,
) -> bool {
    forall|i: int|
        0 <= i < on.len() ==> values::same_value(
            left[(#[trigger] on[i]).0 as int],
            right[on[i].1 as int],
        )
}

/// The key of a row has one value for each pair of key columns, which is the row's value in the
/// column of that pair. Where a column is beyond the row, there is no key, and the first such
/// column is told.
pub proof fn law_key_holds_every_key_column(
    row: Seq<ScalarView>,
    on: Seq<(usize, usize)>,
    side: JoinSide,
)
    ensures
        match side_key(row, on, side) {
            Ok(key) => {
                &&& key.len() == on.len()
                &&& forall|i: int|
                    0 <= i < on.len() ==> key_column(#[trigger] on[i], side) < row.len() && key[i]
                        == row[key_column(on[i], side) as int]
            },
            Err(error) => exists|i: int|
                {
                    &&& 0 <= i < on.len()
                    &&& key_column(#[trigger] on[i], side) >= row.len()
                    &&& error == OperatorError::KeyOutOfBounds(key_column(on[i], side))
                    &&& forall|j: int|
                        0 <= j < i ==> key_column(#[trigger] on[j], side) < row.len()
                },
        },
{
    lemma_key_of_first(row, on, side, on.len());
}

proof fn lemma_key_of_first(
    row: Seq<ScalarView>,
    on: Seq<(usize, usize)>,
    side: JoinSide,
    n: nat,
)
    requires
        n <= on.len(),
    ensures
        match key_values(row, side_columns(on, side), n) {
            Ok(key) => {
                &&& key.len() == n
                &&& forall|i: int|
                    0 <= i < n ==> key_column(#[trigger] on[i], side) < row.len() && key[i]
                        == row[key_column(on[i], side) as int]
            },
            Err(error) => exists|i: int|
                {
                    &&& 0 <= i < n
                    &&& key_column(#[trigger] on[i], side) >= row.len()
                    &&& error == OperatorError::KeyOutOfBounds(key_column(on[i], side))
                    &&& forall|j: int|
                        0 <= j < i ==> key_column(#[trigger] on[j], side) < row.len()
                },
        },
    decreases n,
{
    if n > 0 {
        lemma_key_of_first(row, on, side, (n - 1) as nat);
        let columns = side_columns(on, side);
        assert(columns[n - 1] == key_column(on[n - 1], side));
        match key_values(row, columns, (n - 1) as nat) {
            Ok(_) => {
                if columns[n - 1] >= row.len() {
                    assert(key_column(on[n - 1], side) >= row.len());
                }
            },
            Err(_) => {},
        }
    }
}

/// The keys of two rows, one of each side, are the same just where the rows agree in every pair of
/// key columns.
#[verifier::rlimit(40)]
pub proof fn law_same_keys_are_agreeing_columns(
    on: Seq<(usize, usize)>,
    left: Seq<ScalarView>,
    right: Seq<ScalarView>,
)
    requires
        side_key(left, on, JoinSide::Left) is Ok,
        side_key(right, on, JoinSide::Right) is Ok,
    ensures
        values::same_row(
            side_key(left, on, JoinSide::Left)->Ok_0,
            side_key(right, on, JoinSide::Right)->Ok_0,
        ) == keys_agree(on, left, right),
        values::same_row(
            side_key(right, on, JoinSide::Right)->Ok_0,
            side_key(left, on, JoinSide::Left)->Ok_0,
        ) == keys_agree(on, left, right),
{
    law_key_holds_every_key_column(left, on, JoinSide::Left);
    law_key_holds_every_key_column(right, on, JoinSide::Right);
    let a = side_key(left, on, JoinSide::Left)->Ok_0;
    let b = side_key(right, on, JoinSide::Right)->Ok_0;
    assert forall|i: int| 0 <= i < on.len() implies a[i] == left[(#[trigger] on[i]).0 as int] && b[i]
        == right[on[i].1 as int] by {
        assert(key_column(on[i], JoinSide::Left) == on[i].0);
        assert(key_column(on[i], JoinSide::Right) == on[i].1);
    }
    if keys_agree(on, left, right) {
        assert forall|i: int| 0 <= i < a.len() implies values::same_value(#[trigger] a[i], b[i]) by {
            assert(values::same_value(left[on[i].0 as int], right[on[i].1 as int]));
        }
        assert forall|i: int| 0 <= i < b.len() implies values::same_value(#[trigger] b[i], a[i]) by {
            assert(values::same_value(left[on[i].0 as int], right[on[i].1 as int]));
        }
    }
    if values::same_row(a, b) {
        assert forall|i: int| 0 <= i < on.len() implies values::same_value(
            left[(#[trigger] on[i]).0 as int],
            right[on[i].1 as int],
        ) by {
            assert(values::same_value(a[i], b[i]));
        }
    }
    if values::same_row(b, a) {
        assert forall|i: int| 0 <= i < on.len() implies values::same_value(
            left[(#[trigger] on[i]).0 as int],
            right[on[i].1 as int],
        ) by {
            assert(values::same_value(b[i], a[i]));
        }
    }
}

/// A joined row has the values of the left row, then those of the right one, whichever of them
/// came last.
pub proof fn law_joined_row_is_left_then_right(left: Seq<ScalarView>, right: Seq<ScalarView>)
    ensures
        joined_row(JoinSide::Left, left, right) == joined_row(JoinSide::Right, right, left),
        joined_row(JoinSide::Left, left, right).len() == left.len() + right.len(),
        forall|i: int|
            0 <= i < left.len() ==> #[trigger] joined_row(JoinSide::Left, left, right)[i]
                == left[i],
        forall|i: int|
            0 <= i < right.len() ==> #[trigger] joined_row(JoinSide::Left, left, right)[left.len()
                + i] == right[i],
{
}

/// Every stored row has the values of the key under which it is found in its key columns.
pub open spec fn stored_under_keys(
    state: KeyedCounts,
    on: Seq<(usize, usize)>,
    side: JoinSide,
) -> bool {
    forall|key: Seq<ScalarView>, i: int|
        0 <= i < rows_for(state, key).len() ==> has_key(
            (#[trigger] rows_for(state, key)[i]).0,
            on,
            side,
            key,
        )
}

/// A row has the values of a key in its key columns.
pub open spec fn has_key(
    row: Seq<ScalarView>,
    on: Seq<(usize, usize)>,
    side: JoinSide,
    key: Seq<ScalarView>,
) -> bool {
    &&& key.len() == on.len()
    &&& forall|j: int|
        0 <= j < on.len() ==> key_column(#[trigger] on[j], side) < row.len() && values::same_value(
            row[key_column(on[j], side) as int],
            key[j],
        )
}

proof fn lemma_has_own_key(
    row: Seq<ScalarView>,
    on: Seq<(usize, usize)>,
    side: JoinSide,
    other: Seq<ScalarView>,
)
    requires
        side_key(row, on, side) is Ok,
        values::same_row(side_key(row, on, side)->Ok_0, other),
    ensures
        has_key(row, on, side, other),
{
    law_key_holds_every_key_column(row, on, side);
    let key = side_key(row, on, side)->Ok_0;
    assert forall|j: int| 0 <= j < on.len() implies key_column(#[trigger] on[j], side) < row.len()
        && values::same_value(row[key_column(on[j], side) as int], other[j]) by {
        assert(values::same_value(key[j], other[j]));
    }
}

/// What is left of rows are some of the rows.
proof fn lemma_reduced_rows(entries: RowCounts, row: Seq<ScalarView>, remaining: int, k: int)
    requires
        0 <= k < reduced(entries, row, remaining).len(),
    ensures
        exists|i: int|
            0 <= i < entries.len() && (#[trigger] entries[i]).0 == reduced(entries, row, remaining)[k].0,
    decreases entries.len(),
{
    let (stored, count) = entries[0];
    let taken = if values::same_row(stored, row) && remaining > 0 {
        taken_off(remaining, count)
    } else {
        0
    };
    let rest = reduced(entries.drop_first(), row, remaining - taken);
    if count - taken != 0 && k == 0 {
        assert(entries[0].0 == reduced(entries, row, remaining)[k].0);
    } else {
        let at = if count - taken != 0 {
            k - 1
        } else {
            k
        };
        assert(reduced(entries, row, remaining)[k] == rest[at]);
        lemma_reduced_rows(entries.drop_first(), row, remaining - taken, at);
        let i = choose|i: int|
            0 <= i < entries.drop_first().len() && (#[trigger] entries.drop_first()[i]).0
                == rest[at].0;
        assert(entries[i + 1].0 == rest[at].0);
    }
}

proof fn lemma_replaced_under_keys(
    state: KeyedCounts,
    on: Seq<(usize, usize)>,
    side: JoinSide,
    key: Seq<ScalarView>,
    rows: RowCounts,
)
    requires
        stored_under_keys(state, on, side),
        forall|other: Seq<ScalarView>, i: int|
            0 <= i < rows.len() && values::same_row(key, other) ==> #[trigger] has_key(
                rows[i].0,
                on,
                side,
                other,
            ),
    ensures
        stored_under_keys(with_rows(state, key, rows), on, side),
{
    let after = with_rows(state, key, rows);
    assert forall|other: Seq<ScalarView>, i: int| 0 <= i < rows_for(after, other).len() implies has_key(
        (#[trigger] rows_for(after, other)[i]).0,
        on,
        side,
        other,
    ) by {
        lemma_rows_replaced(state, key, rows, other);
        if values::same_row(key, other) {
            assert(has_key(rows[i].0, on, side, other));
        } else {
            assert(has_key(rows_for(state, other)[i].0, on, side, other));
        }
    }
}

/// A change of a row keeps the rows of both sides under their keys.
pub proof fn law_rows_stay_under_their_keys<S: RowSink>(
    before: JoinOperator<S>,
    side: JoinSide,
    row: Seq<ScalarView>,
    diff: Diff,
    timestamp: Timestamp,
    floats: FloatMath,
    encodable: Encodable,
    after: JoinOperator<S>,
    result: Result<(), OperatorError>,
)
    requires
        before.row_handled(side, row, diff, timestamp, floats, encodable, after, result),
        stored_under_keys(before.rows(JoinSide::Left), before.join_keys@, JoinSide::Left),
        stored_under_keys(before.rows(JoinSide::Right), before.join_keys@, JoinSide::Right),
    ensures
        stored_under_keys(after.rows(JoinSide::Left), before.join_keys@, JoinSide::Left),
        stored_under_keys(after.rows(JoinSide::Right), before.join_keys@, JoinSide::Right),
{
    let on = before.join_keys@;
    if diff != 0 && side_key(row, on, side) is Ok {
        let key = side_key(row, on, side)->Ok_0;
        let kept = rows_for(before.rows(side), key);
        let rows = changed(kept, row, diff);
        assert forall|other: Seq<ScalarView>, i: int|
            0 <= i < rows.len() && values::same_row(key, other) implies #[trigger] has_key(
            rows[i].0,
            on,
            side,
            other,
        ) by {
            if diff > 0 && i == kept.len() {
                lemma_has_own_key(row, on, side, other);
            } else {
                lemma_same_bucket(before.rows(side), key, other);
                if diff > 0 {
                    assert(rows[i] == kept[i]);
                    assert(has_key(rows_for(before.rows(side), other)[i].0, on, side, other));
                } else {
                    lemma_reduced_rows(kept, row, -diff, i);
                    let k = choose|k: int|
                        0 <= k < kept.len() && (#[trigger] kept[k]).0 == rows[i].0;
                    assert(has_key(rows_for(before.rows(side), other)[k].0, on, side, other));
                }
            }
        }
        lemma_replaced_under_keys(before.rows(side), on, side, key, rows);
    }
}

/// The rows with which a row is joined agree with it in every pair of key columns.
pub proof fn law_partners_agree_in_every_key_column(
    state: KeyedCounts,
    on: Seq<(usize, usize)>,
    side: JoinSide,
    row: Seq<ScalarView>,
    i: int,
)
    requires
        stored_under_keys(state, on, opposite(side)),
        side_key(row, on, side) is Ok,
        0 <= i < rows_for(state, side_key(row, on, side)->Ok_0).len(),
    ensures
        ({
            let other = rows_for(state, side_key(row, on, side)->Ok_0)[i].0;
            match side {
                JoinSide::Left => keys_agree(on, row, other),
                JoinSide::Right => keys_agree(on, other, row),
            }
        }),
{
    law_key_holds_every_key_column(row, on, side);
    let key = side_key(row, on, side)->Ok_0;
    let other = rows_for(state, key)[i].0;
    assert(has_key(other, on, opposite(side), key));
    assert forall|j: int| 0 <= j < on.len() implies match side {
        JoinSide::Left => values::same_value(
            row[(#[trigger] on[j]).0 as int],
            other[on[j].1 as int],
        ),
        JoinSide::Right => values::same_value(other[on[j].0 as int], row[on[j].1 as int]),
    } by {
        assert(key_column(on[j], side) < row.len());
        assert(key_column(on[j], opposite(side)) < other.len());
    }
}

/// A row that was added is found by the rows of the other side that agree with it in every pair of
/// key columns, and by no others.
pub proof fn law_added_row_is_found_by_its_partners<S: RowSink>(
    before: JoinOperator<S>,
    side: JoinSide,
    row: Seq<ScalarView>,
    diff: Diff,
    timestamp: Timestamp,
    floats: FloatMath,
    encodable: Encodable,
    after: JoinOperator<S>,
    result: Result<(), OperatorError>,
    other: Seq<ScalarView>,
)
    requires
        before.row_handled(side, row, diff, timestamp, floats, encodable, after, result),
        diff > 0,
        side_key(row, before.join_keys@, side) is Ok,
        side_key(other, before.join_keys@, opposite(side)) is Ok,
    ensures
        ({
            let on = before.join_keys@;
            let key = side_key(other, on, opposite(side))->Ok_0;
            let agree = match side {
                JoinSide::Left => keys_agree(on, row, other),
                JoinSide::Right => keys_agree(on, other, row),
            };
            rows_for(after.rows(side), key) == if agree {
                rows_for(before.rows(side), key).push((row, diff as int))
            } else {
                rows_for(before.rows(side), key)
            }
        }),
{
    let on = before.join_keys@;
    let own = side_key(row, on, side)->Ok_0;
    let key = side_key(other, on, opposite(side))->Ok_0;
    match side {
        JoinSide::Left => law_same_keys_are_agreeing_columns(on, row, other),
        JoinSide::Right => law_same_keys_are_agreeing_columns(on, other, row),
    }
    lemma_rows_replaced(
        before.rows(side),
        own,
        changed(rows_for(before.rows(side), own), row, diff),
        key,
    );
    if values::same_row(own, key) {
        lemma_same_bucket(before.rows(side), own, key);
    }
}

/// Two rows, of one side and of the other, that come to a join without rows one after the other:
/// where they agree in every pair of key columns, the second hands on what the columns of the join
/// give for the left row followed by the right one, as often as the product of how often they came;
/// where they do not, nothing is handed on.
#[verifier::rlimit(40)]
pub proof fn law_two_rows_join_where_their_keys_agree(
    before: JoinOperator<DispatchSink>,
    side: JoinSide,
    row: Seq<ScalarView>,
    diff: Diff,
    first_at: Timestamp,
    middle: JoinOperator<DispatchSink>,
    first: Result<(), OperatorError>,
    other: Seq<ScalarView>,
    other_diff: Diff,
    second_at: Timestamp,
    after: JoinOperator<DispatchSink>,
    second: Result<(), OperatorError>,
    floats: FloatMath,
    output: Seq<ScalarView>,
)
    requires
        before.rows(JoinSide::Left).len() == 0,
        before.rows(JoinSide::Right).len() == 0,
        diff > 0,
        other_diff > 0,
        diff * other_diff <= i64::MAX,
        before.row_handled(
            side,
            row,
            diff,
            first_at,
            floats,
            Encodable { row: true, output: None },
            middle,
            first,
        ),
        middle.same_plan(before),
        middle.row_handled(
            opposite(side),
            other,
            other_diff,
            second_at,
            floats,
            Encodable { row: true, output: None },
            after,
            second,
        ),
        forall|i: int|
            0 <= i < before.join_keys@.len() ==> key_column(
                #[trigger] before.join_keys@[i],
                side,
            ) < row.len() && key_column(before.join_keys@[i], opposite(side)) < other.len(),
        crate::operators::map::mapped_with(
            before.projection@,
            before.projection@.len(),
            match side {
                JoinSide::Left => row + other,
                JoinSide::Right => other + row,
            },
            floats,
        ) == Ok::<Seq<ScalarView>, ExprError>(output),
    ensures
        first is Ok,
        second is Ok,
        operators_queue(middle) == operators_queue(before),
        ({
            let on = before.join_keys@;
            let agree = match side {
                JoinSide::Left => keys_agree(on, row, other),
                JoinSide::Right => keys_agree(on, other, row),
            };
            let targets = middle.sink.targets@;
            let product = diff * other_diff;
            &&& agree ==> operators_queue(after) == operators_queue(before) + Seq::new(
                targets.len(),
                |i: int|
                    EventView {
                        target_op_index: targets[i].0,
                        input_port: targets[i].1,
                        row: output,
                        diff: product as i64,
                        ts: second_at,
                    },
            )
            &&& agree ==> change_views(after.output_changes@) == change_views(
                before.output_changes@,
            ).push((output, product))
            &&& !agree ==> operators_queue(after) == operators_queue(before)
            &&& !agree ==> change_views(after.output_changes@) == change_views(
                before.output_changes@,
            )
        }),
{
    let on = before.join_keys@;
    law_key_holds_every_key_column(row, on, side);
    law_key_holds_every_key_column(other, on, opposite(side));
    let own = side_key(row, on, side)->Ok_0;
    let key = side_key(other, on, opposite(side))->Ok_0;
    assert(rows_for(before.rows(JoinSide::Left), own) =~= Seq::empty());
    assert(rows_for(before.rows(JoinSide::Right), own) =~= Seq::empty());
    law_added_row_is_found_by_its_partners(
        before,
        side,
        row,
        diff,
        first_at,
        floats,
        Encodable { row: true, output: None },
        middle,
        first,
        other,
    );
    lemma_nothing_emitted(
        before.sink,
        first_at,
        middle.sink,
        change_views(before.output_changes@),
        change_views(middle.output_changes@),
        first,
    );
    assert(rows_for(before.rows(side), key) =~= Seq::empty());
    let kept = rows_for(middle.rows(side), key);
    let agree = match side {
        JoinSide::Left => keys_agree(on, row, other),
        JoinSide::Right => keys_agree(on, other, row),
    };
    assert(middle.rows(opposite(side)) == before.rows(opposite(side)));
    assert(change_fits(rows_for(middle.rows(opposite(side)), key), other, other_diff));
    if agree {
        assert(kept =~= seq![(row, diff as int)]);
        assert(other_diff * diff == diff * other_diff) by (nonlinear_arith);
        assert(diff * other_diff > 0) by (nonlinear_arith)
            requires
                diff > 0,
                other_diff > 0,
        ;
        reveal_with_fuel(join_outputs, 2);
        let outputs = join_outputs(
            opposite(side),
            other,
            other_diff as int,
            kept,
            before.projection@,
            1,
            floats,
        );
        assert(outputs == Ok::<RowCounts, OperatorError>(
            RowCounts::empty().push((output, diff * other_diff)),
        ));
        lemma_one_emitted(
            middle.sink,
            output,
            (diff * other_diff) as i64,
            second_at,
            after.sink,
            change_views(middle.output_changes@),
            change_views(after.output_changes@),
            second,
        );
    } else {
        assert(kept =~= RowCounts::empty());
        lemma_nothing_emitted(
            middle.sink,
            second_at,
            after.sink,
            change_views(middle.output_changes@),
            change_views(after.output_changes@),
            second,
        );
    }
}

/// The events that a join has made.
pub open spec fn operators_queue(op: JoinOperator<DispatchSink>) -> Seq<EventView> {
    super::event_views(op.sink.queue@)
}

proof fn lemma_nothing_emitted(
    before: DispatchSink,
    timestamp: Timestamp,
    after: DispatchSink,
    noted_before: RowCounts,
    noted_after: RowCounts,
    result: Result<(), OperatorError>,
)
    requires
        noted_and_handed(
            before,
            RowCounts::empty(),
            timestamp,
            after,
            noted_before,
            noted_after,
            result,
        ),
    ensures
        after == before,
        noted_after == noted_before,
        result is Ok,
{
    let handed = choose|handed: nat|
        {
            &&& #[trigger] emits(
                before,
                RowCounts::empty(),
                timestamp,
                after,
                handed,
                result,
            )
            &&& handed <= RowCounts::empty().len()
            &&& noted_after == noted_before + RowCounts::empty().take(handed as int)
        };
    assert(noted_before + RowCounts::empty().take(handed as int) =~= noted_before);
}

proof fn lemma_one_emitted(
    before: DispatchSink,
    row: Seq<ScalarView>,
    diff: Diff,
    timestamp: Timestamp,
    after: DispatchSink,
    noted_before: RowCounts,
    noted_after: RowCounts,
    result: Result<(), OperatorError>,
)
    requires
        noted_and_handed(
            before,
            RowCounts::empty().push((row, diff as int)),
            timestamp,
            after,
            noted_before,
            noted_after,
            result,
        ),
    ensures
        super::event_views(after.queue@) == super::event_views(before.queue@) + Seq::new(
            before.targets@.len(),
            |i: int|
                EventView {
                    target_op_index: before.targets@[i].0,
                    input_port: before.targets@[i].1,
                    row,
                    diff,
                    ts: timestamp,
                },
        ),
        noted_after == noted_before.push((row, diff as int)),
        result is Ok,
{
    let changes = RowCounts::empty().push((row, diff as int));
    let handed = choose|handed: nat|
        {
            &&& #[trigger] emits(before, changes, timestamp, after, handed, result)
            &&& handed <= changes.len()
            &&& noted_after == noted_before + changes.take(handed as int)
        };
    reveal_with_fuel(emits, 2);
    assert(changes.drop_first().len() == 0);
    assert(handed == 1);
    assert(noted_before + changes.take(1) =~= noted_before.push((row, diff as int)));
    assert(super::forwarded(before.targets@, row, diff, timestamp) =~= Seq::new(
        before.targets@.len(),
        |i: int|
            EventView {
                target_op_index: before.targets@[i].0,
                input_port: before.targets@[i].1,
                row,
                diff,
                ts: timestamp,
            },
    ));
}

/// Rows of its left input are rows of the left side of a join, and those of its right input, if
/// that is another one, of the right side.
pub proof fn law_inputs_are_the_sides<S: RowSink>(op: JoinOperator<S>, input: InputPort)
    ensures
        op.side_of(op.left_input) == Some(JoinSide::Left),
        op.left_input != op.right_input ==> op.side_of(op.right_input) == Some(JoinSide::Right),
        op.side_of(input) is None <==> input != op.left_input && input != op.right_input,
{
}

} // verus!
