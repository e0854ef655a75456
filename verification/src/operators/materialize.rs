//! Rows that end in a view.

use vstd::prelude::*;

use super::{from_sink, OperatorError, RowSink};
use crate::materialized_view;
use crate::materialized_view::{MaterializedViewHandle, MaterializedViewRegistry};
use crate::mv::registry::DbspPersistedState;
use crate::stream_types::{Diff, InputPort, Timestamp};
use crate::values;
use crate::values::{clone_row, Row, ScalarView};
use crate::zset;
use crate::zset::{PublishedSnapshot, ZSet};

verus! {

/// Keeps a materialized view up to date.
pub struct MaterializeOperator<S: RowSink> {
    pub input: InputPort,
    /// Position of the view in its registry.
    pub view: usize,
    pub sink: S,
    pub published: PublishedSnapshot,
    pub last_published_ts: Option<i64>,
}

/// How often rows occur after the changes of the first `n` are applied one by one, where every
/// sum fits into sixty-four bits.
pub open spec fn changes_fit(
    rows: Seq<(Seq<ScalarView>, int)>,
    changes: Seq<(Seq<ScalarView>, int)>,
    n: nat,
) -> bool
    decreases n,
{
    n == 0 || {
        &&& changes_fit(rows, changes, (n - 1) as nat)
        &&& i64::MIN <= materialized_view::multiplicity(
            rows + changes.take(n as int),
            changes[n - 1].0,
        ) <= i64::MAX
    }
}

/// Changes that fit so far did so before.
proof fn lemma_changes_fit_before(
    rows: Seq<(Seq<ScalarView>, int)>,
    changes: Seq<(Seq<ScalarView>, int)>,
    n: nat,
    m: nat,
)
    requires
        changes_fit(rows, changes, m),
        n <= m,
    ensures
        changes_fit(rows, changes, n),
    decreases m,
{
    if n < m {
        lemma_changes_fit_before(rows, changes, n, (m - 1) as nat);
    }
}

/// How many of the first `n` changes are applied: all before the first one that does not fit.
pub open spec fn fitting(
    rows: Seq<(Seq<ScalarView>, int)>,
    changes: Seq<(Seq<ScalarView>, int)>,
    n: nat,
) -> nat
    decreases n,
{
    if n == 0 {
        0
    } else if changes_fit(rows, changes, n) {
        n
    } else {
        fitting(rows, changes, (n - 1) as nat)
    }
}

/// The changes before the first one that does not fit are those that fit.
proof fn lemma_fitting(
    rows: Seq<(Seq<ScalarView>, int)>,
    changes: Seq<(Seq<ScalarView>, int)>,
    i: nat,
    n: nat,
)
    requires
        i < n,
        changes_fit(rows, changes, i),
        !changes_fit(rows, changes, i + 1),
    ensures
        fitting(rows, changes, n) == i,
    decreases n,
{
    if changes_fit(rows, changes, n) {
        lemma_changes_fit_before(rows, changes, i + 1, n);
    }
    if i + 1 < n {
        lemma_fitting(rows, changes, i, (n - 1) as nat);
    } else {
        assert(fitting(rows, changes, i) == i);
    }
}

/// One more change changes the multiplicity of its row.
proof fn lemma_one_more_change(
    rows: Seq<(Seq<ScalarView>, int)>,
    changes: Seq<(Seq<ScalarView>, int)>,
    n: int,
    row: Seq<ScalarView>,
)
    requires
        0 <= n < changes.len(),
    ensures
        materialized_view::multiplicity(rows + changes.take(n + 1), row)
            == materialized_view::multiplicity(rows + changes.take(n), row)
            + if values::same_row(changes[n].0, row) {
            changes[n].1
        } else {
            0
        },
{
    let more = rows + changes.take(n + 1);
    assert(more.drop_last() =~= rows + changes.take(n));
    assert(more.last() == changes[n]);
}

/// Applies the changes of rows to a view, one by one.
///
/// The changes before the first one that does not fit into sixty-four bits are applied.
pub fn apply_view_deltas(view: &mut MaterializedViewHandle, deltas: &Vec<(Row, Diff)>) -> (fits:
    bool)
    ensures
        fits == changes_fit(
            old(view).rows(),
            materialized_view::counted(deltas@),
            deltas@.len(),
        ),
        fits ==> forall|row: Seq<ScalarView>|
            #[trigger] materialized_view::multiplicity(final(view).rows(), row)
                == materialized_view::multiplicity(
                old(view).rows() + materialized_view::counted(deltas@),
                row,
            ),
        forall|row: Seq<ScalarView>|
            #[trigger] materialized_view::multiplicity(final(view).rows(), row)
                == materialized_view::multiplicity(
                old(view).rows() + materialized_view::counted(deltas@).take(
                    fitting(
                        old(view).rows(),
                        materialized_view::counted(deltas@),
                        deltas@.len(),
                    ) as int,
                ),
                row,
            ),
        final(view).view_name() == old(view).view_name(),
        final(view).view_watermark() == old(view).view_watermark(),
{
    let ghost rows = view.rows();
    let ghost changes = materialized_view::counted(deltas@);
    let mut i: usize = 0;
    assert(rows + changes.take(0) =~= rows);
    while i < deltas.len()
        invariant
            i <= deltas@.len(),
            rows == old(view).rows(),
            changes == materialized_view::counted(deltas@),
            changes_fit(rows, changes, i as nat),
            forall|row: Seq<ScalarView>|
                #[trigger] materialized_view::multiplicity(view.rows(), row)
                    == materialized_view::multiplicity(rows + changes.take(i as int), row),
            view.view_name() == old(view).view_name(),
            view.view_watermark() == old(view).view_watermark(),
        decreases deltas@.len() - i,
    {
        let ghost before = view.rows();
        let diff: i64 = deltas[i].1;
        let row = clone_row(&deltas[i].0);
        proof {
            lemma_one_more_change(rows, changes, i as int, changes[i as int].0);
            materialized_view::lemma_same_row(
                changes[i as int].0,
                changes[i as int].0,
                changes[i as int].0,
            );
            assert(materialized_view::multiplicity(before, changes[i as int].0)
                == materialized_view::multiplicity(
                rows + changes.take(i as int),
                changes[i as int].0,
            ));
        }
        if !view.apply(row, diff) {
            proof {
                if changes_fit(rows, changes, deltas@.len()) {
                    lemma_changes_fit_before(rows, changes, (i + 1) as nat, deltas@.len());
                }
                lemma_fitting(rows, changes, i as nat, deltas@.len());
            }
            return false;
        }
        proof {
            assert forall|other: Seq<ScalarView>|
                #[trigger] materialized_view::multiplicity(view.rows(), other)
                    == materialized_view::multiplicity(rows + changes.take(i + 1), other) by {
                lemma_one_more_change(rows, changes, i as int, other);
                assert(materialized_view::multiplicity(before, other)
                    == materialized_view::multiplicity(rows + changes.take(i as int), other));
            }
        }
        i = i + 1;
    }
    assert(changes.take(i as int) =~= changes);
    true
}

impl<S: RowSink> MaterializeOperator<S> {
    /// An operator that keeps the view of a name, which is registered if need be; what was
    /// restored of it counts as published.
    pub fn new(
        input: InputPort,
        view_name: String,
        registry: &mut MaterializedViewRegistry,
        sink: S,
        restored: Option<ZSet>,
    ) -> (operator: Self)
        ensures
            operator.input == input,
            operator.sink == sink,
            operator.last_published_ts is None,
            operator.view < final(registry).views().len(),
            old(registry).views().len() <= final(registry).views().len(),
            forall|i: int|
                0 <= i < old(registry).views().len() ==> #[trigger] final(registry).views()[i]
                    == old(registry).views()[i],
            materialized_view::first_named(
                materialized_view::view_names(final(registry).views()),
                view_name@,
                final(registry).views().len(),
            ) == Some(operator.view as nat),
            match materialized_view::first_named(
                materialized_view::view_names(old(registry).views()),
                view_name@,
                old(registry).views().len(),
            ) {
                Some(found) => {
                    &&& operator.view == found
                    &&& final(registry).views() == old(registry).views()
                },
                None => {
                    let made = final(registry).views().last();
                    &&& operator.view == old(registry).views().len()
                    &&& final(registry).views().len() == operator.view + 1
                    &&& final(registry).views().drop_last() == old(registry).views()
                    &&& made.view_name() == view_name@
                    &&& made.rows() == Seq::<(Seq<ScalarView>, int)>::empty()
                    &&& made.view_watermark() is None
                },
            },
            match restored {
                Some(set) => operator.published.view() == set.view(),
                None => operator.published.view() == Seq::<(Seq<u8>, int)>::empty(),
            },
    {
        let ghost before = registry.views();
        let view: usize = registry.register(view_name);
        proof {
            assert forall|i: int| 0 <= i < before.len() implies #[trigger] registry.views()[i]
                == before[i] by {
                if registry.views().len() > before.len() {
                    assert(registry.views().drop_last()[i] == before[i]);
                }
            }
            lemma_found_in_range(
                materialized_view::view_names(registry.views()),
                view_name@,
                registry.views().len(),
            );
        }
        let published = match restored {
            Some(set) => PublishedSnapshot::restored(set),
            None => PublishedSnapshot::new(),
        };
        MaterializeOperator { input, view, sink, published, last_published_ts: None }
    }

    /// The sink that is fed.
    pub fn sink(&self) -> (sink: &S)
        ensures
            *sink == self.sink,
    {
        &self.sink
    }

    /// Hands a row that changes anything on to the sink.
    pub fn on_input(
        &mut self,
        input: InputPort,
        row: Row,
        diff: Diff,
        timestamp: Timestamp,
    ) -> (result: Result<(), OperatorError>)
        ensures
            final(self).input == old(self).input,
            final(self).view == old(self).view,
            final(self).published == old(self).published,
            final(self).last_published_ts == old(self).last_published_ts,
            if input != old(self).input {
                &&& result == Err::<(), OperatorError>(OperatorError::UnexpectedPort(input))
                &&& final(self).sink == old(self).sink
            } else if diff == 0 {
                result is Ok && final(self).sink == old(self).sink
            } else {
                super::forwards(
                    old(self).sink,
                    values::row_view(row@),
                    diff,
                    timestamp,
                    final(self).sink,
                    result,
                )
            },
    {
        if input != self.input {
            return Err(OperatorError::UnexpectedPort(input));
        }
        if diff == 0 {
            return Ok(());
        }
        from_sink(self.sink.push(row, diff, timestamp))
    }

    /// Moves the watermark of the view and hands it to the sink.
    pub fn on_watermark(
        &mut self,
        registry: &mut MaterializedViewRegistry,
        watermark: Timestamp,
    ) -> (result: Result<(), OperatorError>)
        requires
            old(self).view < old(registry).views().len(),
        ensures
            super::passes_watermark(old(self).sink, watermark, final(self).sink, result),
            final(self).input == old(self).input,
            final(self).view == old(self).view,
            final(self).published == old(self).published,
            final(self).last_published_ts == old(self).last_published_ts,
            final(registry).views().len() == old(registry).views().len(),
            ({
                let at = old(self).view as int;
                let before = old(registry).views()[at];
                let after = final(registry).views()[at];
                &&& after.view_watermark() == Some(watermark)
                &&& after.rows() == before.rows()
                &&& after.view_name() == before.view_name()
                &&& forall|i: int|
                    0 <= i < old(registry).views().len() && i != at
                        ==> #[trigger] final(registry).views()[i] == old(registry).views()[i]
            }),
    {
        registry.view_mut(self.view).update_watermark(watermark);
        from_sink(self.sink.watermark(watermark))
    }

    /// The next timestamp to be published, up to the frontier.
    pub fn next_pending(&self, frontier: i64) -> (next: Option<i64>)
        ensures
            ({
                let after = match self.last_published_ts {
                    Some(ts) => ts + 1,
                    None => 1,
                };
                next == (if after <= frontier {
                    Some(after as i64)
                } else {
                    None
                })
            }),
            next == pending_after(self.last_published_ts, frontier),
    {
        let last: i64 = match self.last_published_ts {
            Some(ts) => ts,
            None => 0,
        };
        if last < frontier {
            Some(last + 1)
        } else {
            None
        }
    }

    /// How publishing a snapshot changes the operator, and the changes that it answers.
    pub open spec fn replicated(
        self,
        ts: i64,
        snapshot: Seq<(Seq<u8>, int)>,
        after: Self,
        deltas: Option<Vec<(Vec<u8>, i64)>>,
    ) -> bool {
        &&& after.input == self.input
        &&& after.view == self.view
        &&& after.sink == self.sink
        &&& match deltas {
            Some(changes) => {
                &&& after.last_published_ts == Some(ts)
                &&& after.published.view() == snapshot
                &&& zset::distinct_keys(zset::weighted(changes@))
                &&& forall|i: int| 0 <= i < changes@.len() ==> (#[trigger] changes@[i]).1 != 0
                &&& forall|key: Seq<u8>|
                    #[trigger] zset::weight(zset::weighted(changes@), key) == zset::weight(
                        snapshot,
                        key,
                    ) - zset::weight(self.published.view(), key)
            },
            None => {
                &&& !zset::change_fits(self.published.view(), snapshot)
                &&& after.last_published_ts == self.last_published_ts
                &&& after.published.view() == self.published.view()
            },
        }
    }

    /// Publishes a snapshot at a timestamp: the changes since the last one.
    ///
    /// Nothing happens when a change does not fit into sixty-four bits.
    pub fn replicate(&mut self, ts: i64, snapshot: ZSet) -> (deltas: Option<Vec<(Vec<u8>, i64)>>)
        ensures
            old(self).replicated(ts, snapshot.view(), *final(self), deltas),
    {
        let deltas = self.published.advance(snapshot);
        if deltas.is_some() {
            self.last_published_ts = Some(ts);
        }
        deltas
    }
}

/// A found name lies among the names.
proof fn lemma_found_in_range(names: Seq<Seq<char>>, name: Seq<char>, n: nat)
    requires
        materialized_view::first_named(names, name, n) is Some,
    ensures
        materialized_view::first_named(names, name, n)->0 < n,
    decreases n,
{
    if n > 0 && materialized_view::first_named(names, name, (n - 1) as nat) is Some {
        lemma_found_in_range(names, name, (n - 1) as nat);
    }
}

/// What a checkpoint keeps of a view: where it is stored, and at which version.
#[derive(Debug, PartialEq, Eq)]
pub struct MaterializedViewCheckpointEntry {
    pub view: String,
    pub namespace: String,
    pub version: u64,
}

/// What a checkpoint keeps of a view that is published: where its rows were stored last.
pub fn checkpoint_state<D, T>(
    view_name: &str,
    publishes: bool,
    stored: Option<&DbspPersistedState<D, T>>,
) -> (entry: Option<MaterializedViewCheckpointEntry>)
    ensures
        match (stored, entry) {
            (Some(state), Some(kept)) => {
                &&& publishes
                &&& kept.view@ == view_name@
                &&& kept.namespace@ == state.namespace@
                &&& kept.version == state.version
            },
            (_, None) => !publishes || stored is None,
            (None, Some(_)) => false,
        },
{
    match stored {
        Some(state) if publishes => Some(
            MaterializedViewCheckpointEntry {
                view: String::from_str(view_name),
                namespace: state.namespace.clone(),
                version: state.version,
            },
        ),
        _ => None,
    }
}

/// Changes fit where after each of them the number of its row is one of sixty-four bits; those that
/// fit are the longest run from the first on.
pub proof fn law_changes_fit_one_by_one(
    rows: Seq<(Seq<ScalarView>, int)>,
    changes: Seq<(Seq<ScalarView>, int)>,
    n: nat,
)
    requires
        n <= changes.len(),
    ensures
        changes_fit(rows, changes, n) <==> forall|k: int|
            0 < k <= n ==> -0x8000_0000_0000_0000 <= materialized_view::multiplicity(
                rows + #[trigger] changes.take(k),
                changes[k - 1].0,
            ) < 0x8000_0000_0000_0000,
        fitting(rows, changes, n) <= n,
        changes_fit(rows, changes, fitting(rows, changes, n)),
        fitting(rows, changes, n) < n ==> !changes_fit(
            rows,
            changes,
            fitting(rows, changes, n) + 1,
        ),
    decreases n,
{
    if n > 0 {
        law_changes_fit_one_by_one(rows, changes, (n - 1) as nat);
        if changes_fit(rows, changes, n) {
            assert forall|k: int| 0 < k <= n implies -0x8000_0000_0000_0000
                <= materialized_view::multiplicity(
                rows + #[trigger] changes.take(k),
                changes[k - 1].0,
            ) < 0x8000_0000_0000_0000 by {
                if k == n {
                    assert(changes.take(k) == changes.take(n as int));
                }
            }
        } else if forall|k: int|
            0 < k <= n ==> -0x8000_0000_0000_0000 <= materialized_view::multiplicity(
                rows + #[trigger] changes.take(k),
                changes[k - 1].0,
            ) < 0x8000_0000_0000_0000 {
            assert(changes.take(n as int).len() == n);
        }
    }
}

/// The moment behind the last published one, as far as the frontier reached it.
pub open spec fn pending_after(last: Option<i64>, frontier: i64) -> Option<i64> {
    let after = match last {
        Some(ts) => ts + 1,
        None => 1,
    };
    if after <= frontier {
        Some(after as i64)
    } else {
        None
    }
}

/// Moments are published one by one, from the first up to the frontier: none is left out, and none
/// comes twice.
pub proof fn law_moments_are_published_one_by_one(last: i64, frontier: i64)
    ensures
        pending_after(Some(last), frontier) is Some <==> last < frontier,
        pending_after(Some(last), frontier) matches Some(next) ==> next - last == 1,
        pending_after(None, frontier) is Some <==> frontier >= 1,
        pending_after(None, frontier) matches Some(next) ==> next == 1,
{
}

} // verus!
