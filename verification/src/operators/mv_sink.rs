//! Changes of a view, made into versions of its stored collection.

use vstd::prelude::*;

use crate::mv::registry;
use crate::mv::registry::{DbspPersistedState, MaterializedViewRegistry, ViewState, ZSetHandle};

verus! {

/// Changes of weights of one bucket, by identifier.
#[derive(Debug, PartialEq, Eq)]
pub struct SegmentRecord {
    pub id: u64,
    pub bucket: u16,
    pub deltas: Vec<(u64, i64)>,
}

/// The bucket of an identifier: its sixteen highest bits.
pub open spec fn bucket_of(id: u64) -> u16 {
    (id / 0x1_0000_0000_0000) as u16
}

/// The bucket of an identifier: its sixteen highest bits.
pub fn bucket_for(id: u64) -> (bucket: u16)
    ensures
        bucket == bucket_of(id),
{
    (id / 0x1_0000_0000_0000) as u16
}

/// A smaller identifier has no larger bucket.
proof fn lemma_bucket_monotone(a: u64, b: u64)
    requires
        a <= b,
    ensures
        bucket_of(a) <= bucket_of(b),
{
}

/// The changes that are not zero, among the first `n`.
pub open spec fn nonzero(deltas: Seq<(u64, i64)>, n: nat) -> Seq<(u64, i64)>
    decreases n,
{
    if n == 0 {
        Seq::empty()
    } else if deltas[n - 1].1 == 0 {
        nonzero(deltas, (n - 1) as nat)
    } else {
        nonzero(deltas, (n - 1) as nat).push(deltas[n - 1])
    }
}

/// Changes in the order of their identifiers.
pub open spec fn by_id(deltas: Seq<(u64, i64)>) -> bool {
    forall|i: int, j: int|
        0 <= i < j < deltas.len() ==> (#[trigger] deltas[i]).0 <= (#[trigger] deltas[j]).0
}

/// The changes of the first `n` segments, one after the other.
pub open spec fn all_deltas(segments: Seq<SegmentRecord>, n: nat) -> Seq<(u64, i64)>
    decreases n,
{
    if n == 0 {
        Seq::empty()
    } else {
        all_deltas(segments, (n - 1) as nat) + segments[n - 1].deltas@
    }
}

/// A segment of one bucket, with changes, not yet stored.
pub open spec fn is_segment(segment: SegmentRecord) -> bool {
    &&& segment.id == 0
    &&& segment.deltas@.len() > 0
    &&& forall|i: int|
        0 <= i < segment.deltas@.len() ==> bucket_of((#[trigger] segment.deltas@[i]).0)
            == segment.bucket
}

/// Segments in the order of their buckets, one per bucket.
pub open spec fn by_bucket(segments: Seq<SegmentRecord>) -> bool {
    forall|i: int, j: int|
        0 <= i < j < segments.len() ==> (#[trigger] segments[i]).bucket < (
        #[trigger] segments[j]).bucket
}

/// Merges two lists in the order of their identifiers.
fn merge(a: &Vec<(u64, i64)>, b: &Vec<(u64, i64)>) -> (merged: Vec<(u64, i64)>)
    requires
        by_id(a@),
        by_id(b@),
    ensures
        by_id(merged@),
        merged@.to_multiset() == a@.to_multiset().add(b@.to_multiset()),
{
    broadcast use vstd::seq_lib::group_to_multiset_ensures;

    let mut merged: Vec<(u64, i64)> = Vec::new();
    let mut i: usize = 0;
    let mut j: usize = 0;
    assert(a@.take(0) =~= Seq::<(u64, i64)>::empty());
    assert(b@.take(0) =~= Seq::<(u64, i64)>::empty());
    assert(merged@ =~= Seq::<(u64, i64)>::empty());
    assert(merged@.to_multiset() =~= a@.take(0).to_multiset().add(b@.take(0).to_multiset()));
    while i < a.len() || j < b.len()
        invariant
            i <= a@.len(),
            j <= b@.len(),
            by_id(a@),
            by_id(b@),
            by_id(merged@),
            forall|k: int, l: int|
                0 <= k < merged@.len() && i <= l < a@.len() ==> (#[trigger] merged@[k]).0 <= (
                #[trigger] a@[l]).0,
            forall|k: int, l: int|
                0 <= k < merged@.len() && j <= l < b@.len() ==> (#[trigger] merged@[k]).0 <= (
                #[trigger] b@[l]).0,
            merged@.to_multiset() == a@.take(i as int).to_multiset().add(
                b@.take(j as int).to_multiset(),
            ),
        decreases a@.len() - i + b@.len() - j,
    {
        let from_left: bool = if i == a.len() {
            false
        } else if j == b.len() {
            true
        } else {
            a[i].0 <= b[j].0
        };
        let ghost before = merged@;
        if from_left {
            merged.push(a[i]);
            proof {
                assert(a@.take(i + 1) =~= a@.take(i as int).push(a@[i as int]));
                before.to_multiset_ensures();
                a@.take(i as int).to_multiset_ensures();
                assert(merged@ == before.push(a@[i as int]));
                assert(merged@.to_multiset() =~= a@.take(i + 1).to_multiset().add(
                    b@.take(j as int).to_multiset(),
                ));
            }
            i = i + 1;
        } else {
            merged.push(b[j]);
            proof {
                assert(b@.take(j + 1) =~= b@.take(j as int).push(b@[j as int]));
                before.to_multiset_ensures();
                b@.take(j as int).to_multiset_ensures();
                assert(merged@ == before.push(b@[j as int]));
                assert(merged@.to_multiset() =~= a@.take(i as int).to_multiset().add(
                    b@.take(j + 1).to_multiset(),
                ));
            }
            j = j + 1;
        }
    }
    assert(a@.take(i as int) =~= a@);
    assert(b@.take(j as int) =~= b@);
    merged
}

/// Sorts changes by their identifiers.
fn sort_by_id(deltas: Vec<(u64, i64)>) -> (sorted: Vec<(u64, i64)>)
    ensures
        by_id(sorted@),
        sorted@.to_multiset() == deltas@.to_multiset(),
    decreases deltas@.len(),
{
    if deltas.len() <= 1 {
        return deltas;
    }
    let middle: usize = deltas.len() / 2;
    let mut left = deltas;
    let right = left.split_off(middle);
    proof {
        assert(left@ + right@ =~= deltas@);
        vstd::seq_lib::lemma_multiset_commutative(left@, right@);
    }
    let left = sort_by_id(left);
    let right = sort_by_id(right);
    merge(&left, &right)
}

/// The changes that are not zero.
fn without_zeros(deltas: &Vec<(u64, i64)>) -> (kept: Vec<(u64, i64)>)
    ensures
        kept@ == nonzero(deltas@, deltas@.len()),
{
    let mut kept: Vec<(u64, i64)> = Vec::new();
    let mut i: usize = 0;
    while i < deltas.len()
        invariant
            i <= deltas@.len(),
            kept@ == nonzero(deltas@, i as nat),
        decreases deltas@.len() - i,
    {
        if deltas[i].1 != 0 {
            kept.push(deltas[i]);
        }
        i = i + 1;
    }
    kept
}

/// More segments leave the changes of the first ones as they are.
proof fn lemma_all_deltas_prefix(
    segments: Seq<SegmentRecord>,
    more: Seq<SegmentRecord>,
    n: nat,
)
    requires
        n <= segments.len(),
        n <= more.len(),
        forall|i: int| 0 <= i < n ==> segments[i] == more[i],
    ensures
        all_deltas(more, n) == all_deltas(segments, n),
    decreases n,
{
    if n > 0 {
        lemma_all_deltas_prefix(segments, more, (n - 1) as nat);
    }
}

/// The segments of changes by identifier: one per bucket with changes that are not zero, in the
/// order of the buckets, and in each the changes in the order of their identifiers.
pub fn build_segments(deltas: &Vec<(u64, i64)>) -> (segments: Vec<SegmentRecord>)
    ensures
        by_bucket(segments@),
        forall|i: int| 0 <= i < segments@.len() ==> is_segment(#[trigger] segments@[i]),
        by_id(all_deltas(segments@, segments@.len())),
        all_deltas(segments@, segments@.len()).to_multiset() == nonzero(
            deltas@,
            deltas@.len(),
        ).to_multiset(),
{
    let sorted = sort_by_id(without_zeros(deltas));
    let mut segments: Vec<SegmentRecord> = Vec::new();
    let mut from: usize = 0;
    assert(all_deltas(segments@, 0) =~= sorted@.take(0));
    while from < sorted.len()
        invariant
            from <= sorted@.len(),
            by_id(sorted@),
            all_deltas(segments@, segments@.len()) == sorted@.take(from as int),
            by_bucket(segments@),
            forall|i: int| 0 <= i < segments@.len() ==> is_segment(#[trigger] segments@[i]),
            forall|i: int, k: int|
                0 <= i < segments@.len() && from <= k < sorted@.len() ==> (
                #[trigger] segments@[i]).bucket < bucket_of((#[trigger] sorted@[k]).0),
        decreases sorted@.len() - from,
    {
        let bucket: u16 = bucket_for(sorted[from].0);
        let mut group: Vec<(u64, i64)> = Vec::new();
        let mut to: usize = from;
        while to < sorted.len() && bucket_for(sorted[to].0) == bucket
            invariant
                from <= to <= sorted@.len(),
                from < sorted@.len(),
                bucket == bucket_of(sorted@[from as int].0),
                group@ == sorted@.subrange(from as int, to as int),
                forall|k: int|
                    from <= k < to ==> bucket_of((#[trigger] sorted@[k]).0) == bucket,
            ensures
                from < to <= sorted@.len(),
                group@ == sorted@.subrange(from as int, to as int),
                forall|k: int|
                    from <= k < to ==> bucket_of((#[trigger] sorted@[k]).0) == bucket,
                to < sorted@.len() ==> bucket_of(sorted@[to as int].0) != bucket,
            decreases sorted@.len() - to,
        {
            group.push(sorted[to]);
            assert(group@ =~= sorted@.subrange(from as int, to + 1));
            to = to + 1;
        }
        let ghost before = segments@;
        segments.push(SegmentRecord { id: 0, bucket, deltas: group });
        proof {
            lemma_all_deltas_prefix(before, segments@, before.len());
            assert(sorted@.take(from as int) + sorted@.subrange(from as int, to as int)
                =~= sorted@.take(to as int));
            assert forall|i: int, k: int|
                0 <= i < segments@.len() && to <= k < sorted@.len() implies (
            #[trigger] segments@[i]).bucket < bucket_of((#[trigger] sorted@[k]).0) by {
                lemma_bucket_monotone(sorted@[from as int].0, sorted@[to as int].0);
                if to < k {
                    assert(sorted@[to as int].0 <= sorted@[k].0);
                }
                lemma_bucket_monotone(sorted@[to as int].0, sorted@[k].0);
                if i < before.len() {
                    assert(segments@[i] == before[i]);
                    assert(before[i].bucket < bucket_of(sorted@[k].0));
                }
            }
            assert forall|i: int, j: int| 0 <= i < j < segments@.len() implies (
            #[trigger] segments@[i]).bucket < (#[trigger] segments@[j]).bucket by {
                assert(segments@[i] == before[i]);
                if j == before.len() {
                    assert(before[i].bucket < bucket_of(sorted@[from as int].0));
                }
            }
        }
        from = to;
    }
    assert(sorted@.take(from as int) =~= sorted@);
    segments
}

/// What the changes of a step do to the versions of a view.
#[derive(Debug, PartialEq, Eq)]
pub enum VersionPlan {
    /// Nothing changed: the current version stays, or version zero where there is none.
    Keep(u64),
    /// A new version of these segments is made on top of the current one.
    Create(Vec<SegmentRecord>, Option<u64>),
}

/// Whether the changes of a step need a new version, and on top of which one.
pub fn plan_version(deltas: &Vec<(u64, i64)>, current: Option<u64>) -> (plan: VersionPlan)
    ensures
        match plan {
            VersionPlan::Keep(version) => {
                &&& nonzero(deltas@, deltas@.len()).len() == 0
                &&& version == (match current {
                    Some(v) => v,
                    None => 0,
                })
            },
            VersionPlan::Create(segments, base) => {
                &&& segments@.len() > 0
                &&& base == current
                &&& by_bucket(segments@)
                &&& forall|i: int| 0 <= i < segments@.len() ==> is_segment(#[trigger] segments@[i])
                &&& by_id(all_deltas(segments@, segments@.len()))
                &&& all_deltas(segments@, segments@.len()).to_multiset() == nonzero(
                    deltas@,
                    deltas@.len(),
                ).to_multiset()
            },
        },
{
    broadcast use vstd::seq_lib::group_to_multiset_ensures;

    let segments = build_segments(deltas);
    if segments.len() == 0 {
        proof {
            assert(all_deltas(segments@, 0).to_multiset().len() == 0);
        }
        VersionPlan::Keep(
            match current {
                Some(version) => version,
                None => 0,
            },
        )
    } else {
        VersionPlan::Create(segments, current)
    }
}

/// Why a step of a view's sink fails.
#[derive(Clone, Copy, Debug, PartialEq, Eq, Structural)]
pub enum MvSinkError {
    /// The step has no input.
    NoInput,
    /// There is no view of the name.
    ViewNotRegistered,
}

/// The input of a step: the first of the collections that are handed to it.
pub fn step_input(inputs: &Vec<ZSetHandle>) -> (input: Result<ZSetHandle, MvSinkError>)
    ensures
        input == (if inputs@.len() == 0 {
            Err(MvSinkError::NoInput)
        } else {
            Ok(inputs@[0])
        }),
{
    if inputs.len() == 0 {
        Err(MvSinkError::NoInput)
    } else {
        Ok(inputs[0].clone())
    }
}

/// A sink that keeps a view at the version that was stored of it last.
#[derive(Debug)]
pub struct MvSinkOp {
    pub view_name: String,
}

impl MvSinkOp {
    /// The sink of a view.
    pub fn new(view_name: String) -> (sink: Self)
        ensures
            sink.view_name == view_name,
    {
        MvSinkOp { view_name }
    }

    /// Ends a step that changed something: the view is at the version that was stored.
    pub fn finish_step<B, C, D, T, W, S>(
        &self,
        registry: &mut MaterializedViewRegistry<B, C, DbspPersistedState<D, T>, W, S>,
        dictionary: D,
        table: T,
        stored: ZSetHandle,
    ) -> (result: Result<(), MvSinkError>)
        ensures
            final(registry).schemas() == old(registry).schemas(),
            final(registry).keep_last() == old(registry).keep_last(),
            match registry::find_view(old(registry).views(), self.view_name@) {
                Some(at) => {
                    &&& result is Ok
                    &&& final(registry).views() == old(registry).views().update(
                        at as int,
                        (ViewState {
                            persisted: Some(
                                DbspPersistedState {
                                    dictionary,
                                    table,
                                    namespace: stored.ns,
                                    version: stored.version,
                                    logical_version: stored.version,
                                },
                            ),
                            ..old(registry).views()[at as int]
                        }),
                    )
                },
                None => {
                    &&& result == Err::<(), MvSinkError>(MvSinkError::ViewNotRegistered)
                    &&& *final(registry) == *old(registry)
                },
            },
    {
        match registry.get(self.view_name.as_str()) {
            Some(at) => {
                let state = DbspPersistedState::new(
                    dictionary,
                    table,
                    stored.ns,
                    stored.version,
                );
                registry.view_mut(at).set_dbsp_state(state);
                Ok(())
            },
            None => Err(MvSinkError::ViewNotRegistered),
        }
    }
}

/// The bucket of an identifier is its upper sixteen bits: two identifiers are in one bucket where
/// they lie between the same multiples of two to the forty-eighth.
pub proof fn law_bucket_is_the_upper_bits(id: u64)
    ensures
        0 <= id - bucket_of(id) * 0x1_0000_0000_0000 < 0x1_0000_0000_0000,
{
}

/// A change is kept, as often as it is there, where it is not zero; a change of zero is dropped.
pub proof fn law_changes_of_zero_are_dropped(deltas: Seq<(u64, i64)>, n: nat, change: (u64, i64))
    requires
        n <= deltas.len(),
    ensures
        nonzero(deltas, n).to_multiset().count(change) == (if change.1 == 0 {
            0
        } else {
            deltas.take(n as int).to_multiset().count(change)
        }),
    decreases n,
{
    broadcast use vstd::seq_lib::group_to_multiset_ensures;

    if n == 0 {
        assert(deltas.take(0) =~= Seq::empty());
    } else {
        law_changes_of_zero_are_dropped(deltas, (n - 1) as nat, change);
        assert(deltas.take(n as int) =~= deltas.take(n - 1).push(deltas[n - 1]));
    }
}

} // verus!
