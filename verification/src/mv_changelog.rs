//! Changes of a materialized view, version by version.

use vstd::prelude::*;

use crate::columns;
use crate::columns::{clone_schema, index_of, schemas_same, BatchError, Cell, CellView, Column, ColumnBatch, Field};
use crate::mv::registry::{MaterializedViewHandle, MaterializedViewRegistry, ViewState};
use crate::mv::version_map;
use crate::mv::registry;
use crate::values::DataType;

verus! {

/// How many batches may wait for the reader.
pub const MV_CHANGELOG_CHANNEL_CAPACITY_DEFAULT: usize = 256;

/// How many versions are sent before others get their turn.
pub const MV_CHANGELOG_MAX_CATCHUP_VERSIONS_DEFAULT: i64 = 32;

/// Limits of a changelog.
#[derive(Clone, Copy, Debug, PartialEq, Eq, Structural)]
pub struct MvChangelogExecutionConfig {
    pub channel_capacity: usize,
    pub max_catchup_versions: i64,
}

impl Default for MvChangelogExecutionConfig {
    fn default() -> (config: Self)
        ensures
            config.channel_capacity == 256,
            config.max_catchup_versions == 32,
    {
        MvChangelogExecutionConfig {
            channel_capacity: MV_CHANGELOG_CHANNEL_CAPACITY_DEFAULT,
            max_catchup_versions: MV_CHANGELOG_MAX_CATCHUP_VERSIONS_DEFAULT,
        }
    }
}

impl MvChangelogExecutionConfig {
    /// How many batches may wait: at least one.
    pub fn channel_capacity(self) -> (capacity: usize)
        ensures
            capacity == (if self.channel_capacity < 1 {
                1
            } else {
                self.channel_capacity
            }),
    {
        if self.channel_capacity < 1 {
            1
        } else {
            self.channel_capacity
        }
    }

    /// How many versions are sent at a time: at least one.
    pub fn max_catchup_versions(self) -> (versions: i64)
        ensures
            versions == (if self.max_catchup_versions < 1 {
                1
            } else {
                self.max_catchup_versions
            }),
    {
        if self.max_catchup_versions < 1 {
            1
        } else {
            self.max_catchup_versions
        }
    }
}

/// Whether a batch holds all rows of a version or what the version changed.
#[derive(Clone, Copy, Debug, PartialEq, Eq, Structural)]
pub enum MvChangelogBatchKind {
    Snapshot,
    Delta,
}

/// Rows of a version and the change of multiplicity of each.
#[derive(Debug)]
pub struct MvChangelogBatch {
    pub version: i64,
    pub version_time: Option<i64>,
    pub kind: MvChangelogBatchKind,
    pub batch: ColumnBatch,
    pub diffs: Vec<i64>,
}

/// What a reader asks for.
#[derive(Debug)]
pub struct MvChangelogParams {
    pub mv_name: String,
    pub with_snapshot: bool,
    pub as_of: Option<i64>,
}

/// Why a changelog ended.
#[derive(Clone, Copy, Debug, PartialEq, Eq, Structural)]
pub enum MvChangelogError {
    /// There is no view of the name.
    ViewNotFound,
    /// The view has no schema.
    SchemaMissing,
    /// The view has no such version.
    VersionNotFound(i64),
    /// The reader canceled.
    Canceled,
    /// A batch has another schema than the view.
    SnapshotSchemaMismatch,
    /// A batch of changes has no weight column.
    WeightMissing,
    /// The weights are no integers.
    WeightNotInt64,
    /// A weight is null.
    WeightNull,
    /// The columns of a batch of changes do not fit the schema of the view.
    Batch(BatchError),
}

/// The error of a canceled changelog.
pub fn query_canceled_error() -> (error: MvChangelogError)
    ensures
        error == MvChangelogError::Canceled,
{
    MvChangelogError::Canceled
}

/// Whether a changelog ended because the reader canceled.
pub fn is_mv_changelog_canceled_error(error: &MvChangelogError) -> (canceled: bool)
    ensures
        canceled == (*error is Canceled),
{
    match error {
        MvChangelogError::Canceled => true,
        _ => false,
    }
}

/// The position of the view that a reader asks for, where it has a schema.
pub fn find_changelog_view<B, C, P, W, S>(
    registry: &MaterializedViewRegistry<B, C, P, W, S>,
    params: &MvChangelogParams,
) -> (found: Result<usize, MvChangelogError>)
    ensures
        match registry::find_view(registry.views(), params.mv_name@) {
            None => found == Err::<usize, MvChangelogError>(MvChangelogError::ViewNotFound),
            Some(at) => if registry::find_schema(registry.schemas(), params.mv_name@) is None {
                found == Err::<usize, MvChangelogError>(MvChangelogError::SchemaMissing)
            } else {
                found is Ok && found->Ok_0 == at && at < registry.views().len()
            },
        },
{
    match registry.get(params.mv_name.as_str()) {
        None => Err(MvChangelogError::ViewNotFound),
        Some(at) => match registry.schema(params.mv_name.as_str()) {
            None => Err(MvChangelogError::SchemaMissing),
            Some(_) => Ok(at),
        },
    }
}

/// One less, not below the smallest version.
pub open spec fn version_before(version: i64) -> i64 {
    if version == i64::MIN {
        version
    } else {
        (version - 1) as i64
    }
}

/// Whether a view has a version: it is the latest, or the first after the one before it.
pub open spec fn version_exists(latest: Option<i64>, times: Seq<(i64, i64)>, version: i64) -> bool {
    latest == Some(version) || version_map::next_after(times, version_before(version)) == Some(
        version,
    )
}

/// Whether a view has a version.
pub fn mv_version_exists<B, C, P, W>(
    view: &MaterializedViewHandle<B, C, P, W>,
    version: i64,
) -> (found: bool)
    ensures
        found == version_exists(view@.latest, view@.times, version),
{
    let latest = match view.latest_version() {
        Some(latest) => latest == version,
        None => false,
    };
    if latest {
        return true;
    }
    let before: i64 = if version == i64::MIN {
        version
    } else {
        version - 1
    };
    match view.next_version_after(before) {
        Some(next) => next == version,
        None => false,
    }
}

/// A round of sending: up to which version, and how many were sent.
#[derive(Clone, Copy, Debug, PartialEq, Eq, Structural)]
pub struct CatchUp {
    pub latest: i64,
    pub emitted: i64,
}

/// How far a changelog got.
#[derive(Clone, Copy, Debug, PartialEq, Eq, Structural)]
pub struct ChangelogCursor {
    pub last_emitted: i64,
    pub max_catchup_versions: i64,
    pub round: Option<CatchUp>,
}

/// What a changelog does next.
#[derive(Clone, Copy, Debug, PartialEq, Eq, Structural)]
pub enum ChangelogStep {
    /// Send what a version changed.
    EmitDelta(i64),
    /// Let others run, and go on.
    Yield,
    /// Go on at once.
    Again,
    /// Wait for a new version or for the end.
    Wait,
}

/// What happens while a changelog waits.
#[derive(Clone, Copy, Debug, PartialEq, Eq, Structural)]
pub enum ChangelogEvent {
    /// The reader canceled.
    Canceled,
    /// A version was published.
    VersionChanged,
    /// There will be no more versions.
    VersionsClosed,
}

/// How a changelog starts: the version whose rows are sent first, if any, and the cursor.
pub open spec fn started(
    with_snapshot: bool,
    as_of: Option<i64>,
    latest: Option<i64>,
    times: Seq<(i64, i64)>,
    max_catchup_versions: i64,
) -> Result<(Option<i64>, ChangelogCursor), MvChangelogError> {
    match as_of {
        Some(version) => if version_exists(latest, times, version) {
            Ok(
                (
                    if with_snapshot {
                        Some(version)
                    } else {
                        None
                    },
                    ChangelogCursor { last_emitted: version, max_catchup_versions, round: None },
                ),
            )
        } else {
            Err(MvChangelogError::VersionNotFound(version))
        },
        None => {
            let last_emitted = match latest {
                Some(version) => version,
                None => -1i64,
            };
            Ok(
                (
                    if with_snapshot {
                        latest
                    } else {
                        None
                    },
                    ChangelogCursor { last_emitted, max_catchup_versions, round: None },
                ),
            )
        },
    }
}

/// Starts a changelog.
pub fn start_changelog<B, C, P, W>(
    view: &MaterializedViewHandle<B, C, P, W>,
    params: &MvChangelogParams,
    config: MvChangelogExecutionConfig,
) -> (start: Result<(Option<i64>, ChangelogCursor), MvChangelogError>)
    ensures
        start == started(
            params.with_snapshot,
            params.as_of,
            view@.latest,
            view@.times,
            if config.max_catchup_versions < 1 {
                1
            } else {
                config.max_catchup_versions
            },
        ),
{
    let max_catchup_versions: i64 = config.max_catchup_versions();
    let latest = view.latest_version();
    match params.as_of {
        Some(version) => {
            if !mv_version_exists(view, version) {
                return Err(MvChangelogError::VersionNotFound(version));
            }
            let snapshot = if params.with_snapshot {
                Some(version)
            } else {
                None
            };
            Ok(
                (
                    snapshot,
                    ChangelogCursor { last_emitted: version, max_catchup_versions, round: None },
                ),
            )
        },
        None => {
            let last_emitted: i64 = match latest {
                Some(version) => version,
                None => -1,
            };
            let snapshot = if params.with_snapshot {
                latest
            } else {
                None
            };
            Ok((snapshot, ChangelogCursor { last_emitted, max_catchup_versions, round: None }))
        },
    }
}

/// A round of sending goes on: the next version up to the round's latest, where the round sent
/// less than its limit; else the round ends.
pub open spec fn round_step(
    cursor: ChangelogCursor,
    round: CatchUp,
    times: Seq<(i64, i64)>,
) -> (ChangelogCursor, ChangelogStep) {
    let next = version_map::next_after(times, cursor.last_emitted);
    let pending = next is Some && next->0 <= round.latest;
    if round.emitted < cursor.max_catchup_versions && pending {
        (
            ChangelogCursor {
                last_emitted: next->0,
                round: Some(
                    CatchUp { latest: round.latest, emitted: (round.emitted + 1) as i64 },
                ),
                ..cursor
            },
            ChangelogStep::EmitDelta(next->0),
        )
    } else {
        (
            ChangelogCursor { round: None, ..cursor },
            if pending {
                ChangelogStep::Yield
            } else {
                ChangelogStep::Again
            },
        )
    }
}

/// What a changelog does next, given the latest version and the published versions.
pub open spec fn next_step(
    cursor: ChangelogCursor,
    latest: Option<i64>,
    times: Seq<(i64, i64)>,
) -> (ChangelogCursor, ChangelogStep) {
    match cursor.round {
        Some(round) => round_step(cursor, round, times),
        None => {
            let latest_now = match latest {
                Some(version) => version,
                None => cursor.last_emitted,
            };
            if latest_now > cursor.last_emitted {
                round_step(cursor, CatchUp { latest: latest_now, emitted: 0 }, times)
            } else {
                (cursor, ChangelogStep::Wait)
            }
        },
    }
}

impl ChangelogCursor {
    /// What the changelog does next.
    pub fn advance<B, C, P, W>(&mut self, view: &MaterializedViewHandle<B, C, P, W>) -> (step:
        ChangelogStep)
        ensures
            (*final(self), step) == next_step(*old(self), view@.latest, view@.times),
    {
        let round: CatchUp = match self.round {
            Some(round) => round,
            None => {
                let latest_now: i64 = match view.latest_version() {
                    Some(version) => version,
                    None => self.last_emitted,
                };
                if latest_now <= self.last_emitted {
                    return ChangelogStep::Wait;
                }
                CatchUp { latest: latest_now, emitted: 0 }
            },
        };
        let pending: Option<i64> = match view.next_version_after(self.last_emitted) {
            Some(next) => if next <= round.latest {
                Some(next)
            } else {
                None
            },
            None => None,
        };
        match pending {
            Some(next) => {
                if round.emitted < self.max_catchup_versions {
                    self.last_emitted = next;
                    self.round = Some(
                        CatchUp { latest: round.latest, emitted: round.emitted + 1 },
                    );
                    ChangelogStep::EmitDelta(next)
                } else {
                    self.round = None;
                    ChangelogStep::Yield
                }
            },
            None => {
                self.round = None;
                ChangelogStep::Again
            },
        }
    }
}

/// What a waiting changelog does: it goes on, ends, or fails because it was canceled.
pub fn after_wait(event: ChangelogEvent) -> (outcome: Result<bool, MvChangelogError>)
    ensures
        outcome == (match event {
            ChangelogEvent::Canceled => Err(MvChangelogError::Canceled),
            ChangelogEvent::VersionChanged => Ok(true),
            ChangelogEvent::VersionsClosed => Ok(false),
        }),
{
    match event {
        ChangelogEvent::Canceled => Err(query_canceled_error()),
        ChangelogEvent::VersionChanged => Ok(true),
        ChangelogEvent::VersionsClosed => Ok(false),
    }
}

/// The position after the versions up to `version`.
pub open spec fn position_after(times: Seq<(i64, i64)>, version: i64) -> nat {
    let at = version_map::lower_bound(times, version);
    if at < times.len() && times[at as int].0 == version {
        at + 1
    } else {
        at
    }
}

/// The published versions above `last` and up to `latest`, in their order.
pub open spec fn versions_between(times: Seq<(i64, i64)>, last: i64, latest: i64) -> Seq<i64> {
    let from = position_after(times, last) as int;
    let to = position_after(times, latest) as int;
    if from <= to {
        Seq::new((to - from) as nat, |i: int| times[from + i].0)
    } else {
        Seq::empty()
    }
}

/// The versions that a changelog sends in its next steps, up to so many, while nothing new is
/// published.
pub open spec fn sent(
    cursor: ChangelogCursor,
    latest: i64,
    times: Seq<(i64, i64)>,
    steps: nat,
) -> Seq<i64>
    decreases steps,
{
    if steps == 0 {
        Seq::empty()
    } else {
        let (after, step) = next_step(cursor, Some(latest), times);
        match step {
            ChangelogStep::EmitDelta(version) => seq![version] + sent(
                after,
                latest,
                times,
                (steps - 1) as nat,
            ),
            ChangelogStep::Wait => Seq::empty(),
            _ => sent(after, latest, times, (steps - 1) as nat),
        }
    }
}

/// The position after the versions up to `version` separates them from the others.
proof fn lemma_position_after(times: Seq<(i64, i64)>, version: i64)
    requires
        version_map::ascending(times),
    ensures
        position_after(times, version) <= times.len(),
        forall|i: int|
            0 <= i < position_after(times, version) ==> (#[trigger] times[i]).0 <= version,
        forall|i: int|
            position_after(times, version) <= i < times.len() ==> (#[trigger] times[i]).0
                > version,
{
    version_map::lemma_lower_bound(times, version);
    let at = version_map::lower_bound(times, version) as int;
    assert forall|i: int| position_after(times, version) <= i < times.len() implies (
    #[trigger] times[i]).0 > version by {
        if at < i && at < times.len() {
            assert(times[at].0 < times[i].0);
        }
    }
}

/// A changelog sends every published version after the one that it sent last, up to the latest,
/// each once and in their order, however many it may send at a time.
pub proof fn law_every_version_is_sent_once(
    cursor: ChangelogCursor,
    latest: i64,
    times: Seq<(i64, i64)>,
    steps: nat,
)
    requires
        version_map::ascending(times),
        cursor.max_catchup_versions >= 1,
        cursor.round matches Some(round) ==> round.latest == latest,
        steps >= 2 * versions_between(times, cursor.last_emitted, latest).len(),
    ensures
        sent(cursor, latest, times, steps) == versions_between(times, cursor.last_emitted, latest),
    decreases steps,
{
    let last = cursor.last_emitted;
    let all = versions_between(times, last, latest);
    lemma_position_after(times, last);
    lemma_position_after(times, latest);
    let from = position_after(times, last) as int;
    let to = position_after(times, latest) as int;
    if steps > 0 {
        let (after, step) = next_step(cursor, Some(latest), times);
        let rest = (steps - 1) as nat;
        match step {
            ChangelogStep::EmitDelta(version) => {
                assert(version == times[from].0);
                assert(from < to);
                lemma_position_after(times, version);
                let next = position_after(times, version) as int;
                if next > from + 1 {
                    assert(times[from].0 < times[from + 1].0);
                }
                assert(next == from + 1);
                assert(all =~= seq![version] + versions_between(times, version, latest));
                law_every_version_is_sent_once(after, latest, times, rest);
            },
            ChangelogStep::Wait => {
                if from < to {
                    assert(times[from].0 > last && times[from].0 <= latest);
                }
                assert(all =~= Seq::<i64>::empty());
            },
            ChangelogStep::Yield => {
                if from < to {
                    let (later, following) = next_step(after, Some(latest), times);
                    assert(times[from].0 <= latest);
                    assert(following is EmitDelta);
                    lemma_sent_after_yield(after, latest, times, rest);
                } else {
                    assert(times[from].0 > latest);
                }
            },
            ChangelogStep::Again => {
                if from < to {
                    assert(times[from].0 <= latest);
                }
                assert(all =~= Seq::<i64>::empty());
                law_every_version_is_sent_once(after, latest, times, rest);
            },
        }
    } else {
        assert(all =~= Seq::<i64>::empty());
    }
}

/// Between two rounds, one step less suffices.
proof fn lemma_sent_after_yield(
    cursor: ChangelogCursor,
    latest: i64,
    times: Seq<(i64, i64)>,
    steps: nat,
)
    requires
        version_map::ascending(times),
        cursor.max_catchup_versions >= 1,
        cursor.round is None,
        steps + 1 >= 2 * versions_between(times, cursor.last_emitted, latest).len(),
        versions_between(times, cursor.last_emitted, latest).len() > 0,
    ensures
        sent(cursor, latest, times, steps) == versions_between(times, cursor.last_emitted, latest),
    decreases steps,
{
    let last = cursor.last_emitted;
    let all = versions_between(times, last, latest);
    lemma_position_after(times, last);
    lemma_position_after(times, latest);
    let from = position_after(times, last) as int;
    assert(times[from].0 > last && times[from].0 <= latest);
    let version = times[from].0;
    let (after, step) = next_step(cursor, Some(latest), times);
    assert(step == ChangelogStep::EmitDelta(version));
    lemma_position_after(times, version);
    let next = position_after(times, version) as int;
    if next > from + 1 {
        assert(times[from].0 < times[from + 1].0);
    }
    assert(next == from + 1);
    assert(all =~= seq![version] + versions_between(times, version, latest));
    law_every_version_is_sent_once(after, latest, times, (steps - 1) as nat);
}

/// A version that is sent is the first published one after the version that was sent last.
pub proof fn law_sent_versions_ascend(
    cursor: ChangelogCursor,
    latest: Option<i64>,
    times: Seq<(i64, i64)>,
)
    requires
        version_map::ascending(times),
    ensures
        next_step(cursor, latest, times).1 matches ChangelogStep::EmitDelta(version) ==> {
            &&& version > cursor.last_emitted
            &&& version_map::has_version(times, version)
            &&& forall|i: int|
                0 <= i < times.len() && cursor.last_emitted < (#[trigger] times[i]).0
                    ==> version <= times[i].0
            &&& next_step(cursor, latest, times).0.last_emitted == version
        },
{
    lemma_position_after(times, cursor.last_emitted);
    let from = position_after(times, cursor.last_emitted) as int;
    if next_step(cursor, latest, times).1 is EmitDelta {
        assert(times[from].0 > cursor.last_emitted);
        assert forall|i: int|
            0 <= i < times.len() && cursor.last_emitted < (
            #[trigger] times[i]).0 implies times[from].0 <= times[i].0 by {
            if from < i {
                assert(times[from].0 < times[i].0);
            }
        }
    }
}

/// What a view has published: its latest version, and each version with its time.
pub struct Published {
    pub latest: Option<i64>,
    pub times: Seq<(i64, i64)>,
}

/// The versions ascend, and the latest is the last of them.
pub open spec fn is_published(state: Published) -> bool {
    &&& version_map::ascending(state.times)
    &&& state.latest == if state.times.len() == 0 {
        None
    } else {
        Some(state.times.last().0)
    }
}

/// What was published stays, and what is published later comes after it.
pub open spec fn is_grown(before: Published, after: Published) -> bool {
    &&& is_published(before)
    &&& is_published(after)
    &&& before.times.len() <= after.times.len()
    &&& forall|i: int| 0 <= i < before.times.len() ==> before.times[i] == after.times[i]
}

/// Versions are only added from each of these states to the later ones.
pub open spec fn only_grows(states: Seq<Published>) -> bool {
    forall|i: int, j: int| 0 <= i <= j < states.len() ==> is_grown(states[i], states[j])
}

/// What a view has published, for its changelogs.
pub open spec fn published_by<B, C, P, W>(state: ViewState<B, C, P, W>) -> Published {
    Published { latest: state.latest, times: state.times }
}

/// A view that keeps all versions only grows when it publishes a version after its latest.
pub proof fn law_a_later_version_only_grows_the_view<B, C, P, W>(
    state: ViewState<B, C, P, W>,
    version: i64,
    now: i64,
)
    requires
        is_published(published_by(state)),
        state.latest matches Some(latest) ==> latest < version,
        state.keep_last is None,
    ensures
        is_grown(published_by(state), published_by(registry::published(state, version, now))),
        registry::published(state, version, now).latest == Some(version),
{
    let times = state.times;
    let after = registry::published(state, version, now).times;
    version_map::lemma_lower_bound(times, version);
    let at = version_map::lower_bound(times, version) as int;
    if at < times.len() && at < times.len() - 1 {
        assert(times[at].0 < times[times.len() - 1].0);
    }
    assert(at == times.len());
    version_map::law_insert(times, version, match state.watermark {
        Some(watermark) => registry::micros_of(watermark),
        None => now,
    });
    assert(after =~= registry::recorded(state, version, now).times);
    assert(after.last().0 == version);
}

/// A changelog after `n` steps, each of which sees what is published then, and the versions that
/// it sent.
pub open spec fn ran(cursor: ChangelogCursor, states: Seq<Published>, n: nat) -> (
    ChangelogCursor,
    Seq<i64>,
)
    decreases n,
{
    if n == 0 {
        (cursor, Seq::empty())
    } else {
        let (before, versions) = ran(cursor, states, (n - 1) as nat);
        let seen = states[n - 1];
        let (after, step) = next_step(before, seen.latest, seen.times);
        (
            after,
            match step {
                ChangelogStep::EmitDelta(version) => versions.push(version),
                _ => versions,
            },
        )
    }
}

/// A changelog starts at the version that is asked for, else at the latest, else before the first.
/// It starts with the rows of that version where they are asked for, and not at all where the
/// version is not published. The smallest version of all is only found where it is the latest.
pub proof fn law_changelog_starts_at_a_published_version(
    with_snapshot: bool,
    as_of: Option<i64>,
    seen: Published,
    max_catchup_versions: i64,
)
    requires
        is_published(seen),
        as_of == Some(i64::MIN) && version_map::has_version(seen.times, i64::MIN)
            ==> seen.latest == as_of,
    ensures
        match started(with_snapshot, as_of, seen.latest, seen.times, max_catchup_versions) {
            Ok((first, cursor)) => {
                &&& as_of matches Some(version) ==> version_map::has_version(seen.times, version)
                &&& cursor.last_emitted == match (as_of, seen.latest) {
                    (Some(version), _) => version,
                    (None, Some(version)) => version,
                    (None, None) => -1i64,
                }
                &&& cursor.round is None
                &&& cursor.max_catchup_versions == max_catchup_versions
                &&& first == if with_snapshot && (as_of is Some || seen.latest is Some) {
                    Some(cursor.last_emitted)
                } else {
                    None
                }
            },
            Err(error) => {
                &&& as_of is Some
                &&& !version_map::has_version(seen.times, as_of->0)
                &&& error == MvChangelogError::VersionNotFound(as_of->0)
            },
        },
{
    match as_of {
        Some(version) => {
            let before = version_before(version);
            lemma_position_after(seen.times, before);
            let at = position_after(seen.times, before) as int;
            if seen.latest == as_of {
                assert(seen.times[seen.times.len() - 1].0 == version);
            }
            if version_map::has_version(seen.times, version) && version > i64::MIN {
                let found = choose|i: int|
                    0 <= i < seen.times.len() && (#[trigger] seen.times[i]).0 == version;
                assert(at <= found);
                if at < found {
                    assert(seen.times[at].0 < seen.times[found].0);
                }
            }
        },
        None => {},
    }
}

/// What lies between two published versions stays when later versions are published.
proof fn lemma_between_in_grown(before: Published, after: Published, start: i64, reached: i64)
    requires
        is_grown(before, after),
        start <= reached,
        start < reached ==> version_map::has_version(before.times, reached),
    ensures
        versions_between(after.times, start, reached) == versions_between(
            before.times,
            start,
            reached,
        ),
{
    lemma_position_after(before.times, start);
    lemma_position_after(before.times, reached);
    lemma_position_after(after.times, start);
    lemma_position_after(after.times, reached);
    let old_from = position_after(before.times, start) as int;
    let old_to = position_after(before.times, reached) as int;
    let new_from = position_after(after.times, start) as int;
    let new_to = position_after(after.times, reached) as int;
    if start == reached {
        assert(versions_between(after.times, start, reached) =~= Seq::<i64>::empty());
        assert(versions_between(before.times, start, reached) =~= Seq::<i64>::empty());
    } else {
        let at = choose|i: int|
            0 <= i < before.times.len() && (#[trigger] before.times[i]).0 == reached;
        assert(after.times[at] == before.times[at]);
        assert(old_from <= at && new_from <= at);
        assert(at < old_to && at < new_to);
        if old_from < new_from {
            assert(after.times[old_from] == before.times[old_from]);
        }
        if new_from < old_from {
            assert(after.times[new_from] == before.times[new_from]);
        }
        if at + 1 < old_to {
            assert(before.times[at].0 < before.times[at + 1].0);
        }
        if at + 1 < new_to {
            assert(after.times[at].0 < after.times[at + 1].0);
        }
        assert(versions_between(after.times, start, reached) =~= versions_between(
            before.times,
            start,
            reached,
        ));
    }
}

/// While versions are only added, a changelog sends the published versions after the one it
/// started at in their order, none twice and none left out up to where it is; and when it waits,
/// it has sent all of them.
pub proof fn law_growing_view_is_sent_in_order(
    cursor: ChangelogCursor,
    states: Seq<Published>,
    n: nat,
)
    requires
        only_grows(states),
        0 < n <= states.len(),
    ensures
        ran(cursor, states, n).0.last_emitted >= cursor.last_emitted,
        ran(cursor, states, n).0.last_emitted > cursor.last_emitted ==> version_map::has_version(
            states[n - 1].times,
            ran(cursor, states, n).0.last_emitted,
        ),
        ran(cursor, states, n).1 == versions_between(
            states[n - 1].times,
            cursor.last_emitted,
            ran(cursor, states, n).0.last_emitted,
        ),
        next_step(
            ran(cursor, states, (n - 1) as nat).0,
            states[n - 1].latest,
            states[n - 1].times,
        ).1 is Wait ==> ran(cursor, states, n).1 == versions_between(
            states[n - 1].times,
            cursor.last_emitted,
            i64::MAX,
        ),
    decreases n,
{
    let (before, versions) = ran(cursor, states, (n - 1) as nat);
    let seen = states[n - 1];
    let start = cursor.last_emitted;
    let reached = before.last_emitted;
    let (after, step) = next_step(before, seen.latest, seen.times);
    assert(is_grown(seen, seen));
    if n > 1 {
        law_growing_view_is_sent_in_order(cursor, states, (n - 1) as nat);
        let earlier = states[n - 2];
        assert(is_grown(earlier, seen));
        lemma_between_in_grown(earlier, seen, start, reached);
        if reached > start {
            let at = choose|i: int|
                0 <= i < earlier.times.len() && (#[trigger] earlier.times[i]).0 == reached;
            assert(seen.times[at].0 == reached);
        }
    } else {
        assert(versions =~= versions_between(seen.times, start, reached));
    }
    lemma_position_after(seen.times, start);
    lemma_position_after(seen.times, reached);
    let from = position_after(seen.times, start) as int;
    let to = position_after(seen.times, reached) as int;
    if to < from {
        assert(seen.times[to].0 > reached);
    }
    match step {
        ChangelogStep::EmitDelta(version) => {
            assert(version == seen.times[to].0);
            lemma_position_after(seen.times, version);
            let next = position_after(seen.times, version) as int;
            if next > to + 1 {
                assert(seen.times[to].0 < seen.times[to + 1].0);
            }
            assert(next == to + 1);
            assert(versions.push(version) =~= versions_between(seen.times, start, version));
        },
        ChangelogStep::Wait => {
            lemma_position_after(seen.times, i64::MAX);
            if to < seen.times.len() {
                assert(seen.times[to].0 > reached);
                if to < seen.times.len() - 1 {
                    assert(seen.times[to].0 < seen.times[seen.times.len() - 1].0);
                }
            }
            assert(position_after(seen.times, i64::MAX) == seen.times.len());
        },
        _ => {},
    }
}

/// A changelog that neither sends nor waits does one of both in its next step.
pub proof fn law_changelog_goes_on(cursor: ChangelogCursor, now: Published, later: Published)
    requires
        cursor.max_catchup_versions >= 1,
        is_grown(now, later),
    ensures
        ({
            let (after, step) = next_step(cursor, now.latest, now.times);
            let following = next_step(after, later.latest, later.times).1;
            step is EmitDelta || step is Wait || following is EmitDelta || following is Wait
        }),
{
    let (after, step) = next_step(cursor, now.latest, now.times);
    lemma_position_after(later.times, after.last_emitted);
    let at = position_after(later.times, after.last_emitted) as int;
    let count = later.times.len() as int;
    if count > 0 && later.times[count - 1].0 > after.last_emitted {
        assert(at < count);
        if at < count - 1 {
            assert(later.times[at].0 < later.times[count - 1].0);
        }
    }
}

/// A batch whose columns have one length, one for each field, with integers in integer columns.
pub open spec fn well_formed(batch: ColumnBatch) -> bool {
    &&& batch.columns@.len() == batch.schema@.len()
    &&& forall|i: int|
        0 <= i < batch.columns@.len() ==> (#[trigger] batch.columns@[i]).cells@.len() == batch.rows
            && well_typed(batch.columns@[i])
}

/// A column of integers holds integers and nulls only.
pub open spec fn well_typed(column: Column) -> bool {
    column.data_type is Int64 ==> forall|i: int|
        0 <= i < column.cells@.len() ==> (#[trigger] column.cells@[i]) is Null
            || column.cells@[i] is Int64
}

/// All rows of a batch, each once.
pub open spec fn is_snapshot_of(
    out: MvChangelogBatch,
    batch: ColumnBatch,
    version: i64,
    version_time: Option<i64>,
) -> bool {
    &&& out.version == version
    &&& out.version_time == version_time
    &&& out.kind is Snapshot
    &&& out.batch == batch
    &&& out.diffs@ == Seq::new(batch.rows as nat, |i: int| 1i64)
}

/// A batch without rows, with the schema of the view.
pub open spec fn is_empty_of(
    out: MvChangelogBatch,
    kind: MvChangelogBatchKind,
    schema: Seq<Field>,
    version: i64,
    version_time: Option<i64>,
) -> bool {
    &&& out.version == version
    &&& out.version_time == version_time
    &&& out.kind == kind
    &&& out.batch.schema@ == schema
    &&& out.batch.rows == 0
    &&& out.batch.columns@.len() == schema.len()
    &&& forall|i: int|
        0 <= i < schema.len() ==> (#[trigger] out.batch.columns@[i]).data_type
            == schema[i].data_type && out.batch.columns@[i].cells@.len() == 0
    &&& out.diffs@.len() == 0
}

/// Whether this is the changelog of all rows of a version, which is stored in these batches: a
/// version without batches gives one without rows, and a batch of another schema gives an error.
pub open spec fn is_snapshot_changelog(
    changelog: Result<Vec<MvChangelogBatch>, MvChangelogError>,
    snapshot: Seq<ColumnBatch>,
    schema: Seq<Field>,
    version: i64,
    version_time: Option<i64>,
) -> bool {
    match changelog {
        Ok(out) => {
            &&& forall|i: int|
                0 <= i < snapshot.len() ==> columns::same_schema(
                    (#[trigger] snapshot[i]).schema@,
                    schema,
                )
            &&& if snapshot.len() == 0 {
                out@.len() == 1 && is_empty_of(
                    out@[0],
                    MvChangelogBatchKind::Snapshot,
                    schema,
                    version,
                    version_time,
                )
            } else {
                out@.len() == snapshot.len() && forall|i: int|
                    0 <= i < snapshot.len() ==> is_snapshot_of(
                        #[trigger] out@[i],
                        snapshot[i],
                        version,
                        version_time,
                    )
            }
        },
        Err(error) => {
            &&& error is SnapshotSchemaMismatch
            &&& exists|i: int|
                0 <= i < snapshot.len() && !columns::same_schema(
                    (#[trigger] snapshot[i]).schema@,
                    schema,
                )
        },
    }
}

/// The batches of a version as its changelog; a version without batches gives one without rows.
pub fn snapshot_batches_to_changelog(
    snapshot: Vec<ColumnBatch>,
    schema: &Vec<Field>,
    version: i64,
    version_time: Option<i64>,
) -> (changelog: Result<Vec<MvChangelogBatch>, MvChangelogError>)
    ensures
        is_snapshot_changelog(changelog, snapshot@, schema@, version, version_time),
{
    let mut out: Vec<MvChangelogBatch> = Vec::new();
    let ghost given = snapshot@;
    for batch in it: snapshot
        invariant
            it.seq() == given,
            out@.len() == it.index(),
            forall|i: int|
                0 <= i < it.index() ==> columns::same_schema(
                    (#[trigger] given[i]).schema@,
                    schema@,
                ),
            forall|i: int|
                0 <= i < it.index() ==> is_snapshot_of(
                    #[trigger] out@[i],
                    given[i],
                    version,
                    version_time,
                ),
    {
        let ghost at = it.index();
        assert(batch == given[at as int]);
        if !schemas_same(&batch.schema, schema) {
            assert(!columns::same_schema(given[at as int].schema@, schema@));
            return Err(MvChangelogError::SnapshotSchemaMismatch);
        }
        let rows: usize = batch.rows;
        let mut diffs: Vec<i64> = Vec::new();
        let mut k: usize = 0;
        while k < rows
            invariant
                k <= rows,
                diffs@ == Seq::new(k as nat, |i: int| 1i64),
            decreases rows - k,
        {
            diffs.push(1);
            assert(diffs@ =~= Seq::new((k + 1) as nat, |i: int| 1i64));
            k = k + 1;
        }
        out.push(
            MvChangelogBatch {
                version,
                version_time,
                kind: MvChangelogBatchKind::Snapshot,
                batch,
                diffs,
            },
        );
    }
    if out.len() == 0 {
        out.push(
            MvChangelogBatch {
                version,
                version_time,
                kind: MvChangelogBatchKind::Snapshot,
                batch: ColumnBatch::new_empty(clone_schema(schema)),
                diffs: Vec::new(),
            },
        );
    }
    Ok(out)
}

/// The integers of a column.
pub open spec fn weights_of(column: Column) -> Seq<i64> {
    Seq::new(column.cells@.len(), |i: int| column.cells@[i]->Int64_0)
}

/// What keeps a batch of changes out of a changelog.
pub open spec fn delta_fault(
    batch: ColumnBatch,
    schema: Seq<Field>,
    weight: Seq<char>,
) -> Option<MvChangelogError> {
    match columns::field_index(batch.schema@, weight) {
        None => Some(MvChangelogError::WeightMissing),
        Some(at) => {
            let column = batch.columns@[at as int];
            if !(column.data_type is Int64) {
                Some(MvChangelogError::WeightNotInt64)
            } else if columns::has_null(column) {
                Some(MvChangelogError::WeightNull)
            } else {
                match columns::batch_fault(schema, batch.columns@.remove(at as int)) {
                    Some(fault) => Some(MvChangelogError::Batch(fault)),
                    None => None,
                }
            }
        },
    }
}

/// What a batch of changes gives: its columns without the weights, and the weights.
pub open spec fn is_delta_of(
    out: MvChangelogBatch,
    batch: ColumnBatch,
    schema: Seq<Field>,
    weight: Seq<char>,
    version: i64,
    version_time: Option<i64>,
) -> bool {
    let at = columns::field_index(batch.schema@, weight)->0 as int;
    &&& out.version == version
    &&& out.version_time == version_time
    &&& out.kind is Delta
    &&& out.batch.schema@ == schema
    &&& out.batch.columns@ == batch.columns@.remove(at)
    &&& out.batch.rows == batch.rows
    &&& out.diffs@ == weights_of(batch.columns@[at])
}

/// The batches with rows among the first `n`.
pub open spec fn batches_with_rows(delta: Seq<ColumnBatch>, n: nat) -> Seq<ColumnBatch>
    decreases n,
{
    if n == 0 {
        Seq::empty()
    } else {
        let front = batches_with_rows(delta, (n - 1) as nat);
        if delta[n - 1].rows == 0 {
            front
        } else {
            front.push(delta[n - 1])
        }
    }
}

/// The first fault among the first `n` batches with rows.
pub open spec fn first_delta_fault(
    delta: Seq<ColumnBatch>,
    schema: Seq<Field>,
    weight: Seq<char>,
    n: nat,
) -> Option<MvChangelogError>
    decreases n,
{
    if n == 0 {
        None
    } else {
        match first_delta_fault(delta, schema, weight, (n - 1) as nat) {
            Some(fault) => Some(fault),
            None => if delta[n - 1].rows == 0 {
                None
            } else {
                delta_fault(delta[n - 1], schema, weight)
            },
        }
    }
}

/// A fault among fewer batches is the first among more.
proof fn lemma_delta_fault_stays(
    delta: Seq<ColumnBatch>,
    schema: Seq<Field>,
    weight: Seq<char>,
    n: nat,
    m: nat,
)
    requires
        n <= m,
        first_delta_fault(delta, schema, weight, n) is Some,
    ensures
        first_delta_fault(delta, schema, weight, m) == first_delta_fault(
            delta,
            schema,
            weight,
            n,
        ),
    decreases m,
{
    if n < m {
        lemma_delta_fault_stays(delta, schema, weight, n, (m - 1) as nat);
    }
}

/// The integers of a column without nulls.
fn integers_of(column: &Column) -> (weights: Option<Vec<i64>>)
    requires
        column.data_type is Int64,
        well_typed(*column),
    ensures
        match weights {
            Some(found) => !columns::has_null(*column) && found@ == weights_of(*column),
            None => columns::has_null(*column),
        },
{
    let mut weights: Vec<i64> = Vec::new();
    let mut i: usize = 0;
    while i < column.cells.len()
        invariant
            i <= column.cells@.len(),
            column.data_type is Int64,
            well_typed(*column),
            weights@.len() == i,
            forall|j: int|
                0 <= j < i ==> (#[trigger] column.cells@[j]) is Int64
                    && weights@[j] == column.cells@[j]->Int64_0,
        decreases column.cells@.len() - i,
    {
        match &column.cells[i] {
            Cell::Int64(weight) => {
                weights.push(*weight);
            },
            _ => {
                assert(column.cells@[i as int] is Null);
                return None;
            },
        }
        i = i + 1;
    }
    assert(weights@ =~= weights_of(*column));
    Some(weights)
}

/// One batch of changes as its changelog.
fn delta_batch_to_changelog(
    batch: ColumnBatch,
    schema: &Vec<Field>,
    weight_column: &str,
    version: i64,
    version_time: Option<i64>,
) -> (changelog: Result<MvChangelogBatch, MvChangelogError>)
    requires
        well_formed(batch),
    ensures
        match changelog {
            Ok(out) => delta_fault(batch, schema@, weight_column@) is None && is_delta_of(
                out,
                batch,
                schema@,
                weight_column@,
                version,
                version_time,
            ),
            Err(error) => delta_fault(batch, schema@, weight_column@) == Some(error),
        },
{
    let at: usize = match index_of(&batch.schema, weight_column) {
        Some(at) => at,
        None => {
            return Err(MvChangelogError::WeightMissing);
        },
    };
    assert(batch.columns@[at as int].cells@.len() == batch.rows);
    match &batch.columns[at].data_type {
        DataType::Int64 => {},
        _ => {
            return Err(MvChangelogError::WeightNotInt64);
        },
    }
    let diffs = match integers_of(&batch.columns[at]) {
        Some(diffs) => diffs,
        None => {
            return Err(MvChangelogError::WeightNull);
        },
    };
    let ghost before = batch.columns@;
    let rows: usize = batch.rows;
    let mut kept = batch.columns;
    kept.remove(at);
    proof {
        if kept@.len() > 0 {
            assert(kept@[0] == before[if at == 0 {
                1
            } else {
                0
            }]);
        }
    }
    match ColumnBatch::try_new(clone_schema(schema), kept) {
        Ok(projected) => Ok(
            MvChangelogBatch {
                version,
                version_time,
                kind: MvChangelogBatchKind::Delta,
                batch: projected,
                diffs,
            },
        ),
        Err(fault) => Err(MvChangelogError::Batch(fault)),
    }
}

/// Whether this is the changelog of what a version changed, which is stored in these batches: the
/// batches with rows, with the weights out of the columns; a version without changes gives one
/// batch without rows.
pub open spec fn is_delta_changelog(
    changelog: Result<Vec<MvChangelogBatch>, MvChangelogError>,
    delta: Seq<ColumnBatch>,
    schema: Seq<Field>,
    weight: Seq<char>,
    version: i64,
    version_time: Option<i64>,
) -> bool {
    match changelog {
        Ok(out) => {
            let kept = batches_with_rows(delta, delta.len());
            &&& first_delta_fault(delta, schema, weight, delta.len()) is None
            &&& if kept.len() == 0 {
                out@.len() == 1 && is_empty_of(
                    out@[0],
                    MvChangelogBatchKind::Delta,
                    schema,
                    version,
                    version_time,
                )
            } else {
                out@.len() == kept.len() && forall|i: int|
                    0 <= i < kept.len() ==> is_delta_of(
                        #[trigger] out@[i],
                        kept[i],
                        schema,
                        weight,
                        version,
                        version_time,
                    )
            }
        },
        Err(error) => first_delta_fault(delta, schema, weight, delta.len()) == Some(
            error,
        ),
    }
}

/// The batches of changes of a version as its changelog: those with rows, with the weights out
/// of the columns; a version without changes gives one batch without rows.
pub fn arrow_delta_batches_to_changelog(
    delta: Vec<ColumnBatch>,
    schema: &Vec<Field>,
    weight_column: &str,
    version: i64,
    version_time: Option<i64>,
) -> (changelog: Result<Vec<MvChangelogBatch>, MvChangelogError>)
    requires
        forall|i: int| 0 <= i < delta@.len() ==> well_formed(#[trigger] delta@[i]),
    ensures
        is_delta_changelog(
            changelog,
            delta@,
            schema@,
            weight_column@,
            version,
            version_time,
        ),
{
    let mut out: Vec<MvChangelogBatch> = Vec::new();
    let ghost given = delta@;
    for batch in it: delta
        invariant
            it.seq() == given,
            forall|i: int| 0 <= i < given.len() ==> well_formed(#[trigger] given[i]),
            first_delta_fault(given, schema@, weight_column@, it.index() as nat) is None,
            out@.len() == batches_with_rows(given, it.index() as nat).len(),
            forall|i: int|
                0 <= i < out@.len() ==> is_delta_of(
                    #[trigger] out@[i],
                    batches_with_rows(given, it.index() as nat)[i],
                    schema@,
                    weight_column@,
                    version,
                    version_time,
                ),
    {
        let ghost at = it.index() as nat;
        assert(batch == given[at as int]);
        if batch.rows != 0 {
            match delta_batch_to_changelog(batch, schema, weight_column, version, version_time) {
                Ok(changes) => {
                    out.push(changes);
                },
                Err(error) => {
                    proof {
                        lemma_delta_fault_stays(
                            given,
                            schema@,
                            weight_column@,
                            at + 1,
                            given.len(),
                        );
                    }
                    return Err(error);
                },
            }
        }
    }
    if out.len() == 0 {
        out.push(
            MvChangelogBatch {
                version,
                version_time,
                kind: MvChangelogBatchKind::Delta,
                batch: ColumnBatch::new_empty(clone_schema(schema)),
                diffs: Vec::new(),
            },
        );
    }
    Ok(out)
}

/// The batches that a changelog is made of: those that were published with the version, else
/// those that were read from the storage.
pub open spec fn chosen_batches(
    published: Option<Vec<ColumnBatch>>,
    stored: Option<Vec<ColumnBatch>>,
) -> Option<Vec<ColumnBatch>> {
    match published {
        Some(batches) => Some(batches),
        None => stored,
    }
}

/// A changelog, or nothing where the rows are still to be read from the storage.
pub open spec fn made_changelog(
    changelog: Result<Option<Vec<MvChangelogBatch>>, MvChangelogError>,
) -> Option<Result<Vec<MvChangelogBatch>, MvChangelogError>> {
    match changelog {
        Ok(Some(out)) => Some(Ok(out)),
        Ok(None) => None,
        Err(error) => Some(Err(error)),
    }
}

/// The changelog of all rows of a version, from the batches that were published with it, else
/// from those that were read from the storage; nothing while neither is at hand.
pub fn materialize_snapshot_batches(
    published: Option<Vec<ColumnBatch>>,
    stored: Option<Vec<ColumnBatch>>,
    schema: &Vec<Field>,
    version: i64,
    version_time: Option<i64>,
) -> (changelog: Result<Option<Vec<MvChangelogBatch>>, MvChangelogError>)
    ensures
        match (chosen_batches(published, stored), made_changelog(changelog)) {
            (Some(batches), Some(made)) => is_snapshot_changelog(
                made,
                batches@,
                schema@,
                version,
                version_time,
            ),
            (None, None) => true,
            _ => false,
        },
{
    let chosen: Option<Vec<ColumnBatch>> = match published {
        Some(batches) => Some(batches),
        None => stored,
    };
    match chosen {
        Some(batches) => match snapshot_batches_to_changelog(
            batches,
            schema,
            version,
            version_time,
        ) {
            Ok(out) => Ok(Some(out)),
            Err(error) => Err(error),
        },
        None => Ok(None),
    }
}

/// The changelog of what a version changed, from the batches that were published with it, else
/// from those that were read from the storage; nothing while neither is at hand.
pub fn materialize_delta_batches(
    published: Option<Vec<ColumnBatch>>,
    stored: Option<Vec<ColumnBatch>>,
    schema: &Vec<Field>,
    weight_column: &str,
    version: i64,
    version_time: Option<i64>,
) -> (changelog: Result<Option<Vec<MvChangelogBatch>>, MvChangelogError>)
    requires
        chosen_batches(published, stored) matches Some(batches) ==> forall|i: int|
            0 <= i < batches@.len() ==> well_formed(#[trigger] batches@[i]),
    ensures
        match (chosen_batches(published, stored), made_changelog(changelog)) {
            (Some(batches), Some(made)) => is_delta_changelog(
                made,
                batches@,
                schema@,
                weight_column@,
                version,
                version_time,
            ),
            (None, None) => true,
            _ => false,
        },
{
    let chosen: Option<Vec<ColumnBatch>> = match published {
        Some(batches) => Some(batches),
        None => stored,
    };
    match chosen {
        Some(batches) => match arrow_delta_batches_to_changelog(
            batches,
            schema,
            weight_column,
            version,
            version_time,
        ) {
            Ok(out) => Ok(Some(out)),
            Err(error) => Err(error),
        },
        None => Ok(None),
    }
}

/// A row of columns.
pub open spec fn row_at(columns: Seq<Column>, i: int) -> Seq<CellView> {
    Seq::new(columns.len(), |c: int| columns[c].cells@[i]@)
}

/// By how much the first `n` rows of columns change the multiplicity of a row.
pub open spec fn row_weight(
    columns: Seq<Column>,
    diffs: Seq<i64>,
    row: Seq<CellView>,
    n: nat,
) -> int
    decreases n,
{
    if n == 0 {
        0
    } else {
        row_weight(columns, diffs, row, (n - 1) as nat) + if row_at(columns, n - 1) == row {
            diffs[n - 1] as int
        } else {
            0
        }
    }
}

/// How often a row occurs in the first `n` batches.
pub open spec fn row_count(snapshot: Seq<ColumnBatch>, row: Seq<CellView>, n: nat) -> int
    decreases n,
{
    if n == 0 {
        0
    } else {
        let batch = snapshot[n - 1];
        row_count(snapshot, row, (n - 1) as nat) + row_weight(
            batch.columns@,
            Seq::new(batch.rows as nat, |i: int| 1i64),
            row,
            batch.rows as nat,
        )
    }
}

/// By how much the first `n` batches of changes change the multiplicity of a row.
pub open spec fn row_change(
    delta: Seq<ColumnBatch>,
    weight: Seq<char>,
    row: Seq<CellView>,
    n: nat,
) -> int
    decreases n,
{
    if n == 0 {
        0
    } else {
        let batch = delta[n - 1];
        let at = columns::field_index(batch.schema@, weight)->0 as int;
        row_change(delta, weight, row, (n - 1) as nat) + row_weight(
            batch.columns@.remove(at),
            weights_of(batch.columns@[at]),
            row,
            batch.rows as nat,
        )
    }
}

/// By how much the first `n` batches of a changelog change the multiplicity of a row.
pub open spec fn sent_weight(out: Seq<MvChangelogBatch>, row: Seq<CellView>, n: nat) -> int
    decreases n,
{
    if n == 0 {
        0
    } else {
        let batch = out[n - 1];
        sent_weight(out, row, (n - 1) as nat) + row_weight(
            batch.batch.columns@,
            batch.diffs@,
            row,
            batch.batch.rows as nat,
        )
    }
}

/// By how much the changelogs of the first `n` versions change the multiplicity of a row.
pub open spec fn all_sent_weight(
    changes: Seq<Vec<MvChangelogBatch>>,
    row: Seq<CellView>,
    n: nat,
) -> int
    decreases n,
{
    if n == 0 {
        0
    } else {
        all_sent_weight(changes, row, (n - 1) as nat) + sent_weight(
            changes[n - 1]@,
            row,
            changes[n - 1]@.len(),
        )
    }
}

/// The changelog of all rows of a version holds each row as often as the version does.
pub proof fn law_snapshot_changelog_weighs_as_the_version(
    out: Vec<MvChangelogBatch>,
    snapshot: Seq<ColumnBatch>,
    schema: Seq<Field>,
    version: i64,
    version_time: Option<i64>,
    row: Seq<CellView>,
)
    requires
        is_snapshot_changelog(Ok(out), snapshot, schema, version, version_time),
    ensures
        sent_weight(out@, row, out@.len()) == row_count(snapshot, row, snapshot.len()),
{
    if snapshot.len() == 0 {
        assert(sent_weight(out@, row, 0) == 0);
        assert(row_weight(out@[0].batch.columns@, out@[0].diffs@, row, 0) == 0);
    } else {
        lemma_snapshot_weight(out@, snapshot, version, version_time, row, snapshot.len());
    }
}

/// The first `n` batches of a changelog of all rows weigh as those of the version.
proof fn lemma_snapshot_weight(
    out: Seq<MvChangelogBatch>,
    snapshot: Seq<ColumnBatch>,
    version: i64,
    version_time: Option<i64>,
    row: Seq<CellView>,
    n: nat,
)
    requires
        n <= snapshot.len(),
        forall|i: int|
            0 <= i < snapshot.len() ==> is_snapshot_of(
                #[trigger] out[i],
                snapshot[i],
                version,
                version_time,
            ),
    ensures
        sent_weight(out, row, n) == row_count(snapshot, row, n),
    decreases n,
{
    if n > 0 {
        lemma_snapshot_weight(out, snapshot, version, version_time, row, (n - 1) as nat);
        assert(is_snapshot_of(out[n - 1], snapshot[n - 1], version, version_time));
    }
}

/// The changelog of what a version changed changes the multiplicity of each row as the version
/// does.
pub proof fn law_delta_changelog_weighs_as_the_version(
    out: Vec<MvChangelogBatch>,
    delta: Seq<ColumnBatch>,
    schema: Seq<Field>,
    weight: Seq<char>,
    version: i64,
    version_time: Option<i64>,
    row: Seq<CellView>,
)
    requires
        is_delta_changelog(Ok(out), delta, schema, weight, version, version_time),
    ensures
        sent_weight(out@, row, out@.len()) == row_change(delta, weight, row, delta.len()),
{
    let kept = batches_with_rows(delta, delta.len());
    lemma_delta_weight(out@, delta, schema, weight, version, version_time, row, delta.len());
    if kept.len() == 0 {
        assert(sent_weight(out@, row, 0) == 0);
        assert(row_weight(out@[0].batch.columns@, out@[0].diffs@, row, 0) == 0);
    }
}

/// What the first `n` batches of changes give weighs as they do.
proof fn lemma_delta_weight(
    out: Seq<MvChangelogBatch>,
    delta: Seq<ColumnBatch>,
    schema: Seq<Field>,
    weight: Seq<char>,
    version: i64,
    version_time: Option<i64>,
    row: Seq<CellView>,
    n: nat,
)
    requires
        forall|i: int|
            0 <= i < batches_with_rows(delta, n).len() ==> is_delta_of(
                #[trigger] out[i],
                batches_with_rows(delta, n)[i],
                schema,
                weight,
                version,
                version_time,
            ),
    ensures
        sent_weight(out, row, batches_with_rows(delta, n).len()) == row_change(
            delta,
            weight,
            row,
            n,
        ),
    decreases n,
{
    if n > 0 {
        let front = batches_with_rows(delta, (n - 1) as nat);
        let kept = batches_with_rows(delta, n);
        assert forall|i: int| 0 <= i < front.len() implies is_delta_of(
            #[trigger] out[i],
            front[i],
            schema,
            weight,
            version,
            version_time,
        ) by {
            assert(kept[i] == front[i]);
        }
        lemma_delta_weight(
            out,
            delta,
            schema,
            weight,
            version,
            version_time,
            row,
            (n - 1) as nat,
        );
        if delta[n - 1].rows != 0 {
            assert(is_delta_of(
                out[front.len() as int],
                kept[front.len() as int],
                schema,
                weight,
                version,
                version_time,
            ));
        }
    }
}

/// The stored rows of each published version are those of the version before it with its changes.
pub open spec fn versions_follow(
    times: Seq<(i64, i64)>,
    snapshots: spec_fn(i64) -> Seq<ColumnBatch>,
    deltas: spec_fn(i64) -> Seq<ColumnBatch>,
    weight: Seq<char>,
) -> bool {
    forall|i: int, row: Seq<CellView>|
        0 < i < times.len() ==> #[trigger] row_count(
            snapshots(times[i].0),
            row,
            snapshots(times[i].0).len(),
        ) == row_count(
            snapshots(times[i - 1].0),
            row,
            snapshots(times[i - 1].0).len(),
        ) + row_change(deltas(times[i].0), weight, row, deltas(times[i].0).len())
}

/// The rows of a published version and the changes of the versions after it, as changelogs, sum
/// to the rows of the latest of these versions.
pub proof fn law_snapshot_and_deltas_sum_to_the_latest(
    times: Seq<(i64, i64)>,
    start: i64,
    latest: i64,
    snapshots: spec_fn(i64) -> Seq<ColumnBatch>,
    deltas: spec_fn(i64) -> Seq<ColumnBatch>,
    schema: Seq<Field>,
    weight: Seq<char>,
    first: Vec<MvChangelogBatch>,
    changes: Seq<Vec<MvChangelogBatch>>,
    row: Seq<CellView>,
)
    requires
        version_map::ascending(times),
        version_map::has_version(times, start),
        version_map::has_version(times, latest),
        start <= latest,
        versions_follow(times, snapshots, deltas, weight),
        is_snapshot_changelog(
            Ok(first),
            snapshots(start),
            schema,
            start,
            version_map::lookup(times, start),
        ),
        changes.len() == versions_between(times, start, latest).len(),
        forall|i: int|
            0 <= i < changes.len() ==> is_delta_changelog(
                Ok(#[trigger] changes[i]),
                deltas(versions_between(times, start, latest)[i]),
                schema,
                weight,
                versions_between(times, start, latest)[i],
                version_map::lookup(times, versions_between(times, start, latest)[i]),
            ),
    ensures
        sent_weight(first@, row, first@.len()) + all_sent_weight(changes, row, changes.len())
            == row_count(snapshots(latest), row, snapshots(latest).len()),
{
    let versions = versions_between(times, start, latest);
    lemma_position_after(times, start);
    lemma_position_after(times, latest);
    let from = position_after(times, start) as int;
    let to = position_after(times, latest) as int;
    let at = choose|i: int| 0 <= i < times.len() && (#[trigger] times[i]).0 == start;
    let end = choose|i: int| 0 <= i < times.len() && (#[trigger] times[i]).0 == latest;
    assert(at < from && end < to);
    if at + 1 < from {
        assert(times[at].0 < times[at + 1].0);
    }
    if end + 1 < to {
        assert(times[end].0 < times[end + 1].0);
    }
    if end < at {
        assert(times[end].0 < times[at].0);
    }
    assert(versions.len() == end - at);
    lemma_sent_so_far(
        times,
        at,
        snapshots,
        deltas,
        schema,
        weight,
        first,
        changes,
        versions,
        row,
        changes.len(),
    );
}

/// The rows of a version and the changes of the next `n` sum to the rows of the last of these.
proof fn lemma_sent_so_far(
    times: Seq<(i64, i64)>,
    at: int,
    snapshots: spec_fn(i64) -> Seq<ColumnBatch>,
    deltas: spec_fn(i64) -> Seq<ColumnBatch>,
    schema: Seq<Field>,
    weight: Seq<char>,
    first: Vec<MvChangelogBatch>,
    changes: Seq<Vec<MvChangelogBatch>>,
    versions: Seq<i64>,
    row: Seq<CellView>,
    n: nat,
)
    requires
        0 <= at,
        at + changes.len() < times.len(),
        n <= changes.len() == versions.len(),
        forall|i: int| 0 <= i < versions.len() ==> versions[i] == times[at + 1 + i].0,
        versions_follow(times, snapshots, deltas, weight),
        is_snapshot_changelog(
            Ok(first),
            snapshots(times[at].0),
            schema,
            times[at].0,
            version_map::lookup(times, times[at].0),
        ),
        forall|i: int|
            0 <= i < changes.len() ==> is_delta_changelog(
                Ok(#[trigger] changes[i]),
                deltas(versions[i]),
                schema,
                weight,
                versions[i],
                version_map::lookup(times, versions[i]),
            ),
    ensures
        sent_weight(first@, row, first@.len()) + all_sent_weight(changes, row, n) == row_count(
            snapshots(times[at + n].0),
            row,
            snapshots(times[at + n].0).len(),
        ),
    decreases n,
{
    if n == 0 {
        law_snapshot_changelog_weighs_as_the_version(
            first,
            snapshots(times[at].0),
            schema,
            times[at].0,
            version_map::lookup(times, times[at].0),
            row,
        );
    } else {
        lemma_sent_so_far(
            times,
            at,
            snapshots,
            deltas,
            schema,
            weight,
            first,
            changes,
            versions,
            row,
            (n - 1) as nat,
        );
        assert(versions[n - 1] == times[at + n].0);
        law_delta_changelog_weighs_as_the_version(
            changes[n - 1],
            deltas(versions[n - 1]),
            schema,
            weight,
            versions[n - 1],
            version_map::lookup(times, versions[n - 1]),
            row,
        );
        assert(row_count(
            snapshots(times[at + n].0),
            row,
            snapshots(times[at + n].0).len(),
        ) == row_count(
            snapshots(times[at + n - 1].0),
            row,
            snapshots(times[at + n - 1].0).len(),
        ) + row_change(deltas(times[at + n].0), weight, row, deltas(times[at + n].0).len()));
    }
}

/// Changes are told by a column of weights, which every batch with rows has: integers, and none of
/// them null. What is wrong with it is told.
pub proof fn law_faults_of_weights(batch: ColumnBatch, schema: Seq<Field>, weight: Seq<char>)
    ensures
        delta_fault(batch, schema, weight) == Some(MvChangelogError::WeightMissing) <==> forall|
            i: int,
        |
            0 <= i < batch.schema@.len() ==> (#[trigger] batch.schema@[i]).name@ != weight,
        delta_fault(batch, schema, weight) is None ==> exists|at: int|
            {
                &&& 0 <= at < batch.schema@.len()
                &&& (#[trigger] batch.schema@[at]).name@ == weight
                &&& batch.columns@[at].data_type is Int64
                &&& forall|i: int|
                    0 <= i < batch.columns@[at].cells@.len() ==> !((
                    #[trigger] batch.columns@[at].cells@[i]) is Null)
            },
{
    columns::law_first_field_of_a_name(batch.schema@, weight);
    if delta_fault(batch, schema, weight) is None {
        let at = columns::field_index(batch.schema@, weight)->0 as int;
        assert(batch.schema@[at].name@ == weight);
    }
}

/// Of the batches of changes those with rows are told, in their order, and no others.
pub proof fn law_batches_with_rows_are_told(delta: Seq<ColumnBatch>, n: nat, batch: ColumnBatch)
    requires
        n <= delta.len(),
    ensures
        batches_with_rows(delta, n).len() <= n,
        batches_with_rows(delta, n).contains(batch) <==> batch.rows > 0 && exists|i: int|
            0 <= i < n && #[trigger] delta[i] == batch,
    decreases n,
{
    if n > 0 {
        law_batches_with_rows_are_told(delta, (n - 1) as nat, batch);
        let front = batches_with_rows(delta, (n - 1) as nat);
        let all = batches_with_rows(delta, n);
        if delta[n - 1].rows != 0 {
            assert(all[front.len() as int] == delta[n - 1]);
            if front.contains(batch) {
                let i = choose|i: int| 0 <= i < front.len() && front[i] == batch;
                assert(all[i] == batch);
            }
            if all.contains(batch) && !front.contains(batch) {
                let i = choose|i: int| 0 <= i < all.len() && all[i] == batch;
                if i < front.len() {
                    assert(front[i] == batch);
                }
                assert(delta[n - 1] == batch);
            }
        }
        if exists|i: int| 0 <= i < n && #[trigger] delta[i] == batch {
            let i = choose|i: int| 0 <= i < n && #[trigger] delta[i] == batch;
            if i < n - 1 {
                assert(delta[i] == batch);
            }
        }
    }
}

/// A batch of changes keeps every column but the weights, and has the weight of each row beside it.
pub proof fn law_changes_keep_the_other_columns(
    out: MvChangelogBatch,
    batch: ColumnBatch,
    schema: Seq<Field>,
    weight: Seq<char>,
    version: i64,
    version_time: Option<i64>,
)
    requires
        is_delta_of(out, batch, schema, weight, version, version_time),
        columns::field_index(batch.schema@, weight) is Some,
        batch.columns@.len() == batch.schema@.len(),
    ensures
        exists|at: int|
            {
                &&& 0 <= at < batch.schema@.len()
                &&& (#[trigger] batch.schema@[at]).name@ == weight
                &&& out.batch.columns@.len() == batch.columns@.len() - 1
                &&& forall|c: int| 0 <= c < at ==> #[trigger] out.batch.columns@[c]
                    == batch.columns@[c]
                &&& forall|c: int|
                    at <= c < out.batch.columns@.len() ==> #[trigger] out.batch.columns@[c]
                        == batch.columns@[c + 1]
                &&& out.diffs@.len() == batch.columns@[at].cells@.len()
                &&& forall|i: int|
                    0 <= i < out.diffs@.len() && batch.columns@[at].cells@[i] is Int64
                        ==> batch.columns@[at].cells@[i] == Cell::Int64(#[trigger] out.diffs@[i])
            },
        out.kind is Delta,
        out.version == version,
        out.version_time == version_time,
        out.batch.rows == batch.rows,
{
    columns::law_first_field_of_a_name(batch.schema@, weight);
    let at = columns::field_index(batch.schema@, weight)->0 as int;
    assert(batch.schema@[at].name@ == weight);
}

} // verus!
