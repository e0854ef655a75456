//! Materialized views, their published versions and what is kept of each version.

use vstd::prelude::*;

use crate::mv::version_map;
use crate::mv::version_map::VersionMap;
use crate::stream_types::Timestamp;
use crate::text::same_text;

verus! {

/// A stored collection: its namespace and its version in the storage.
#[derive(Debug, PartialEq, Eq)]
pub struct ZSetHandle {
    pub ns: String,
    pub version: u64,
}

impl Clone for ZSetHandle {
    fn clone(&self) -> (copy: Self)
        ensures
            copy == *self,
    {
        ZSetHandle { ns: self.ns.clone(), version: self.version }
    }
}

/// A batch of rows and their number.
#[derive(Debug, PartialEq, Eq)]
pub struct Batch<B> {
    pub rows: usize,
    pub data: B,
}

/// The number of rows of some batches.
pub open spec fn row_total<B>(batches: Seq<Batch<B>>) -> nat
    decreases batches.len(),
{
    if batches.len() == 0 {
        0
    } else {
        row_total(batches.drop_last()) + batches.last().rows as nat
    }
}

/// No prefix has more rows than the whole.
proof fn lemma_row_total_prefix<B>(batches: Seq<Batch<B>>, n: int)
    requires
        0 <= n <= batches.len(),
    ensures
        row_total(batches.take(n)) <= row_total(batches),
    decreases batches.len(),
{
    if n < batches.len() {
        lemma_row_total_prefix(batches.drop_last(), n);
        assert(batches.drop_last().take(n) =~= batches.take(n));
    } else {
        assert(batches.take(n) =~= batches);
    }
}

/// Counts the rows of some batches.
fn count_rows<B>(batches: &Vec<Batch<B>>) -> (rows: usize)
    requires
        row_total(batches@) <= usize::MAX,
    ensures
        rows == row_total(batches@),
{
    let mut rows: usize = 0;
    let mut i: usize = 0;
    assert(batches@.take(0) =~= Seq::<Batch<B>>::empty());
    while i < batches.len()
        invariant
            i <= batches@.len(),
            rows == row_total(batches@.take(i as int)),
            row_total(batches@) <= usize::MAX,
        decreases batches@.len() - i,
    {
        proof {
            let next = batches@.take(i + 1);
            assert(next.drop_last() =~= batches@.take(i as int));
            assert(next.last() == batches@[i as int]);
            lemma_row_total_prefix(batches@, i + 1);
        }
        rows = rows + batches[i].rows;
        i = i + 1;
    }
    assert(batches@.take(i as int) =~= batches@);
    rows
}

/// A number of rows as it is recorded.
pub open spec fn recorded_rows(rows: nat) -> i64 {
    if rows <= i64::MAX {
        rows as i64
    } else {
        i64::MAX
    }
}

/// A recorded number of rows as it is reported.
pub open spec fn reported_rows(rows: i64) -> usize {
    if 0 <= rows <= usize::MAX {
        rows as usize
    } else {
        0
    }
}

fn record_rows(rows: usize) -> (recorded: i64)
    ensures
        recorded == recorded_rows(rows as nat),
{
    if rows as u128 <= i64::MAX as u128 {
        rows as i64
    } else {
        i64::MAX
    }
}

fn report_rows(rows: i64) -> (reported: usize)
    ensures
        reported == reported_rows(rows),
{
    if rows >= 0 && rows as u128 <= usize::MAX as u128 {
        rows as usize
    } else {
        0
    }
}

/// A watermark, which counts milliseconds, in microseconds.
pub open spec fn micros_of(watermark: Timestamp) -> i64 {
    if watermark * 1000 <= i64::MAX {
        (watermark * 1000) as i64
    } else {
        i64::MAX
    }
}

/// A watermark, which counts milliseconds, in microseconds.
pub fn watermark_to_micros(watermark: Timestamp) -> (micros: i64)
    ensures
        micros == micros_of(watermark),
{
    let micros: u128 = watermark as u128 * 1000;
    if micros <= i64::MAX as u128 {
        micros as i64
    } else {
        i64::MAX
    }
}

/// A moment of the clock.
#[verifier::external_type_specification]
#[verifier::external_body]
pub struct ExSystemTime(std::time::SystemTime);

/// `SystemTime::now`. Nothing is claimed of the moment that the clock shows.
#[verifier::external_body]
fn clock_time() -> (time: std::time::SystemTime) {
    std::time::SystemTime::now()
}

/// `SystemTime::duration_since` for the epoch: the time that has passed since then, or nothing
/// before it. How much that is depends on the clock, and nothing is claimed of it.
#[verifier::external_body]
fn since_epoch(time: std::time::SystemTime) -> (passed: Option<std::time::Duration>) {
    time.duration_since(std::time::UNIX_EPOCH).ok()
}

/// `Duration::as_micros`. How many those are depends on the clock, and nothing is claimed of them.
#[verifier::external_body]
fn as_micros(passed: std::time::Duration) -> (micros: u128) {
    passed.as_micros()
}

/// Microseconds since the epoch as a version time: zero before the epoch and beyond the range.
pub open spec fn clock_micros(passed: Option<u128>) -> i64 {
    match passed {
        Some(micros) if micros <= i64::MAX => micros as i64,
        _ => 0,
    }
}

/// Microseconds since the epoch as a version time.
pub fn version_time_of(passed: Option<u128>) -> (micros: i64)
    ensures
        micros == clock_micros(passed),
{
    match passed {
        Some(micros) => if micros <= i64::MAX as u128 {
            micros as i64
        } else {
            0
        },
        None => 0,
    }
}

/// The time that the clock shows, as a version time.
fn current_time_micros() -> (micros: i64)
    ensures
        exists|passed: Option<u128>| micros == #[trigger] clock_micros(passed),
{
    let passed: Option<u128> = match since_epoch(clock_time()) {
        Some(passed) => Some(as_micros(passed)),
        None => None,
    };
    version_time_of(passed)
}

/// Where the columns of a view are stored, and their schema.
#[derive(Debug)]
pub struct ColumnarMaterializedViewStorage<T, S> {
    pub table: T,
    pub schema: S,
}

/// Where the keys of a view are stored, and at which version.
#[derive(Debug)]
pub struct DbspPersistedState<D, T> {
    pub dictionary: D,
    pub table: T,
    pub namespace: String,
    pub version: u64,
    pub logical_version: u64,
}

impl<D, T> DbspPersistedState<D, T> {
    /// A stored state whose logical version is its stored version.
    pub fn new(dictionary: D, table: T, namespace: String, version: u64) -> (state: Self)
        ensures
            state == (DbspPersistedState {
                dictionary,
                table,
                namespace,
                version,
                logical_version: version,
            }),
    {
        DbspPersistedState { dictionary, table, namespace, version, logical_version: version }
    }

    /// The dictionary of the keys.
    pub fn dictionary(&self) -> (dictionary: &D)
        ensures
            *dictionary == self.dictionary,
    {
        &self.dictionary
    }

    /// The table of the keys.
    pub fn table(&self) -> (table: &T)
        ensures
            *table == self.table,
    {
        &self.table
    }

    /// Where the keys are stored.
    pub fn namespace(&self) -> (namespace: &str)
        ensures
            namespace@ == self.namespace@,
    {
        self.namespace.as_str()
    }

    /// The stored version.
    pub fn version(&self) -> (version: u64)
        ensures
            version == self.version,
    {
        self.version
    }

    /// The logical version.
    pub fn logical_version(&self) -> (version: u64)
        ensures
            version == self.logical_version,
    {
        self.logical_version
    }

    /// The same state with another logical version.
    pub fn with_logical_version(self, logical_version: u64) -> (state: Self)
        ensures
            state == (DbspPersistedState { logical_version, ..self }),
    {
        DbspPersistedState {
            dictionary: self.dictionary,
            table: self.table,
            namespace: self.namespace,
            version: self.version,
            logical_version,
        }
    }
}

/// What a view holds.
#[verifier::ext_equal]
pub struct ViewState<B, C, P, W> {
    pub name: Seq<char>,
    pub rows: i64,
    pub published_rows: i64,
    pub rows_version: Option<i64>,
    pub authoritative: bool,
    pub watermark: Option<Timestamp>,
    pub snapshots: Seq<(i64, Vec<Batch<B>>)>,
    pub deltas: Seq<(i64, Vec<Batch<B>>)>,
    pub persisted: Option<P>,
    pub columnar: Option<C>,
    pub times: Seq<(i64, i64)>,
    pub latest: Option<i64>,
    pub handles: Seq<(i64, ZSetHandle)>,
    pub work: Seq<(i64, W)>,
    pub barrier: bool,
    pub keep_last: Option<usize>,
}

/// A view of which nothing was published.
pub open spec fn fresh_view<B, C, P, W>(
    name: Seq<char>,
    keep_last: Option<usize>,
) -> ViewState<B, C, P, W> {
    ViewState {
        name,
        rows: 0,
        published_rows: 0,
        rows_version: None,
        authoritative: false,
        watermark: None,
        snapshots: Seq::empty(),
        deltas: Seq::empty(),
        persisted: None,
        columnar: None,
        times: Seq::empty(),
        latest: None,
        handles: Seq::empty(),
        work: Seq::empty(),
        barrier: true,
        keep_last,
    }
}

/// The entries without some versions.
pub open spec fn without_all<T>(entries: Seq<(i64, T)>, gone: Seq<i64>) -> Seq<(i64, T)>
    decreases gone.len(),
{
    if gone.len() == 0 {
        entries
    } else {
        version_map::without(without_all(entries, gone.drop_last()), gone.last())
    }
}

/// The oldest versions, which a retention of the last `keep` leaves out.
pub open spec fn expired<T>(entries: Seq<(i64, T)>, keep_last: Option<usize>) -> Seq<i64> {
    match keep_last {
        Some(keep) => if keep > 0 && entries.len() > keep {
            Seq::new((entries.len() - keep) as nat, |i: int| entries[i].0)
        } else {
            Seq::empty()
        },
        None => Seq::empty(),
    }
}

/// A view after it recorded a version: its time is the watermark's where there is one.
pub open spec fn recorded<B, C, P, W>(
    state: ViewState<B, C, P, W>,
    version: i64,
    now: i64,
) -> ViewState<B, C, P, W> {
    let time = match state.watermark {
        Some(watermark) => micros_of(watermark),
        None => now,
    };
    ViewState {
        times: version_map::inserted(state.times, version, time),
        latest: Some(version),
        ..state
    }
}

/// A view that holds no more of the versions beyond its retention.
pub open spec fn pruned<B, C, P, W>(state: ViewState<B, C, P, W>) -> ViewState<B, C, P, W> {
    let gone = expired(state.times, state.keep_last);
    ViewState {
        times: state.times.skip(gone.len() as int),
        handles: without_all(state.handles, gone),
        work: without_all(state.work, gone),
        snapshots: without_all(state.snapshots, gone),
        deltas: without_all(state.deltas, gone),
        ..state
    }
}

/// A view after it published a version of which nothing but the number is kept.
pub open spec fn published<B, C, P, W>(
    state: ViewState<B, C, P, W>,
    version: i64,
    now: i64,
) -> ViewState<B, C, P, W> {
    pruned(recorded(state, version, now))
}

/// A view with a stored collection for a version.
pub open spec fn with_handle<B, C, P, W>(
    state: ViewState<B, C, P, W>,
    version: i64,
    handle: ZSetHandle,
) -> ViewState<B, C, P, W> {
    ViewState { handles: version_map::inserted(state.handles, version, handle), ..state }
}

/// A view with the batches that a version changed.
pub open spec fn with_delta<B, C, P, W>(
    state: ViewState<B, C, P, W>,
    version: i64,
    delta: Vec<Batch<B>>,
) -> ViewState<B, C, P, W> {
    ViewState { deltas: version_map::inserted(state.deltas, version, delta), ..state }
}

/// A view with the batches of a version.
pub open spec fn with_snapshot<B, C, P, W>(
    state: ViewState<B, C, P, W>,
    version: i64,
    snapshot: Vec<Batch<B>>,
) -> ViewState<B, C, P, W> {
    ViewState { snapshots: version_map::inserted(state.snapshots, version, snapshot), ..state }
}

/// A view that counted the rows of a version.
pub open spec fn with_row_count<B, C, P, W>(
    state: ViewState<B, C, P, W>,
    version: i64,
    rows: nat,
) -> ViewState<B, C, P, W> {
    ViewState {
        rows: recorded_rows(rows),
        published_rows: recorded_rows(rows),
        rows_version: Some(version),
        ..state
    }
}

/// A view after it published a version by its batches.
pub open spec fn published_batches<B, C, P, W>(
    state: ViewState<B, C, P, W>,
    version: i64,
    snapshot: Vec<Batch<B>>,
    delta: Vec<Batch<B>>,
    now: i64,
) -> ViewState<B, C, P, W> {
    published(
        with_row_count(
            with_delta(with_snapshot(state, version, snapshot), version, delta),
            version,
            row_total(snapshot@),
        ),
        version,
        now,
    )
}

/// A view after it published a version by its columns.
pub open spec fn published_columns<B, C, P, W>(
    state: ViewState<B, C, P, W>,
    version: i64,
    handle: ZSetHandle,
    storage: C,
    row_count: nat,
    delta: Vec<Batch<B>>,
    now: i64,
) -> ViewState<B, C, P, W> {
    let counted = with_row_count(
        with_delta(with_handle(state, version, handle), version, delta),
        version,
        row_count,
    );
    published(
        ViewState { columnar: Some(storage), authoritative: true, ..counted },
        version,
        now,
    )
}

/// What is needed to read the columns of a version.
#[derive(Debug, PartialEq, Eq)]
pub enum SnapshotPlan<H, C> {
    /// Nothing is stored for the version.
    Nothing,
    /// Read the columns of the collection from the storage.
    Read(H, C),
}

/// Why the columns of a version cannot be read.
#[derive(Clone, Copy, Debug, PartialEq, Eq, Structural)]
pub enum SnapshotError {
    /// Versions start at zero.
    VersionOutOfRange(i64),
    /// The columns are stored with another schema.
    SchemaMismatch,
}

/// A materialized view.
pub struct MaterializedViewHandle<B, C, P, W> {
    name: String,
    state_row_count: i64,
    published_row_count: i64,
    state_row_count_version: Option<i64>,
    state_authoritative: bool,
    watermark: Option<Timestamp>,
    arrow_snapshots: VersionMap<Vec<Batch<B>>>,
    arrow_deltas: VersionMap<Vec<Batch<B>>>,
    dbsp_state: Option<P>,
    columnar_storage: Option<C>,
    version_times: VersionMap<i64>,
    latest_version: Option<i64>,
    versions: VersionMap<ZSetHandle>,
    logical_work: VersionMap<W>,
    commit_visibility_barrier: bool,
    retention_keep_last: Option<usize>,
}

impl<B, C, P, W> View for MaterializedViewHandle<B, C, P, W> {
    type V = ViewState<B, C, P, W>;

    closed spec fn view(&self) -> ViewState<B, C, P, W> {
        ViewState {
            name: self.name@,
            rows: self.state_row_count,
            published_rows: self.published_row_count,
            rows_version: self.state_row_count_version,
            authoritative: self.state_authoritative,
            watermark: self.watermark,
            snapshots: self.arrow_snapshots.view(),
            deltas: self.arrow_deltas.view(),
            persisted: self.dbsp_state,
            columnar: self.columnar_storage,
            times: self.version_times.view(),
            latest: self.latest_version,
            handles: self.versions.view(),
            work: self.logical_work.view(),
            barrier: self.commit_visibility_barrier,
            keep_last: self.retention_keep_last,
        }
    }
}

/// Forgets some versions.
fn forget_all<T>(entries: &mut VersionMap<T>, gone: &Vec<i64>)
    ensures
        final(entries).view() == without_all(old(entries).view(), gone@),
{
    let ghost before = entries.view();
    let mut i: usize = 0;
    assert(gone@.take(0) =~= Seq::<i64>::empty());
    while i < gone.len()
        invariant
            i <= gone@.len(),
            entries.view() == without_all(before, gone@.take(i as int)),
        decreases gone@.len() - i,
    {
        entries.remove(gone[i]);
        proof {
            let next = gone@.take(i + 1);
            assert(next.drop_last() =~= gone@.take(i as int));
            assert(next.last() == gone@[i as int]);
        }
        i = i + 1;
    }
    assert(gone@.take(i as int) =~= gone@);
}

impl<B, C, P, W> MaterializedViewHandle<B, C, P, W> {
    /// A view of which nothing was published.
    pub(crate) fn new(name: String, retention_keep_last: Option<usize>) -> (view: Self)
        ensures
            view@ == fresh_view::<B, C, P, W>(name@, retention_keep_last),
    {
        MaterializedViewHandle {
            name,
            state_row_count: 0,
            published_row_count: 0,
            state_row_count_version: None,
            state_authoritative: false,
            watermark: None,
            arrow_snapshots: VersionMap::new(),
            arrow_deltas: VersionMap::new(),
            dbsp_state: None,
            columnar_storage: None,
            version_times: VersionMap::new(),
            latest_version: None,
            versions: VersionMap::new(),
            logical_work: VersionMap::new(),
            commit_visibility_barrier: true,
            retention_keep_last,
        }
    }

    /// The name of the view.
    pub fn name(&self) -> (name: &str)
        ensures
            name@ == self@.name,
    {
        self.name.as_str()
    }

    /// Moves the watermark.
    pub fn update_watermark(&mut self, watermark: Timestamp)
        ensures
            final(self)@ == (ViewState { watermark: Some(watermark), ..old(self)@ }),
    {
        self.watermark = Some(watermark);
    }

    /// The watermark.
    pub fn watermark(&self) -> (watermark: Option<Timestamp>)
        ensures
            watermark == self@.watermark,
    {
        self.watermark
    }

    /// Takes a count of the rows of the latest version; a count of another version is left out.
    pub fn seed_authoritative_row_count_if_latest(&mut self, version: u64, row_count: usize) -> (
    taken: bool)
        ensures
            taken == (version <= i64::MAX && old(self)@.latest == Some(version as i64)),
            taken ==> final(self)@ == (ViewState {
                authoritative: true,
                ..with_row_count(old(self)@, version as i64, row_count as nat)
            }),
            !taken ==> final(self)@ == old(self)@,
    {
        if version > i64::MAX as u64 {
            return false;
        }
        let version: i64 = version as i64;
        match self.latest_version {
            Some(latest) => if latest != version {
                return false;
            },
            None => {
                return false;
            },
        }
        let rows: i64 = record_rows(row_count);
        self.state_row_count = rows;
        self.published_row_count = rows;
        self.state_row_count_version = Some(version);
        self.state_authoritative = true;
        true
    }

    /// The number of rows, where it is known for certain.
    pub fn authoritative_row_count(&self) -> (rows: Option<usize>)
        ensures
            rows == (if self@.authoritative {
                Some(reported_rows(self@.rows))
            } else {
                None
            }),
    {
        if self.state_authoritative {
            Some(report_rows(self.state_row_count))
        } else {
            None
        }
    }

    /// The number of rows of a version, where that version was counted last.
    pub fn authoritative_row_count_for(&self, version: u64) -> (rows: Option<usize>)
        ensures
            rows == (if version <= i64::MAX && self@.rows_version == Some(version as i64) {
                Some(reported_rows(self@.published_rows))
            } else {
                None
            }),
    {
        if version > i64::MAX as u64 {
            return None;
        }
        match self.state_row_count_version {
            Some(counted) => if counted == version as i64 {
                Some(report_rows(self.published_row_count))
            } else {
                None
            },
            None => None,
        }
    }

    /// Notes a version and its time.
    fn record_latest_version(&mut self, version: i64, now: i64)
        ensures
            final(self)@ == recorded(old(self)@, version, now),
    {
        let time: i64 = match self.watermark {
            Some(watermark) => watermark_to_micros(watermark),
            None => now,
        };
        self.version_times.insert(version, time);
        self.latest_version = Some(version);
    }

    /// Forgets the versions beyond the retention.
    fn prune_retained_versions(&mut self)
        ensures
            final(self)@ == pruned(old(self)@),
    {
        let ghost before = self@;
        let keep_last: usize = match self.retention_keep_last {
            Some(keep) => keep,
            None => 0,
        };
        if keep_last == 0 {
            assert(before.times.skip(0) =~= before.times);
            return;
        }
        let gone = self.version_times.keep_last(keep_last);
        proof {
            assert(gone@ =~= expired(before.times, before.keep_last));
            if before.times.len() <= keep_last {
                assert(before.times.skip(0) =~= before.times);
            }
        }
        if gone.len() == 0 {
            return;
        }
        forget_all(&mut self.versions, &gone);
        forget_all(&mut self.logical_work, &gone);
        forget_all(&mut self.arrow_snapshots, &gone);
        forget_all(&mut self.arrow_deltas, &gone);
    }

    /// Publishes a version by its batches and what they changed, at a given time.
    pub fn publish_arrow_version_at(
        &mut self,
        version: i64,
        snapshot: Vec<Batch<B>>,
        delta: Vec<Batch<B>>,
        now: i64,
    )
        requires
            row_total(snapshot@) <= usize::MAX,
        ensures
            final(self)@ == published_batches(old(self)@, version, snapshot, delta, now),
    {
        let rows: i64 = record_rows(count_rows(&snapshot));
        self.arrow_snapshots.insert(version, snapshot);
        self.arrow_deltas.insert(version, delta);
        self.state_row_count = rows;
        self.published_row_count = rows;
        self.state_row_count_version = Some(version);
        self.record_latest_version(version, now);
        self.prune_retained_versions();
    }

    /// Publishes a version by its batches and what they changed; without a watermark its time is
    /// the clock's.
    pub fn publish_arrow_version(
        &mut self,
        version: i64,
        snapshot: Vec<Batch<B>>,
        delta: Vec<Batch<B>>,
    )
        requires
            row_total(snapshot@) <= usize::MAX,
        ensures
            exists|passed: Option<u128>|
                final(self)@ == #[trigger] published_batches(
                    old(self)@,
                    version,
                    snapshot,
                    delta,
                    clock_micros(passed),
                ),
    {
        let now: i64 = current_time_micros();
        self.publish_arrow_version_at(version, snapshot, delta, now);
    }

    /// The batches of a version.
    pub fn arrow_snapshot_for(&self, version: i64) -> (snapshot: Option<&Vec<Batch<B>>>)
        ensures
            match snapshot {
                Some(batches) => version_map::lookup(self@.snapshots, version) == Some(*batches),
                None => version_map::lookup(self@.snapshots, version) is None,
            },
    {
        self.arrow_snapshots.get(version)
    }

    /// The batches that a version changed.
    pub fn arrow_delta_for(&self, version: i64) -> (delta: Option<&Vec<Batch<B>>>)
        ensures
            match delta {
                Some(batches) => version_map::lookup(self@.deltas, version) == Some(*batches),
                None => version_map::lookup(self@.deltas, version) is None,
            },
    {
        self.arrow_deltas.get(version)
    }

    /// The number of rows in the batches of a version.
    pub fn arrow_row_count_for(&self, version: i64) -> (rows: Option<usize>)
        requires
            version_map::lookup(self@.snapshots, version) matches Some(batches) ==> row_total(
                batches@,
            ) <= usize::MAX,
        ensures
            match version_map::lookup(self@.snapshots, version) {
                Some(batches) => rows == Some(row_total(batches@) as usize),
                None => rows is None,
            },
    {
        match self.arrow_snapshots.get(version) {
            Some(batches) => Some(count_rows(batches)),
            None => None,
        }
    }

    /// Sets where the columns are stored.
    pub fn set_columnar_storage(&mut self, storage: C)
        ensures
            final(self)@ == (ViewState { columnar: Some(storage), ..old(self)@ }),
    {
        self.columnar_storage = Some(storage);
    }

    /// Where the columns are stored.
    pub fn columnar_storage(&self) -> (storage: Option<&C>)
        ensures
            match storage {
                Some(found) => self@.columnar == Some(*found),
                None => self@.columnar is None,
            },
    {
        self.columnar_storage.as_ref()
    }

    /// Sets where the keys are stored.
    pub fn set_dbsp_state(&mut self, state: P)
        ensures
            final(self)@ == (ViewState { persisted: Some(state), ..old(self)@ }),
    {
        self.dbsp_state = Some(state);
    }

    /// Where the keys are stored.
    pub fn dbsp_state(&self) -> (state: Option<&P>)
        ensures
            match state {
                Some(found) => self@.persisted == Some(*found),
                None => self@.persisted is None,
            },
    {
        self.dbsp_state.as_ref()
    }

    /// Publishes a version by its stored collection, at a given time.
    pub fn publish_version_at(&mut self, version: i64, handle: ZSetHandle, now: i64)
        ensures
            final(self)@ == published(with_handle(old(self)@, version, handle), version, now),
    {
        self.versions.insert(version, handle);
        self.record_latest_version(version, now);
        self.prune_retained_versions();
    }

    /// Publishes a version by its stored collection; without a watermark its time is the clock's.
    pub fn publish_version(&mut self, version: i64, handle: ZSetHandle)
        ensures
            exists|passed: Option<u128>|
                final(self)@ == #[trigger] published(
                    with_handle(old(self)@, version, handle),
                    version,
                    clock_micros(passed),
                ),
    {
        let now: i64 = current_time_micros();
        self.publish_version_at(version, handle, now);
    }

    /// Publishes a version by its columns and what they changed, at a given time.
    pub fn publish_columnar_version_at(
        &mut self,
        version: i64,
        handle: ZSetHandle,
        storage: C,
        row_count: usize,
        delta: Vec<Batch<B>>,
        now: i64,
    )
        ensures
            final(self)@ == published_columns(
                old(self)@,
                version,
                handle,
                storage,
                row_count as nat,
                delta,
                now,
            ),
    {
        self.columnar_storage = Some(storage);
        self.versions.insert(version, handle);
        self.arrow_deltas.insert(version, delta);
        let rows: i64 = record_rows(row_count);
        self.state_row_count = rows;
        self.published_row_count = rows;
        self.state_row_count_version = Some(version);
        self.state_authoritative = true;
        self.record_latest_version(version, now);
        self.prune_retained_versions();
    }

    /// Publishes a version by its columns and what they changed; without a watermark its time is
    /// the clock's.
    pub fn publish_columnar_version(
        &mut self,
        version: i64,
        handle: ZSetHandle,
        storage: C,
        row_count: usize,
        delta: Vec<Batch<B>>,
    )
        ensures
            exists|passed: Option<u128>|
                final(self)@ == #[trigger] published_columns(
                    old(self)@,
                    version,
                    handle,
                    storage,
                    row_count as nat,
                    delta,
                    clock_micros(passed),
                ),
    {
        let now: i64 = current_time_micros();
        self.publish_columnar_version_at(version, handle, storage, row_count, delta, now);
    }

    /// Publishes a version that changed nothing, at a given time.
    pub fn publish_logical_version_at(&mut self, version: i64, now: i64)
        ensures
            final(self)@ == published(old(self)@, version, now),
    {
        self.record_latest_version(version, now);
        self.prune_retained_versions();
    }

    /// Publishes a version that changed nothing; without a watermark its time is the clock's.
    pub fn publish_logical_version(&mut self, version: i64)
        ensures
            exists|passed: Option<u128>|
                final(self)@ == #[trigger] published(
                    old(self)@,
                    version,
                    clock_micros(passed),
                ),
    {
        let now: i64 = current_time_micros();
        self.publish_logical_version_at(version, now);
    }

    /// The version that was published last.
    pub fn latest_version(&self) -> (version: Option<i64>)
        ensures
            version == self@.latest,
    {
        self.latest_version
    }

    /// The first published version above `version`.
    pub fn next_version_after(&self, version: i64) -> (next: Option<i64>)
        ensures
            next == version_map::next_after(self@.times, version),
    {
        self.version_times.next_after(version)
    }

    /// Whether a version is published and not yet forgotten.
    pub fn is_version_published(&self, version: i64) -> (found: bool)
        ensures
            found == (version_map::lookup(self@.times, version) is Some),
    {
        self.version_times.get(version).is_some()
    }

    /// When a version was published.
    pub fn version_time(&self, version: i64) -> (time: Option<i64>)
        ensures
            time == version_map::lookup(self@.times, version),
    {
        match self.version_times.get(version) {
            Some(time) => Some(*time),
            None => None,
        }
    }

    /// Notes the work that a version took, within the retention.
    pub fn record_logical_work(&mut self, version: i64, work: W)
        ensures
            ({
                let all = version_map::inserted(old(self)@.work, version, work);
                final(self)@ == (ViewState {
                    work: all.skip(expired(all, old(self)@.keep_last).len() as int),
                    ..old(self)@
                })
            }),
    {
        self.logical_work.insert(version, work);
        let ghost all = self.logical_work.view();
        let keep_last: usize = match self.retention_keep_last {
            Some(keep) => keep,
            None => 0,
        };
        assert(all.skip(0) =~= all);
        if keep_last > 0 {
            let _gone = self.logical_work.keep_last(keep_last);
        }
    }

    /// The work that a version took.
    pub fn logical_work_for(&self, version: i64) -> (work: Option<&W>)
        ensures
            match work {
                Some(found) => version_map::lookup(self@.work, version) == Some(*found),
                None => version_map::lookup(self@.work, version) is None,
            },
    {
        self.logical_work.get(version)
    }

    /// The largest version whose work is known, and that work.
    pub fn latest_logical_work(&self) -> (work: Option<&(i64, W)>)
        ensures
            match work {
                Some(found) => self@.work.len() > 0 && *found == self@.work.last(),
                None => self@.work.len() == 0,
            },
    {
        self.logical_work.last()
    }

    /// Lets readers wait for commits, or not.
    pub fn set_commit_visibility_barrier_enabled(&mut self, enabled: bool)
        ensures
            final(self)@ == (ViewState { barrier: enabled, ..old(self)@ }),
    {
        self.commit_visibility_barrier = enabled;
    }

    /// Whether readers wait for commits.
    pub fn commit_visibility_barrier_enabled(&self) -> (enabled: bool)
        ensures
            enabled == self@.barrier,
    {
        self.commit_visibility_barrier
    }

    /// The stored collection of a version.
    pub fn handle_for_version(&self, version: i64) -> (handle: Option<ZSetHandle>)
        ensures
            handle == version_map::lookup(self@.handles, version),
    {
        match self.versions.get(version) {
            Some(handle) => Some(handle.clone()),
            None => None,
        }
    }

    /// The stored collection of the last version up to `version` that has one.
    pub fn handle_at_or_before_version(&self, version: i64) -> (handle: Option<ZSetHandle>)
        ensures
            handle == (match version_map::last_up_to(self@.handles, version) {
                Some(entry) => Some(entry.1),
                None => None,
            }),
    {
        match self.versions.last_up_to(version) {
            Some(entry) => Some(entry.1.clone()),
            None => None,
        }
    }
}

/// How the columns of a version are to be read, given what is stored for it and whether it has
/// the schema that is asked for.
pub fn columnar_snapshot_plan<H, C>(
    version: i64,
    stored: Option<(H, C)>,
    schema_matches: bool,
) -> (plan: Result<SnapshotPlan<H, C>, SnapshotError>)
    ensures
        plan == (if version < 0 {
            Err(SnapshotError::VersionOutOfRange(version))
        } else {
            match stored {
                None => Ok(SnapshotPlan::Nothing),
                Some(found) => if schema_matches {
                    Ok(SnapshotPlan::Read(found.0, found.1))
                } else {
                    Err(SnapshotError::SchemaMismatch)
                },
            }
        }),
{
    if version < 0 {
        return Err(SnapshotError::VersionOutOfRange(version));
    }
    match stored {
        None => Ok(SnapshotPlan::Nothing),
        Some((handle, storage)) => if schema_matches {
            Ok(SnapshotPlan::Read(handle, storage))
        } else {
            Err(SnapshotError::SchemaMismatch)
        },
    }
}

/// A view whose versions are in order.
pub open spec fn ordered<B, C, P, W>(state: ViewState<B, C, P, W>) -> bool {
    &&& version_map::ascending(state.times)
    &&& version_map::ascending(state.handles)
    &&& version_map::ascending(state.work)
    &&& version_map::ascending(state.snapshots)
    &&& version_map::ascending(state.deltas)
}

/// Forgotten versions are not found; the others stay.
pub proof fn lemma_without_all<T>(entries: Seq<(i64, T)>, gone: Seq<i64>)
    requires
        version_map::ascending(entries),
    ensures
        version_map::ascending(without_all(entries, gone)),
        forall|version: i64|
            #[trigger] version_map::lookup(without_all(entries, gone), version) == (
            if gone.contains(version) {
                None
            } else {
                version_map::lookup(entries, version)
            }),
    decreases gone.len(),
{
    if gone.len() > 0 {
        let rest = gone.drop_last();
        lemma_without_all(entries, rest);
        version_map::law_remove(without_all(entries, rest), gone.last());
        assert forall|version: i64|
            #[trigger] version_map::lookup(without_all(entries, gone), version) == (
            if gone.contains(version) {
                None
            } else {
                version_map::lookup(entries, version)
            }) by {
            if rest.contains(version) {
                let i = choose|i: int| 0 <= i < rest.len() && rest[i] == version;
                assert(gone[i] == version);
            }
            if gone.contains(version) && version != gone.last() {
                let i = choose|i: int| 0 <= i < gone.len() && gone[i] == version;
                assert(rest[i] == version);
            }
            if version == gone.last() {
                assert(gone[gone.len() - 1] == version);
            }
            version_map::law_remove(without_all(entries, rest), gone.last());
        }
    }
}

/// Without a retention, a published collection is read back under its version, which is then
/// the latest and is published, and what other versions hold stays.
pub proof fn law_publish_then_read<B, C, P, W>(
    state: ViewState<B, C, P, W>,
    version: i64,
    handle: ZSetHandle,
    now: i64,
)
    requires
        ordered(state),
        state.keep_last is None,
    ensures
        ({
            let after = published(with_handle(state, version, handle), version, now);
            &&& ordered(after)
            &&& after.latest == Some(version)
            &&& version_map::lookup(after.times, version) is Some
            &&& version_map::lookup(after.handles, version) == Some(handle)
            &&& version_map::last_up_to(after.handles, version) == Some((version, handle))
            &&& forall|other: i64|
                other != version ==> #[trigger] version_map::lookup(after.handles, other)
                    == version_map::lookup(state.handles, other)
            &&& forall|other: i64|
                other != version ==> #[trigger] version_map::lookup(after.times, other)
                    == version_map::lookup(state.times, other)
        }),
{
    version_map::law_insert(state.handles, version, handle);
    let time = match state.watermark {
        Some(watermark) => micros_of(watermark),
        None => now,
    };
    version_map::law_insert(state.times, version, time);
    let held = recorded(with_handle(state, version, handle), version, now);
    assert(held.times.skip(0) =~= held.times);
}

/// With a retention of the last `keep` versions, publishing leaves at most `keep` of them; a
/// version that went is larger than no version that stays, and nothing is held of it.
#[verifier::rlimit(40)]
pub proof fn law_retention<B, C, P, W>(
    state: ViewState<B, C, P, W>,
    version: i64,
    now: i64,
    keep: usize,
    gone: i64,
)
    requires
        ordered(state),
        state.keep_last == Some(keep),
        keep > 0,
        version_map::lookup(recorded(state, version, now).times, gone) is Some,
        version_map::lookup(published(state, version, now).times, gone) is None,
    ensures
        ({
            let after = published(state, version, now);
            &&& after.times.len() <= keep
            &&& forall|i: int|
                0 <= i < after.times.len() ==> gone < (#[trigger] after.times[i]).0
            &&& version_map::lookup(after.handles, gone) is None
            &&& version_map::lookup(after.work, gone) is None
            &&& version_map::lookup(after.snapshots, gone) is None
            &&& version_map::lookup(after.deltas, gone) is None
        }),
{
    let time = match state.watermark {
        Some(watermark) => micros_of(watermark),
        None => now,
    };
    version_map::law_insert(state.times, version, time);
    let all = recorded(state, version, now).times;
    let went = expired(all, state.keep_last);
    let after = published(state, version, now);
    assert(all.skip(0) =~= all);
    let n = went.len() as int;
    assert(after.times =~= all.skip(n));
    version_map::lemma_lookup(all, gone);
    let at = choose|i: int| 0 <= i < all.len() && (#[trigger] all[i]).0 == gone;
    assert forall|i: int, j: int| 0 <= i < j < after.times.len() implies (
    #[trigger] after.times[i]).0 < (#[trigger] after.times[j]).0 by {
        assert(all[i + n].0 < all[j + n].0);
    }
    if at >= n {
        assert(after.times[at - n] == all[at]);
        version_map::lemma_lookup_at(after.times, at - n);
    }
    assert(went[at] == gone);
    assert forall|i: int| 0 <= i < after.times.len() implies gone < (
    #[trigger] after.times[i]).0 by {
        assert(all[at].0 < all[i + n].0);
    }
    lemma_without_all(state.handles, went);
    lemma_without_all(state.work, went);
    lemma_without_all(state.snapshots, went);
    lemma_without_all(state.deltas, went);
}

/// The views of a registry as what they hold.
pub open spec fn view_states<B, C, P, W>(
    views: Seq<MaterializedViewHandle<B, C, P, W>>,
) -> Seq<ViewState<B, C, P, W>> {
    Seq::new(views.len(), |i: int| views[i]@)
}

/// The first view of a name.
pub open spec fn find_view<B, C, P, W>(
    views: Seq<ViewState<B, C, P, W>>,
    name: Seq<char>,
) -> Option<nat>
    decreases views.len(),
{
    if views.len() == 0 {
        None
    } else {
        match find_view(views.drop_last(), name) {
            Some(i) => Some(i),
            None => if views.last().name == name {
                Some((views.len() - 1) as nat)
            } else {
                None
            },
        }
    }
}

/// No two views have one name.
pub open spec fn distinct_names<B, C, P, W>(views: Seq<ViewState<B, C, P, W>>) -> bool {
    forall|i: int, j: int|
        0 <= i < j < views.len() ==> (#[trigger] views[i]).name != (#[trigger] views[j]).name
}

/// The schema of a name: the last one that was set.
pub open spec fn find_schema<S>(schemas: Seq<(Seq<char>, S)>, name: Seq<char>) -> Option<S>
    decreases schemas.len(),
{
    if schemas.len() == 0 {
        None
    } else if schemas.last().0 == name {
        Some(schemas.last().1)
    } else {
        find_schema(schemas.drop_last(), name)
    }
}

/// Schemas with their names as texts.
pub open spec fn named_schemas<S>(schemas: Seq<(String, S)>) -> Seq<(Seq<char>, S)> {
    Seq::new(schemas.len(), |i: int| (schemas[i].0@, schemas[i].1))
}

/// A found view has the name, and no earlier one has.
pub proof fn lemma_find_view<B, C, P, W>(views: Seq<ViewState<B, C, P, W>>, name: Seq<char>)
    ensures
        match find_view(views, name) {
            Some(at) => {
                &&& at < views.len()
                &&& views[at as int].name == name
                &&& forall|i: int| 0 <= i < at ==> (#[trigger] views[i]).name != name
            },
            None => forall|i: int| 0 <= i < views.len() ==> (#[trigger] views[i]).name != name,
        },
    decreases views.len(),
{
    if views.len() > 0 {
        let front = views.drop_last();
        lemma_find_view(front, name);
        assert forall|i: int| 0 <= i < front.len() implies #[trigger] views[i] == front[i] by {}
    }
}

/// The first view of a name in a longer list.
proof fn lemma_find_view_step<B, C, P, W>(
    views: Seq<ViewState<B, C, P, W>>,
    name: Seq<char>,
    n: int,
)
    requires
        0 <= n <= views.len(),
        find_view(views.take(n), name) is Some,
    ensures
        find_view(views, name) == find_view(views.take(n), name),
    decreases views.len() - n,
{
    if n < views.len() {
        assert(views.take(n + 1).drop_last() =~= views.take(n));
        lemma_find_view_step(views, name, n + 1);
    } else {
        assert(views.take(n) =~= views);
    }
}

/// The materialized views by their names.
pub struct MaterializedViewRegistry<B, C, P, W, S> {
    views: Vec<MaterializedViewHandle<B, C, P, W>>,
    schemas: Vec<(String, S)>,
    retention_keep_last: Option<usize>,
}

impl<B, C, P, W, S> MaterializedViewRegistry<B, C, P, W, S> {
    /// The views in the order of their registration.
    pub closed spec fn views(&self) -> Seq<ViewState<B, C, P, W>> {
        view_states(self.views@)
    }

    /// The schemas in the order in which they were set.
    pub closed spec fn schemas(&self) -> Seq<(Seq<char>, S)> {
        named_schemas(self.schemas@)
    }

    /// How many versions a new view keeps.
    pub closed spec fn keep_last(&self) -> Option<usize> {
        self.retention_keep_last
    }

    /// A registry whose views keep all versions.
    pub fn new() -> (registry: Self)
        ensures
            registry.views() == Seq::<ViewState<B, C, P, W>>::empty(),
            registry.schemas() == Seq::<(Seq<char>, S)>::empty(),
            registry.keep_last() is None,
    {
        Self::new_with_retention(None)
    }

    /// A registry whose views keep so many versions.
    pub fn new_with_retention(retention_keep_last: Option<usize>) -> (registry: Self)
        ensures
            registry.views() == Seq::<ViewState<B, C, P, W>>::empty(),
            registry.schemas() == Seq::<(Seq<char>, S)>::empty(),
            registry.keep_last() == retention_keep_last,
    {
        let registry = MaterializedViewRegistry {
            views: Vec::new(),
            schemas: Vec::new(),
            retention_keep_last,
        };
        assert(registry.views() =~= Seq::<ViewState<B, C, P, W>>::empty());
        assert(registry.schemas() =~= Seq::<(Seq<char>, S)>::empty());
        registry
    }

    /// The position of the view of a name.
    pub fn get(&self, name: &str) -> (found: Option<usize>)
        ensures
            match found {
                Some(at) => find_view(self.views(), name@) == Some(at as nat) && at
                    < self.views().len(),
                None => find_view(self.views(), name@) is None,
            },
    {
        let ghost states = self.views();
        let mut i: usize = 0;
        assert(states.take(0) =~= Seq::<ViewState<B, C, P, W>>::empty());
        while i < self.views.len()
            invariant
                i <= self.views@.len(),
                states == view_states(self.views@),
                find_view(states.take(i as int), name@) is None,
            decreases self.views@.len() - i,
        {
            let found = same_text(self.views[i].name(), name);
            proof {
                let next = states.take(i + 1);
                assert(next.drop_last() =~= states.take(i as int));
                assert(next.last() == states[i as int]);
                if found {
                    lemma_find_view_step(states, name@, i + 1);
                }
            }
            if found {
                return Some(i);
            }
            i = i + 1;
        }
        assert(states.take(i as int) =~= states);
        None
    }

    /// The position of the view of a name, which is made where there is none.
    pub fn register(&mut self, name: String) -> (at: usize)
        ensures
            match find_view(old(self).views(), name@) {
                Some(found) => {
                    &&& at == found
                    &&& final(self).views() == old(self).views()
                },
                None => {
                    &&& at == old(self).views().len()
                    &&& final(self).views() == old(self).views().push(
                        fresh_view(name@, old(self).keep_last()),
                    )
                },
            },
            at < final(self).views().len(),
            find_view(final(self).views(), name@) == Some(at as nat),
            distinct_names(old(self).views()) ==> distinct_names(final(self).views()),
            final(self).schemas() == old(self).schemas(),
            final(self).keep_last() == old(self).keep_last(),
    {
        let ghost before = self.views();
        match self.get(name.as_str()) {
            Some(found) => found,
            None => {
                let at: usize = self.views.len();
                let ghost wanted = name@;
                self.views.push(MaterializedViewHandle::new(name, self.retention_keep_last));
                proof {
                    let after = self.views();
                    assert(after =~= before.push(fresh_view(wanted, self.keep_last())));
                    assert(after.drop_last() =~= before);
                    lemma_find_view(before, wanted);
                    if distinct_names(before) {
                        assert forall|i: int, j: int| 0 <= i < j < after.len() implies (
                        #[trigger] after[i]).name != (#[trigger] after[j]).name by {
                            if j < before.len() {
                                assert(before[i].name != before[j].name);
                            }
                        }
                    }
                }
                at
            },
        }
    }

    /// A view by its position.
    pub fn view(&self, at: usize) -> (view: &MaterializedViewHandle<B, C, P, W>)
        requires
            at < self.views().len(),
        ensures
            view@ == self.views()[at as int],
    {
        &self.views[at]
    }

    /// A view by its position, to be changed.
    pub fn view_mut(&mut self, at: usize) -> (view: &mut MaterializedViewHandle<B, C, P, W>)
        requires
            at < old(self).views().len(),
        ensures
            view@ == old(self).views()[at as int],
            final(self).views() == old(self).views().update(at as int, final(view)@),
            final(self).schemas() == old(self).schemas(),
            final(self).keep_last() == old(self).keep_last(),
    {
        &mut self.views[at]
    }

    /// The views in the order of their registration.
    pub fn handles(&self) -> (handles: &Vec<MaterializedViewHandle<B, C, P, W>>)
        ensures
            view_states(handles@) == self.views(),
    {
        &self.views
    }

    /// The number of views.
    pub fn len(&self) -> (count: usize)
        ensures
            count == self.views().len(),
    {
        self.views.len()
    }

    /// Moves the watermark of every view.
    pub fn update_watermark_all(&mut self, watermark: Timestamp)
        ensures
            final(self).views() == Seq::new(
                old(self).views().len(),
                |i: int| ViewState { watermark: Some(watermark), ..old(self).views()[i] },
            ),
            final(self).schemas() == old(self).schemas(),
            final(self).keep_last() == old(self).keep_last(),
    {
        let ghost before = self.views();
        let mut i: usize = 0;
        while i < self.views.len()
            invariant
                i <= self.views@.len(),
                self.views@.len() == before.len(),
                forall|j: int|
                    0 <= j < i ==> (#[trigger] self.views@[j])@ == (ViewState {
                        watermark: Some(watermark),
                        ..before[j]
                    }),
                forall|j: int| i <= j < before.len() ==> (#[trigger] self.views@[j])@ == before[j],
                self.schemas@ == old(self).schemas@,
                self.retention_keep_last == old(self).retention_keep_last,
            decreases self.views@.len() - i,
        {
            self.views[i].update_watermark(watermark);
            i = i + 1;
        }
        assert(self.views() =~= Seq::new(
            before.len(),
            |j: int| ViewState { watermark: Some(watermark), ..before[j] },
        ));
    }

    /// Sets the schema of a name.
    pub fn set_schema(&mut self, name: String, schema: S)
        ensures
            final(self).schemas() == old(self).schemas().push((name@, schema)),
            final(self).views() == old(self).views(),
            final(self).keep_last() == old(self).keep_last(),
    {
        let ghost before = self.schemas();
        let ghost wanted = name@;
        self.schemas.push((name, schema));
        assert(self.schemas() =~= before.push((wanted, schema)));
    }

    /// The schema of a name.
    pub fn schema(&self, name: &str) -> (schema: Option<&S>)
        ensures
            match schema {
                Some(found) => find_schema(self.schemas(), name@) == Some(*found),
                None => find_schema(self.schemas(), name@) is None,
            },
    {
        let ghost named = self.schemas();
        let mut i: usize = self.schemas.len();
        assert(named.take(i as int) =~= named);
        while i > 0
            invariant
                i <= self.schemas@.len(),
                named == named_schemas(self.schemas@),
                find_schema(named, name@) == find_schema(named.take(i as int), name@),
            decreases i,
        {
            i = i - 1;
            proof {
                let part = named.take(i + 1);
                assert(part.drop_last() =~= named.take(i as int));
                assert(part.last() == named[i as int]);
            }
            if same_text(self.schemas[i].0.as_str(), name) {
                return Some(&self.schemas[i].1);
            }
        }
        None
    }
}

/// A registered name is found at its position, and registering it again changes nothing.
pub proof fn law_register_once<B, C, P, W>(
    views: Seq<ViewState<B, C, P, W>>,
    name: Seq<char>,
    keep_last: Option<usize>,
)
    requires
        find_view(views, name) is None,
    ensures
        find_view(views.push(fresh_view(name, keep_last)), name) == Some(views.len()),
{
    let after = views.push(fresh_view::<B, C, P, W>(name, keep_last));
    assert(after.drop_last() =~= views);
}

/// What a version publishes by its batches is read back: the batches, what they changed and how
/// many rows they hold; of the other versions nothing changes.
pub proof fn law_published_batches_are_read_back<B, C, P, W>(
    state: ViewState<B, C, P, W>,
    version: i64,
    snapshot: Vec<Batch<B>>,
    delta: Vec<Batch<B>>,
    now: i64,
)
    requires
        ordered(state),
        state.keep_last is None,
        row_total(snapshot@) <= i64::MAX,
        row_total(snapshot@) <= usize::MAX,
    ensures
        ({
            let after = published_batches(state, version, snapshot, delta, now);
            &&& ordered(after)
            &&& after.latest == Some(version)
            &&& version_map::lookup(after.snapshots, version) == Some(snapshot)
            &&& version_map::lookup(after.deltas, version) == Some(delta)
            &&& after.rows_version == Some(version)
            &&& reported_rows(after.rows) == row_total(snapshot@)
            &&& reported_rows(after.published_rows) == row_total(snapshot@)
            &&& after.handles == state.handles
            &&& after.authoritative == state.authoritative
            &&& after.name == state.name
            &&& forall|other: i64|
                other != version ==> #[trigger] version_map::lookup(after.snapshots, other)
                    == version_map::lookup(state.snapshots, other)
            &&& forall|other: i64|
                other != version ==> #[trigger] version_map::lookup(after.deltas, other)
                    == version_map::lookup(state.deltas, other)
            &&& forall|other: i64|
                other != version ==> #[trigger] version_map::lookup(after.times, other)
                    == version_map::lookup(state.times, other)
        }),
{
    version_map::law_insert(state.snapshots, version, snapshot);
    version_map::law_insert(state.deltas, version, delta);
    let time = match state.watermark {
        Some(watermark) => micros_of(watermark),
        None => now,
    };
    version_map::law_insert(state.times, version, time);
    let held = recorded(
        with_row_count(
            with_delta(with_snapshot(state, version, snapshot), version, delta),
            version,
            row_total(snapshot@),
        ),
        version,
        now,
    );
    assert(held.times.skip(0) =~= held.times);
}

/// What a version publishes by its columns is read back: the stored collection, the storage, what
/// was changed and the number of rows, which is then the one that counts.
pub proof fn law_published_columns_are_read_back<B, C, P, W>(
    state: ViewState<B, C, P, W>,
    version: i64,
    handle: ZSetHandle,
    storage: C,
    row_count: nat,
    delta: Vec<Batch<B>>,
    now: i64,
)
    requires
        ordered(state),
        state.keep_last is None,
        row_count <= i64::MAX,
        row_count <= usize::MAX,
    ensures
        ({
            let after = published_columns(
                state,
                version,
                handle,
                storage,
                row_count,
                delta,
                now,
            );
            &&& ordered(after)
            &&& after.latest == Some(version)
            &&& version_map::lookup(after.handles, version) == Some(handle)
            &&& version_map::lookup(after.deltas, version) == Some(delta)
            &&& after.columnar == Some(storage)
            &&& after.authoritative
            &&& after.rows_version == Some(version)
            &&& reported_rows(after.rows) == row_count
            &&& reported_rows(after.published_rows) == row_count
            &&& after.snapshots == state.snapshots
            &&& forall|other: i64|
                other != version ==> #[trigger] version_map::lookup(after.handles, other)
                    == version_map::lookup(state.handles, other)
            &&& forall|other: i64|
                other != version ==> #[trigger] version_map::lookup(after.deltas, other)
                    == version_map::lookup(state.deltas, other)
        }),
{
    version_map::law_insert(state.handles, version, handle);
    version_map::law_insert(state.deltas, version, delta);
    let time = match state.watermark {
        Some(watermark) => micros_of(watermark),
        None => now,
    };
    version_map::law_insert(state.times, version, time);
    let counted = with_row_count(
        with_delta(with_handle(state, version, handle), version, delta),
        version,
        row_count,
    );
    let held = recorded(
        ViewState { columnar: Some(storage), authoritative: true, ..counted },
        version,
        now,
    );
    assert(held.times.skip(0) =~= held.times);
}

/// The time of a version is its watermark, a thousand microseconds to each millisecond, as far as
/// sixty-three bits go; without a watermark it is the time at which it was published.
pub proof fn law_time_of_a_version<B, C, P, W>(
    state: ViewState<B, C, P, W>,
    version: i64,
    now: i64,
)
    requires
        ordered(state),
        state.keep_last is None,
    ensures
        version_map::lookup(published(state, version, now).times, version) matches Some(time) && {
            &&& state.watermark is None ==> time == now
            &&& state.watermark matches Some(watermark) ==> time <= watermark * 1000 && (time
                == watermark * 1000 || time == i64::MAX)
        },
{
    let time = match state.watermark {
        Some(watermark) => micros_of(watermark),
        None => now,
    };
    version_map::law_insert(state.times, version, time);
    let held = recorded(state, version, now);
    assert(held.times.skip(0) =~= held.times);
}

/// The rows of batches are those of the first and those of the rest; one that is counted is told
/// again, up to the largest number that is kept.
pub proof fn law_rows_are_summed<B>(batches: Seq<Batch<B>>, more: Seq<Batch<B>>)
    ensures
        row_total(batches + more) == row_total(batches) + row_total(more),
        forall|batch: Batch<B>| #[trigger] row_total(seq![batch]) == batch.rows,
    decreases more.len(),
{
    assert forall|batch: Batch<B>| #[trigger] row_total(seq![batch]) == batch.rows by {
        assert(seq![batch].drop_last() =~= Seq::empty());
        assert(row_total(seq![batch].drop_last()) == 0);
    }
    if more.len() == 0 {
        assert(batches + more =~= batches);
    } else {
        law_rows_are_summed(batches, more.drop_last());
        assert((batches + more).drop_last() =~= batches + more.drop_last());
        assert((batches + more).last() == more.last());
    }
}

/// With a retention of the last `keep` versions the latest ones stay: as many as there are, but no
/// more than `keep`, and those that stay keep what is stored for them.
pub proof fn law_latest_versions_stay<B, C, P, W>(
    state: ViewState<B, C, P, W>,
    keep: usize,
    kept: i64,
)
    requires
        ordered(state),
        state.keep_last == Some(keep),
        keep > 0,
        version_map::lookup(pruned(state).times, kept) is Some,
    ensures
        ({
            let after = pruned(state);
            &&& after.times.len() == (if state.times.len() < keep {
                state.times.len()
            } else {
                keep as nat
            })
            &&& after.times == state.times.skip(state.times.len() - after.times.len())
            &&& version_map::lookup(after.handles, kept) == version_map::lookup(
                state.handles,
                kept,
            )
            &&& version_map::lookup(after.snapshots, kept) == version_map::lookup(
                state.snapshots,
                kept,
            )
            &&& version_map::lookup(after.deltas, kept) == version_map::lookup(state.deltas, kept)
            &&& version_map::lookup(after.work, kept) == version_map::lookup(state.work, kept)
        }),
{
    let gone = expired(state.times, state.keep_last);
    let n = gone.len() as int;
    let after = pruned(state);
    assert(after.times == state.times.skip(n));
    assert forall|i: int, j: int| 0 <= i < j < after.times.len() implies (
    #[trigger] after.times[i]).0 < (#[trigger] after.times[j]).0 by {
        assert(state.times[i + n].0 < state.times[j + n].0);
    }
    version_map::lemma_lookup(after.times, kept);
    let at = choose|i: int| 0 <= i < after.times.len() && (#[trigger] after.times[i]).0 == kept;
    assert forall|g: int| 0 <= g < gone.len() implies #[trigger] gone[g] != kept by {
        assert(state.times[g].0 < state.times[at + n].0);
    }
    lemma_kept_of_all(state.handles, gone, kept);
    lemma_kept_of_all(state.snapshots, gone, kept);
    lemma_kept_of_all(state.deltas, gone, kept);
    lemma_kept_of_all(state.work, gone, kept);
}

proof fn lemma_kept_of_all<T>(entries: Seq<(i64, T)>, gone: Seq<i64>, kept: i64)
    requires
        version_map::ascending(entries),
        forall|g: int| 0 <= g < gone.len() ==> #[trigger] gone[g] != kept,
    ensures
        version_map::ascending(without_all(entries, gone)),
        version_map::lookup(without_all(entries, gone), kept) == version_map::lookup(
            entries,
            kept,
        ),
    decreases gone.len(),
{
    if gone.len() > 0 {
        let front = gone.drop_last();
        assert forall|g: int| 0 <= g < front.len() implies #[trigger] front[g] != kept by {
            assert(front[g] == gone[g]);
        }
        lemma_kept_of_all(entries, front, kept);
        version_map::law_remove(without_all(entries, front), gone.last());
        assert(gone[gone.len() - 1] != kept);
    }
}

/// Looking a view up finds the one of the name, if there is one.
pub proof fn law_views_are_found_by_name<B, C, P, W>(
    views: Seq<ViewState<B, C, P, W>>,
    name: Seq<char>,
)
    ensures
        match find_view(views, name) {
            Some(at) => at < views.len() && views[at as int].name == name && forall|i: int|
                0 <= i < at ==> (#[trigger] views[i]).name != name,
            None => forall|i: int| 0 <= i < views.len() ==> (#[trigger] views[i]).name != name,
        },
    decreases views.len(),
{
    if views.len() > 0 {
        law_views_are_found_by_name(views.drop_last(), name);
        assert forall|i: int| 0 <= i < views.len() - 1 implies views[i] == (
        #[trigger] views.drop_last()[i]) by {}
        assert forall|i: int|
            0 <= i < views.len() - 1 && find_view(views.drop_last(), name) is None implies (
        #[trigger] views[i]).name != name by {
            assert(views.drop_last()[i] == views[i]);
        }
        if find_view(views.drop_last(), name) is Some {
            let at = find_view(views.drop_last(), name)->0;
            assert forall|i: int| 0 <= i < at implies (#[trigger] views[i]).name != name by {
                assert(views.drop_last()[i] == views[i]);
            }
        }
    }
}

/// Of schemas under one name the one that was told last counts.
pub proof fn law_last_schema_counts<S>(schemas: Seq<(Seq<char>, S)>, name: Seq<char>)
    ensures
        match find_schema(schemas, name) {
            Some(schema) => exists|i: int|
                {
                    &&& 0 <= i < schemas.len()
                    &&& #[trigger] schemas[i] == (name, schema)
                    &&& forall|j: int| i < j < schemas.len() ==> (#[trigger] schemas[j]).0 != name
                },
            None => forall|i: int|
                0 <= i < schemas.len() ==> (#[trigger] schemas[i]).0 != name,
        },
    decreases schemas.len(),
{
    if schemas.len() > 0 {
        let last = schemas.len() - 1;
        if schemas.last().0 == name {
            assert(schemas[last] == (name, schemas.last().1));
        } else {
            let front = schemas.drop_last();
            law_last_schema_counts(front, name);
            if find_schema(front, name) is Some {
                let schema = find_schema(front, name)->0;
                let i = choose|i: int|
                    {
                        &&& 0 <= i < front.len()
                        &&& #[trigger] front[i] == (name, schema)
                        &&& forall|j: int| i < j < front.len() ==> (#[trigger] front[j]).0 != name
                    };
                assert(schemas[i] == (name, schema));
                assert forall|j: int| i < j < schemas.len() implies (#[trigger] schemas[j]).0
                    != name by {
                    if j < last {
                        assert(front[j] == schemas[j]);
                    }
                }
            } else {
                assert forall|j: int| 0 <= j < schemas.len() implies (#[trigger] schemas[j]).0
                    != name by {
                    if j < last {
                        assert(front[j] == schemas[j]);
                    }
                }
            }
        }
    }
}

/// A time of the clock is told in microseconds; one that sixty-three bits do not hold, and one
/// before the beginning of the clock, is told as zero.
pub proof fn law_clock_times(passed: Option<u128>)
    ensures
        clock_micros(passed) >= 0,
        passed matches Some(micros) ==> clock_micros(passed) == micros || (clock_micros(passed) == 0
            && micros > 0x7fff_ffff_ffff_ffff),
        passed is None ==> clock_micros(passed) == 0,
{
}

} // verus!
