//! Changes of the sources, gathered and published source by source.

use vstd::prelude::*;

use crate::mv::registry::ZSetHandle;
use crate::materialized_view;
use crate::namespaces;
use crate::namespaces::{source as source_namespace, NamespaceError};
use crate::stream_types::Diff;
use crate::text::same_text;

verus! {

/// The stored changes of a source: where they are stored, and up to which version.
#[derive(Debug, PartialEq, Eq)]
pub struct OuterStreamHandle {
    pub source: String,
    pub namespace: String,
    pub version: u64,
}

/// How far the stored changes of a source are committed.
#[derive(Debug, PartialEq, Eq)]
pub struct OuterStreamCheckpoint {
    pub source: String,
    pub namespace: String,
    pub version: u64,
    pub frontier: i64,
}

/// Changes of a source that readers get as they come.
#[derive(Debug, PartialEq, Eq)]
pub struct TransientSourceBatch {
    pub source: String,
    pub version: i64,
    pub deltas: Vec<(Vec<u8>, Diff)>,
}

/// A row cannot be encoded.
#[derive(Clone, Copy, Debug, PartialEq, Eq, Structural)]
pub struct NotEncoded;

/// Changes as their bytes and numbers.
pub open spec fn delta_views(deltas: Seq<(Vec<u8>, Diff)>) -> Seq<(Seq<u8>, Diff)> {
    Seq::new(deltas.len(), |i: int| (deltas[i].0@, deltas[i].1))
}

/// A copy of changes.
fn clone_deltas(deltas: &Vec<(Vec<u8>, Diff)>) -> (copy: Vec<(Vec<u8>, Diff)>)
    ensures
        delta_views(copy@) == delta_views(deltas@),
{
    let mut copy: Vec<(Vec<u8>, Diff)> = Vec::new();
    let mut i: usize = 0;
    while i < deltas.len()
        invariant
            i <= deltas@.len(),
            copy@.len() == i,
            forall|j: int|
                0 <= j < i ==> (#[trigger] copy@[j]).0@ == deltas@[j].0@ && copy@[j].1
                    == deltas@[j].1,
        decreases deltas@.len() - i,
    {
        let key = deltas[i].0.clone();
        assert(key@ =~= deltas@[i as int].0@);
        copy.push((key, deltas[i].1));
        i = i + 1;
    }
    assert(delta_views(copy@) =~= delta_views(deltas@));
    copy
}

/// What a writer holds.
#[verifier::ext_equal]
pub struct WriterState {
    pub source: Seq<char>,
    pub namespace: Seq<char>,
    pub durable: bool,
    pub transient_version: i64,
    /// Changes that no reader got yet.
    pub pending: Seq<(Seq<u8>, Diff)>,
    pub pending_bytes: usize,
    /// Changes that are still to be stored.
    pub unstored: Seq<(Seq<u8>, Diff)>,
}

/// The number of bytes of a change: those of its key, and eight for the number.
pub open spec fn bytes_with(bytes: usize, key_len: nat) -> usize {
    if bytes + key_len + 8 <= usize::MAX {
        (bytes + key_len + 8) as usize
    } else {
        usize::MAX
    }
}

/// A writer after it took a change; a change of nothing is left out.
pub open spec fn appended(state: WriterState, key: Seq<u8>, diff: Diff) -> WriterState {
    if diff == 0 {
        state
    } else {
        WriterState {
            pending: state.pending.push((key, diff)),
            pending_bytes: bytes_with(state.pending_bytes, key.len()),
            unstored: if state.durable {
                state.unstored.push((key, diff))
            } else {
                state.unstored
            },
            ..state
        }
    }
}

/// The version under which pending changes are published.
pub open spec fn publish_version(state: WriterState, version: Option<i64>) -> i64 {
    match version {
        Some(given) => given,
        None => if state.pending.len() == 0 || state.transient_version == i64::MAX {
            state.transient_version
        } else {
            (state.transient_version + 1) as i64
        },
    }
}

/// Whether readers get a batch: of changes, or, where there are readers, for a given version.
pub open spec fn publishes(state: WriterState, version: Option<i64>, readers: bool) -> bool {
    state.pending.len() > 0 || (version is Some && readers)
}

/// A writer after it published.
pub open spec fn after_publish(
    state: WriterState,
    version: Option<i64>,
    readers: bool,
) -> WriterState {
    WriterState {
        transient_version: if publishes(state, version, readers) {
            publish_version(state, version)
        } else {
            state.transient_version
        },
        pending: Seq::empty(),
        pending_bytes: if state.pending.len() > 0 {
            0
        } else {
            state.pending_bytes
        },
        ..state
    }
}

/// What is to be done after a writer published.
#[derive(Debug, PartialEq, Eq)]
pub struct Publication {
    /// The batch for the readers.
    pub batch: Option<TransientSourceBatch>,
    /// The version of the handle, unless storing the changes gives it.
    pub version: Option<u64>,
}

/// Gathers the changes of a source.
pub struct OuterStreamWriter {
    source: String,
    namespace: String,
    durable_enabled: bool,
    transient_version: i64,
    pending_transient_deltas: Vec<(Vec<u8>, Diff)>,
    pending_transient_bytes: usize,
    unstored_deltas: Vec<(Vec<u8>, Diff)>,
}

impl View for OuterStreamWriter {
    type V = WriterState;

    closed spec fn view(&self) -> WriterState {
        WriterState {
            source: self.source@,
            namespace: self.namespace@,
            durable: self.durable_enabled,
            transient_version: self.transient_version,
            pending: delta_views(self.pending_transient_deltas@),
            pending_bytes: self.pending_transient_bytes,
            unstored: delta_views(self.unstored_deltas@),
        }
    }
}

impl OuterStreamWriter {
    /// A writer of a source that stores its changes under a namespace.
    pub fn new(source: String, namespace: String) -> (writer: Self)
        ensures
            writer@ == (WriterState {
                source: source@,
                namespace: namespace@,
                durable: true,
                transient_version: 0,
                pending: Seq::empty(),
                pending_bytes: 0,
                unstored: Seq::empty(),
            }),
    {
        let writer = OuterStreamWriter {
            source,
            namespace,
            durable_enabled: true,
            transient_version: 0,
            pending_transient_deltas: Vec::new(),
            pending_transient_bytes: 0,
            unstored_deltas: Vec::new(),
        };
        assert(writer@.pending =~= Seq::empty());
        assert(writer@.unstored =~= Seq::empty());
        writer
    }

    /// The name of the source.
    pub fn source(&self) -> (source: &str)
        ensures
            source@ == self@.source,
    {
        self.source.as_str()
    }

    /// Where the changes are stored.
    pub fn namespace(&self) -> (namespace: &str)
        ensures
            namespace@ == self@.namespace,
    {
        self.namespace.as_str()
    }

    /// Lets changes be stored, or not.
    pub fn set_durable_enabled(&mut self, enabled: bool)
        ensures
            final(self)@ == (WriterState { durable: enabled, ..old(self)@ }),
    {
        self.durable_enabled = enabled;
    }

    /// Whether changes are stored.
    pub fn durable_enabled(&self) -> (enabled: bool)
        ensures
            enabled == self@.durable,
    {
        self.durable_enabled
    }

    /// Takes a change of a row, of which the encoding is given if it has one; that of a change of
    /// nothing is not asked for.
    pub fn append(&mut self, encoded: Option<Vec<u8>>, diff: Diff) -> (result: Result<
        (),
        NotEncoded,
    >)
        ensures
            match encoded {
                _ if diff == 0 => result is Ok && final(self)@ == old(self)@,
                Some(key) => result is Ok && final(self)@ == appended(old(self)@, key@, diff),
                None => result is Err && final(self)@ == old(self)@,
            },
    {
        if diff == 0 {
            return Ok(());
        }
        match encoded {
            Some(key) => {
                self.append_encoded(key, diff);
                Ok(())
            },
            None => Err(NotEncoded),
        }
    }

    /// Takes a change of an encoded row.
    pub fn append_encoded(&mut self, key: Vec<u8>, diff: Diff)
        ensures
            final(self)@ == appended(old(self)@, key@, diff),
    {
        if diff == 0 {
            return;
        }
        let ghost before = self@;
        let ghost wanted = key@;
        let total: u128 = self.pending_transient_bytes as u128 + key.len() as u128 + 8;
        self.pending_transient_bytes = if total <= usize::MAX as u128 {
            total as usize
        } else {
            usize::MAX
        };
        if self.durable_enabled {
            let copy = key.clone();
            assert(copy@ =~= wanted);
            self.pending_transient_deltas.push((copy, diff));
            self.unstored_deltas.push((key, diff));
            assert(delta_views(self.unstored_deltas@) =~= before.unstored.push((wanted, diff)));
        } else {
            self.pending_transient_deltas.push((key, diff));
        }
        assert(delta_views(self.pending_transient_deltas@) =~= before.pending.push(
            (wanted, diff),
        ));
    }

    /// The changes that no reader got yet, as a batch of a version; without changes and without
    /// readers there is none.
    pub fn pending_transient_batch(&self, version: i64, has_subscribers: bool) -> (batch: Option<
        TransientSourceBatch,
    >)
        ensures
            match batch {
                Some(found) => {
                    &&& self@.pending.len() > 0 || has_subscribers
                    &&& found.source@ == self@.source
                    &&& found.version == version
                    &&& delta_views(found.deltas@) == self@.pending
                },
                None => self@.pending.len() == 0 && !has_subscribers,
            },
    {
        if self.pending_transient_deltas.len() == 0 && !has_subscribers {
            return None;
        }
        let deltas = clone_deltas(&self.pending_transient_deltas);
        Some(TransientSourceBatch { source: self.source.clone(), version, deltas })
    }

    /// Publishes the pending changes, under a given version or under the next one.
    ///
    /// Readers get a batch of the changes; for a given version they get one even without
    /// changes. Where changes are stored, storing them gives the version of the handle; else it
    /// is the published version, not below zero.
    pub fn publish_pending_batch(&mut self, version: Option<i64>, has_subscribers: bool) -> (
    published: Publication)
        ensures
            final(self)@ == after_publish(old(self)@, version, has_subscribers),
            match published.batch {
                Some(batch) => {
                    &&& publishes(old(self)@, version, has_subscribers)
                    &&& batch.source@ == old(self)@.source
                    &&& batch.version == publish_version(old(self)@, version)
                    &&& delta_views(batch.deltas@) == old(self)@.pending
                },
                None => !publishes(old(self)@, version, has_subscribers),
            },
            published.version == (if old(self)@.durable {
                None
            } else if publish_version(old(self)@, version) < 0 {
                Some(0u64)
            } else {
                Some(publish_version(old(self)@, version) as u64)
            }),
    {
        let ghost before = self@;
        let changed: bool = self.pending_transient_deltas.len() > 0;
        let published_version: i64 = match version {
            Some(given) => given,
            None => if !changed || self.transient_version == i64::MAX {
                self.transient_version
            } else {
                self.transient_version + 1
            },
        };
        let empty_batch: bool = version.is_some() && !changed && has_subscribers;
        let mut batch: Option<TransientSourceBatch> = None;
        if changed {
            self.transient_version = published_version;
            let mut deltas: Vec<(Vec<u8>, Diff)> = Vec::new();
            std::mem::swap(&mut deltas, &mut self.pending_transient_deltas);
            self.pending_transient_bytes = 0;
            batch =
            Some(
                TransientSourceBatch {
                    source: self.source.clone(),
                    version: published_version,
                    deltas,
                },
            );
        } else if empty_batch {
            self.transient_version = published_version;
            let deltas: Vec<(Vec<u8>, Diff)> = Vec::new();
            assert(delta_views(deltas@) =~= before.pending);
            batch =
            Some(
                TransientSourceBatch {
                    source: self.source.clone(),
                    version: published_version,
                    deltas,
                },
            );
        }
        assert(delta_views(self.pending_transient_deltas@) =~= Seq::empty());
        let version: Option<u64> = if self.durable_enabled {
            None
        } else if published_version < 0 {
            Some(0)
        } else {
            Some(published_version as u64)
        };
        Publication { batch, version }
    }

    /// Hands a batch of an earlier run to the readers again.
    pub fn replay_transient_batch(&mut self, version: i64, deltas: Vec<(Vec<u8>, Diff)>) -> (batch:
        TransientSourceBatch)
        ensures
            final(self)@ == (WriterState {
                transient_version: if old(self)@.transient_version < version {
                    version
                } else {
                    old(self)@.transient_version
                },
                ..old(self)@
            }),
            batch.source@ == old(self)@.source,
            batch.version == version,
            batch.deltas == deltas,
    {
        if self.transient_version < version {
            self.transient_version = version;
        }
        TransientSourceBatch { source: self.source.clone(), version, deltas }
    }

    /// Hands out the changes that are still to be stored.
    pub fn take_unstored(&mut self) -> (deltas: Vec<(Vec<u8>, Diff)>)
        ensures
            delta_views(deltas@) == old(self)@.unstored,
            final(self)@ == (WriterState { unstored: Seq::empty(), ..old(self)@ }),
    {
        let mut deltas: Vec<(Vec<u8>, Diff)> = Vec::new();
        std::mem::swap(&mut deltas, &mut self.unstored_deltas);
        assert(self@.unstored =~= Seq::empty());
        deltas
    }

    /// The handle of the stored changes at a version.
    pub fn handle_at(&self, version: u64) -> (handle: OuterStreamHandle)
        ensures
            handle.source@ == self@.source,
            handle.namespace@ == self@.namespace,
            handle.version == version,
    {
        OuterStreamHandle {
            source: self.source.clone(),
            namespace: self.namespace.clone(),
            version,
        }
    }
}

/// Changes in one batch are those that were taken since the last one, in their order, without
/// changes of nothing.
pub proof fn law_appended_changes_are_published(
    state: WriterState,
    changes: Seq<(Seq<u8>, Diff)>,
)
    requires
        forall|i: int| 0 <= i < changes.len() ==> (#[trigger] changes[i]).1 != 0,
    ensures
        appended_all(state, changes, changes.len()).pending == state.pending + changes,
        appended_all(state, changes, changes.len()).unstored == (if state.durable {
            state.unstored + changes
        } else {
            state.unstored
        }),
        appended_all(state, changes, changes.len()).durable == state.durable,
    decreases changes.len(),
{
    if changes.len() == 0 {
        assert(state.pending + changes =~= state.pending);
        assert(state.unstored + changes =~= state.unstored);
    } else {
        let front = changes.drop_last();
        assert forall|i: int| 0 <= i < front.len() implies (#[trigger] front[i]).1 != 0 by {
            assert(front[i] == changes[i]);
        }
        law_appended_changes_are_published(state, front);
        lemma_appended_all_prefix(state, changes, front, front.len());
        assert(changes[changes.len() - 1].1 != 0);
        assert(state.pending + changes =~= (state.pending + front).push(changes.last()));
        assert(state.unstored + changes =~= (state.unstored + front).push(changes.last()));
    }
}

/// A writer after it took the first `n` changes.
pub open spec fn appended_all(
    state: WriterState,
    changes: Seq<(Seq<u8>, Diff)>,
    n: nat,
) -> WriterState
    decreases n,
{
    if n == 0 {
        state
    } else {
        appended(appended_all(state, changes, (n - 1) as nat), changes[n - 1].0, changes[n - 1].1)
    }
}

proof fn lemma_appended_all_prefix(
    state: WriterState,
    changes: Seq<(Seq<u8>, Diff)>,
    front: Seq<(Seq<u8>, Diff)>,
    n: nat,
)
    requires
        n <= changes.len(),
        n <= front.len(),
        forall|i: int| 0 <= i < n ==> changes[i] == front[i],
    ensures
        appended_all(state, changes, n) == appended_all(state, front, n),
    decreases n,
{
    if n > 0 {
        lemma_appended_all_prefix(state, changes, front, (n - 1) as nat);
    }
}

/// A name occurs among the first `n` sources.
pub open spec fn named_before(sources: Seq<String>, name: Seq<char>, n: int) -> bool {
    exists|i: int| 0 <= i < n && i < sources.len() && (#[trigger] sources[i])@ == name
}

/// The writers of the first `n` sources, one per name in the order of the names, or the first
/// name that makes no namespace.
pub open spec fn planned_writers(sources: Seq<String>, n: nat) -> Result<
    Seq<(Seq<char>, Seq<char>)>,
    NamespaceError,
>
    decreases n,
{
    if n == 0 {
        Ok(Seq::empty())
    } else {
        match planned_writers(sources, (n - 1) as nat) {
            Err(error) => Err(error),
            Ok(front) => {
                let name = sources[n - 1]@;
                if named_before(sources, name, n - 1) {
                    Ok(front)
                } else {
                    match namespaces::source_namespace(name) {
                        Err(error) => Err(error),
                        Ok(namespace) => Ok(front.push((name, namespace))),
                    }
                }
            },
        }
    }
}

proof fn lemma_planned_writers_ended(sources: Seq<String>, n: nat, m: nat)
    requires
        planned_writers(sources, n) is Err,
        n <= m,
    ensures
        planned_writers(sources, m) == planned_writers(sources, n),
    decreases m,
{
    if n < m {
        lemma_planned_writers_ended(sources, n, (m - 1) as nat);
    }
}

/// Writers as the names of their sources and their namespaces.
pub open spec fn writer_names(writers: Seq<OuterStreamWriter>) -> Seq<(Seq<char>, Seq<char>)> {
    Seq::new(writers.len(), |i: int| (writers[i]@.source, writers[i]@.namespace))
}

/// Where the storage has the stream of a source: its last collection and how far it is committed.
#[derive(Debug)]
pub struct StreamPosition {
    pub handle: ZSetHandle,
    pub frontier: i64,
}

/// What a checkpoint keeps of the stream of a writer at a position.
pub open spec fn is_checkpoint_of(
    state: OuterStreamCheckpoint,
    writer: WriterState,
    position: StreamPosition,
) -> bool {
    &&& state.source@ == writer.source
    &&& state.namespace@ == position.handle.ns@
    &&& state.version == position.handle.version
    &&& state.frontier == position.frontier
}

/// What writers hold.
pub open spec fn writer_states(writers: Seq<OuterStreamWriter>) -> Seq<WriterState> {
    Seq::new(writers.len(), |i: int| writers[i]@)
}

/// The sources of writers.
pub open spec fn sources_of(writers: Seq<WriterState>) -> Seq<Seq<char>> {
    Seq::new(writers.len(), |i: int| writers[i].source)
}

/// The writers after a change of a row of a source, of which the encoding is given if it has one:
/// the writer of the source, if there is one, takes it, and fails where it has no encoding.
pub open spec fn appended_row(
    writers: Seq<WriterState>,
    source: Seq<char>,
    encoded: Option<Seq<u8>>,
    diff: Diff,
) -> Result<Seq<WriterState>, NotEncoded> {
    match materialized_view::first_named(sources_of(writers), source, writers.len()) {
        Some(at) if diff != 0 => match encoded {
            Some(key) => Ok(
                writers.update(at as int, appended(writers[at as int], key, diff)),
            ),
            None => Err(NotEncoded),
        },
        _ => Ok(writers),
    }
}

/// The encoding of a row as its bytes.
pub open spec fn encoding_view(encoded: Option<Vec<u8>>) -> Option<Seq<u8>> {
    match encoded {
        Some(key) => Some(key@),
        None => None,
    }
}

/// The first of names is the one before which there is no other.
proof fn lemma_first_source(names: Seq<Seq<char>>, name: Seq<char>, at: Option<usize>, n: nat)
    requires
        n <= names.len(),
        match at {
            Some(i) => i < n && names[i as int] == name && forall|j: int|
                0 <= j < i ==> (#[trigger] names[j]) != name,
            None => forall|j: int| 0 <= j < n ==> (#[trigger] names[j]) != name,
        },
    ensures
        materialized_view::first_named(names, name, n) == match at {
            Some(i) => Some(i as nat),
            None => None,
        },
    decreases n,
{
    if n > 0 {
        match at {
            Some(i) if i < n - 1 => {
                lemma_first_source(names, name, at, (n - 1) as nat);
            },
            _ => {
                lemma_first_source(names, name, None, (n - 1) as nat);
            },
        }
    }
}

/// The writers of the sources of a dataflow, one per source.
pub struct OuterStreamRegistry {
    writers: Vec<OuterStreamWriter>,
}

impl OuterStreamRegistry {
    /// The writers.
    pub closed spec fn writers(&self) -> Seq<OuterStreamWriter> {
        self.writers@
    }

    /// Writers of sources, one per source.
    pub fn from_sources(sources: Vec<String>) -> (registry: Result<Self, NamespaceError>)
        ensures
            match registry {
                Ok(made) => {
                    &&& planned_writers(sources@, sources@.len()) == Ok::<
                        Seq<(Seq<char>, Seq<char>)>,
                        NamespaceError,
                    >(writer_names(made.writers()))
                    &&& forall|i: int|
                        0 <= i < made.writers().len() ==> (#[trigger] made.writers()[i])@
                            == (WriterState {
                            source: made.writers()[i]@.source,
                            namespace: made.writers()[i]@.namespace,
                            durable: true,
                            transient_version: 0,
                            pending: Seq::empty(),
                            pending_bytes: 0,
                            unstored: Seq::empty(),
                        })
                },
                Err(error) => planned_writers(sources@, sources@.len()) == Err::<
                    Seq<(Seq<char>, Seq<char>)>,
                    NamespaceError,
                >(error),
            },
    {
        let mut writers: Vec<OuterStreamWriter> = Vec::new();
        let mut i: usize = 0;
        assert(writer_names(writers@) =~= Seq::<(Seq<char>, Seq<char>)>::empty());
        while i < sources.len()
            invariant
                i <= sources@.len(),
                planned_writers(sources@, i as nat) == Ok::<
                    Seq<(Seq<char>, Seq<char>)>,
                    NamespaceError,
                >(writer_names(writers@)),
                forall|j: int|
                    0 <= j < writers@.len() ==> (#[trigger] writers@[j])@ == (WriterState {
                        source: writers@[j]@.source,
                        namespace: writers@[j]@.namespace,
                        durable: true,
                        transient_version: 0,
                        pending: Seq::empty(),
                        pending_bytes: 0,
                        unstored: Seq::empty(),
                    }),
            decreases sources@.len() - i,
        {
            let mut seen: bool = false;
            let mut k: usize = 0;
            while k < i
                invariant
                    k <= i,
                    i < sources@.len(),
                    seen == named_before(sources@, sources@[i as int]@, k as int),
                decreases i - k,
            {
                if same_text(sources[k].as_str(), sources[i].as_str()) {
                    assert(sources@[k as int]@ == sources@[i as int]@);
                    seen = true;
                }
                proof {
                    let name = sources@[i as int]@;
                    if named_before(sources@, name, k as int) {
                        let w = choose|w: int|
                            0 <= w < k && w < sources@.len() && (#[trigger] sources@[w])@ == name;
                        assert(sources@[w]@ == name);
                        assert(named_before(sources@, name, k + 1));
                    }
                    if named_before(sources@, name, k + 1) && sources@[k as int]@ != name {
                        let w = choose|w: int|
                            0 <= w < k + 1 && w < sources@.len() && (#[trigger] sources@[w])@
                                == name;
                        assert(w != k);
                        assert(named_before(sources@, name, k as int));
                    }
                }
                k = k + 1;
            }
            if !seen {
                match source_namespace(sources[i].as_str()) {
                    Ok(namespace) => {
                        let ghost before = writer_names(writers@);
                        let writer = OuterStreamWriter::new(sources[i].clone(), namespace);
                        writers.push(writer);
                        assert(writer_names(writers@) =~= before.push(
                            (sources@[i as int]@, namespace@),
                        ));
                    },
                    Err(error) => {
                        proof {
                            lemma_planned_writers_ended(
                                sources@,
                                (i + 1) as nat,
                                sources@.len(),
                            );
                        }
                        return Err(error);
                    },
                }
            }
            i = i + 1;
        }
        Ok(OuterStreamRegistry { writers })
    }

    /// Hands a change of a row of a source to its writer, if there is one.
    pub fn append(&mut self, source: &str, encoded: Option<Vec<u8>>, diff: Diff) -> (result: Result<
        (),
        NotEncoded,
    >)
        ensures
            match appended_row(
                writer_states(old(self).writers()),
                source@,
                encoding_view(encoded),
                diff,
            ) {
                Ok(after) => result is Ok && writer_states(final(self).writers()) == after,
                Err(_) => {
                    &&& result is Err
                    &&& writer_states(final(self).writers()) == writer_states(old(self).writers())
                },
            },
    {
        let found = self.find(source);
        let ghost before = writer_states(self.writers());
        proof {
            let names = sources_of(before);
            assert forall|j: int| 0 <= j < names.len() implies names[j] == (
            #[trigger] self.writers()[j])@.source by {}
            match found {
                Some(at) => {
                    assert(names[at as int] == source@);
                    assert forall|j: int| 0 <= j < at implies (#[trigger] names[j]) != source@ by {
                        assert(self.writers()[j]@.source != source@);
                    }
                },
                None => {
                    assert forall|j: int| 0 <= j < names.len() implies (#[trigger] names[j])
                        != source@ by {
                        assert(self.writers()[j]@.source != source@);
                    }
                },
            }
            lemma_first_source(names, source@, found, names.len());
        }
        match found {
            Some(at) => {
                let result = self.writer_mut(at).append(encoded, diff);
                assert(writer_states(self.writers()) =~= before.update(
                    at as int,
                    self.writers()[at as int]@,
                ));
                assert(before.update(at as int, before[at as int]) =~= before);
                result
            },
            None => Ok(()),
        }
    }

    /// What a checkpoint keeps of each stream, from where the storage has them.
    pub fn checkpoint_state(&self, positions: &Vec<StreamPosition>) -> (states: Vec<
        OuterStreamCheckpoint,
    >)
        requires
            positions@.len() == self.writers().len(),
        ensures
            states@.len() == self.writers().len(),
            forall|i: int|
                0 <= i < states@.len() ==> is_checkpoint_of(
                    #[trigger] states@[i],
                    self.writers()[i]@,
                    positions@[i],
                ),
    {
        let mut states: Vec<OuterStreamCheckpoint> = Vec::new();
        let mut i: usize = 0;
        while i < self.writers.len()
            invariant
                i <= self.writers@.len(),
                positions@.len() == self.writers@.len(),
                states@.len() == i,
                forall|j: int|
                    0 <= j < i ==> is_checkpoint_of(
                        #[trigger] states@[j],
                        self.writers@[j]@,
                        positions@[j],
                    ),
            decreases self.writers@.len() - i,
        {
            states.push(
                OuterStreamCheckpoint {
                    source: self.writers[i].source.clone(),
                    namespace: positions[i].handle.ns.clone(),
                    version: positions[i].handle.version,
                    frontier: positions[i].frontier,
                },
            );
            i = i + 1;
        }
        states
    }

    /// The number of writers.
    pub fn len(&self) -> (count: usize)
        ensures
            count == self.writers().len(),
    {
        self.writers.len()
    }

    /// Whether there is no writer.
    pub fn is_empty(&self) -> (empty: bool)
        ensures
            empty == (self.writers().len() == 0),
    {
        self.writers.len() == 0
    }

    /// The position of the writer of a source.
    pub fn find(&self, source: &str) -> (at: Option<usize>)
        ensures
            match at {
                Some(i) => {
                    &&& i < self.writers().len()
                    &&& self.writers()[i as int]@.source == source@
                    &&& forall|j: int|
                        0 <= j < i ==> (#[trigger] self.writers()[j])@.source != source@
                },
                None => forall|j: int|
                    0 <= j < self.writers().len() ==> (#[trigger] self.writers()[j])@.source
                        != source@,
            },
    {
        let mut i: usize = 0;
        while i < self.writers.len()
            invariant
                i <= self.writers@.len(),
                forall|j: int| 0 <= j < i ==> (#[trigger] self.writers@[j])@.source != source@,
            decreases self.writers@.len() - i,
        {
            if same_text(self.writers[i].source(), source) {
                return Some(i);
            }
            i = i + 1;
        }
        None
    }

    /// A writer by its position.
    pub fn writer(&self, at: usize) -> (writer: &OuterStreamWriter)
        requires
            at < self.writers().len(),
        ensures
            *writer == self.writers()[at as int],
    {
        &self.writers[at]
    }

    /// A writer by its position, to be changed.
    pub fn writer_mut(&mut self, at: usize) -> (writer: &mut OuterStreamWriter)
        requires
            at < old(self).writers().len(),
        ensures
            *writer == old(self).writers()[at as int],
            final(self).writers() == old(self).writers().update(at as int, *final(writer)),
    {
        &mut self.writers[at]
    }

    /// Lets changes of a source be stored, or not; a source without a writer is left out.
    pub fn set_durable_enabled(&mut self, source: &str, enabled: bool)
        ensures
            final(self).writers().len() == old(self).writers().len(),
            forall|i: int|
                0 <= i < old(self).writers().len() ==> (#[trigger] final(self).writers()[i])@ == (
                if old(self).writers()[i]@.source == source@ && (forall|j: int|
                    0 <= j < i ==> (#[trigger] old(self).writers()[j])@.source != source@) {
                    WriterState { durable: enabled, ..old(self).writers()[i]@ }
                } else {
                    old(self).writers()[i]@
                }),
    {
        match self.find(source) {
            Some(at) => {
                self.writers[at].set_durable_enabled(enabled);
            },
            None => {},
        }
    }
}

/// A change that a writer takes stands behind those it took before, for its readers and, where
/// changes are stored, for the storage; its key and eight bytes more are counted.
pub proof fn law_change_is_gathered(state: WriterState, key: Seq<u8>, diff: Diff)
    requires
        diff != 0,
    ensures
        ({
            let after = appended(state, key, diff);
            &&& after.pending == state.pending + seq![(key, diff)]
            &&& state.durable ==> after.unstored == state.unstored + seq![(key, diff)]
            &&& !state.durable ==> after.unstored == state.unstored
            &&& after.pending_bytes - state.pending_bytes == key.len() + 8
                || after.pending_bytes == usize::MAX && key.len() + 8 > usize::MAX
                - state.pending_bytes
            &&& after.source == state.source
            &&& after.namespace == state.namespace
            &&& after.transient_version == state.transient_version
            &&& appended(state, key, 0) == state
        }),
{
    assert(state.pending.push((key, diff)) =~= state.pending + seq![(key, diff)]);
    assert(state.unstored.push((key, diff)) =~= state.unstored + seq![(key, diff)]);
}

/// Versions that no one gives count up: a batch of changes has the version behind the last one,
/// and without changes nothing is published.
pub proof fn law_versions_count_up(state: WriterState, readers: bool)
    requires
        state.transient_version < i64::MAX,
    ensures
        ({
            let after = after_publish(state, None, readers);
            &&& after.transient_version == state.transient_version + (if state.pending.len() > 0 {
                1int
            } else {
                0int
            })
            &&& publishes(state, None, readers) <==> state.pending.len() > 0
            &&& publishes(state, None, readers) ==> publish_version(state, None)
                == after.transient_version
        }),
{
}

/// After a writer published no change waits for readers, and those that are to be stored still
/// are; a version that is given is the one that readers get.
pub proof fn law_published_changes_are_gone(
    state: WriterState,
    version: Option<i64>,
    readers: bool,
)
    ensures
        ({
            let after = after_publish(state, version, readers);
            &&& after.pending.len() == 0
            &&& state.pending.len() > 0 ==> after.pending_bytes == 0
            &&& after.unstored == state.unstored
            &&& after.source == state.source
            &&& after.namespace == state.namespace
            &&& after.durable == state.durable
            &&& !publishes(after, None, readers)
            &&& version matches Some(given) ==> {
                &&& publish_version(state, version) == given
                &&& publishes(state, version, readers) <==> state.pending.len() > 0 || readers
                &&& publishes(state, version, readers) ==> after.transient_version == given
                &&& !publishes(state, version, readers) ==> after.transient_version
                    == state.transient_version
            }
        }),
{
}

/// Each source has one writer, whose namespace is that of the source; and each writer is one of a
/// source.
#[verifier::rlimit(40)]
pub proof fn law_each_source_has_one_writer(sources: Seq<String>, n: nat)
    requires
        n <= sources.len(),
        planned_writers(sources, n) is Ok,
    ensures
        ({
            let writers = planned_writers(sources, n)->Ok_0;
            &&& forall|i: int|
                0 <= i < n ==> exists|w: int|
                    0 <= w < writers.len() && #[trigger] writers[w].0 == (
                    #[trigger] sources[i])@
            &&& forall|w: int|
                0 <= w < writers.len() ==> named_before(
                    sources,
                    (#[trigger] writers[w]).0,
                    n as int,
                ) && namespaces::source_namespace(writers[w].0) == Ok::<
                    Seq<char>,
                    NamespaceError,
                >(writers[w].1)
            &&& forall|v: int, w: int|
                0 <= v < w < writers.len() ==> (#[trigger] writers[v]).0 != (
                #[trigger] writers[w]).0
        }),
    decreases n,
{
    if n > 0 {
        law_each_source_has_one_writer(sources, (n - 1) as nat);
        let front = planned_writers(sources, (n - 1) as nat)->Ok_0;
        let writers = planned_writers(sources, n)->Ok_0;
        let name = sources[n - 1]@;
        assert forall|w: int| 0 <= w < writers.len() implies named_before(
            sources,
            (#[trigger] writers[w]).0,
            n as int,
        ) && namespaces::source_namespace(writers[w].0) == Ok::<Seq<char>, NamespaceError>(
            writers[w].1,
        ) by {
            if w < front.len() {
                assert(front[w] == writers[w]);
                let i = choose|i: int|
                    0 <= i < n - 1 && i < sources.len() && (#[trigger] sources[i])@ == front[w].0;
                assert(sources[i]@ == writers[w].0);
            } else {
                assert(sources[n - 1]@ == writers[w].0);
            }
        }
        assert forall|v: int, w: int| 0 <= v < w < writers.len() implies (
        #[trigger] writers[v]).0 != (#[trigger] writers[w]).0 by {
            assert(front[v] == writers[v]);
            if w < front.len() {
                assert(front[w] == writers[w]);
            } else {
                assert(named_before(sources, front[v].0, n - 1));
            }
        }
        assert forall|i: int| 0 <= i < n implies exists|w: int|
            0 <= w < writers.len() && #[trigger] writers[w].0 == (#[trigger] sources[i])@ by {
            if i < n - 1 {
                let w = choose|w: int|
                    0 <= w < front.len() && #[trigger] front[w].0 == sources[i]@;
                assert(writers[w].0 == sources[i]@);
            } else if named_before(sources, name, n - 1) {
                let k = choose|k: int|
                    0 <= k < n - 1 && k < sources.len() && (#[trigger] sources[k])@ == name;
                let w = choose|w: int|
                    0 <= w < front.len() && #[trigger] front[w].0 == sources[k]@;
                assert(writers[w].0 == sources[i]@);
            } else {
                assert(writers[front.len() as int].0 == sources[i]@);
            }
        }
    }
}

/// A row of a source goes to the writer of that source and to no other; one of a source without a
/// writer, and a change of nothing, go nowhere.
pub proof fn law_row_goes_to_the_writer_of_its_source(
    writers: Seq<WriterState>,
    source: Seq<char>,
    key: Seq<u8>,
    diff: Diff,
)
    ensures
        appended_row(writers, source, Some(key), diff) matches Ok(after) && {
            &&& after.len() == writers.len()
            &&& diff == 0 ==> after == writers
            &&& forall|w: int|
                0 <= w < writers.len() && (#[trigger] writers[w]).source != source ==> after[w]
                    == writers[w]
            &&& diff != 0 ==> forall|w: int|
                0 <= w < writers.len() && (#[trigger] writers[w]).source == source && (forall|
                    v: int,
                |
                    0 <= v < w ==> (#[trigger] writers[v]).source != source)
                    ==> after[w].pending == writers[w].pending + seq![(key, diff)]
        },
{
    let names = sources_of(writers);
    lemma_first_source_of(writers, source, writers.len());
    match materialized_view::first_named(names, source, writers.len()) {
        Some(at) => {
            if diff != 0 {
                law_change_is_gathered(writers[at as int], key, diff);
                let after = writers.update(
                    at as int,
                    appended(writers[at as int], key, diff),
                );
                assert forall|w: int|
                    0 <= w < writers.len() && (#[trigger] writers[w]).source == source && (
                    forall|v: int| 0 <= v < w ==> (#[trigger] writers[v]).source
                        != source) implies after[w].pending == writers[w].pending + seq![
                    (key, diff),
                ] by {
                    if at < w {
                        assert(writers[at as int].source == source);
                    }
                }
            }
        },
        None => {},
    }
}

proof fn lemma_first_source_of(writers: Seq<WriterState>, source: Seq<char>, n: nat)
    requires
        n <= writers.len(),
    ensures
        match materialized_view::first_named(sources_of(writers), source, n) {
            Some(at) => at < n && writers[at as int].source == source && forall|v: int|
                0 <= v < at ==> (#[trigger] writers[v]).source != source,
            None => forall|v: int| 0 <= v < n ==> (#[trigger] writers[v]).source != source,
        },
    decreases n,
{
    if n > 0 {
        lemma_first_source_of(writers, source, (n - 1) as nat);
        assert(sources_of(writers)[n - 1] == writers[n - 1].source);
    }
}

} // verus!
