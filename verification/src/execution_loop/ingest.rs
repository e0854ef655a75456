//! Rows on their way from sources to scans.

use vstd::prelude::*;

use crate::name_map::NameMap;
use crate::stream_types::{Diff, Timestamp};
use crate::text::same_text;
use crate::values::Row;

verus! {

/// Identifies the stream of rows of a scan.
#[derive(Clone, Copy, Debug, PartialEq, Eq, Hash, Structural)]
pub struct RowStreamHandle(pub usize);

/// A decoded row ready to go into the stream of a scan.
#[derive(Debug, PartialEq, Eq)]
pub struct IngestedRow {
    pub source: String,
    pub handle: RowStreamHandle,
    pub row: Row,
    pub diff: Diff,
    pub timestamp: Timestamp,
}

/// Why a row did not go into the stream of a scan.
#[derive(Debug, PartialEq, Eq)]
pub enum IngestError<E> {
    /// There is no source of the name.
    UnknownSource,
    /// A scan of the source is registered already.
    AlreadyRegistered,
    /// No scan of the source is registered.
    NoScan,
    /// The event could not be decoded.
    Decode(E),
}

/// Some source has this name.
pub open spec fn known(sources: Seq<String>, name: Seq<char>) -> bool {
    exists|i: int| 0 <= i < sources.len() && (#[trigger] sources[i])@ == name
}

/// The scans that are registered for the sources.
#[derive(Debug)]
pub struct ScanRuntime {
    pub sources: Vec<String>,
    pub bindings: NameMap<RowStreamHandle>,
    pub default_diff: Diff,
}

impl ScanRuntime {
    /// No scans are registered for these sources.
    pub fn new(sources: Vec<String>) -> (runtime: Self)
        ensures
            runtime.sources == sources,
            runtime.bindings@ == Map::<Seq<char>, RowStreamHandle>::empty(),
            runtime.default_diff == 1,
    {
        ScanRuntime { sources, bindings: NameMap::new(), default_diff: 1 }
    }

    /// Whether there is a source of a name.
    fn is_source(&self, name: &str) -> (found: bool)
        ensures
            found == known(self.sources@, name@),
    {
        let mut i: usize = 0;
        while i < self.sources.len()
            invariant
                i <= self.sources@.len(),
                forall|j: int| 0 <= j < i ==> (#[trigger] self.sources@[j])@ != name@,
            decreases self.sources@.len() - i,
        {
            if same_text(self.sources[i].as_str(), name) {
                assert(self.sources@[i as int]@ == name@);
                return true;
            }
            i = i + 1;
        }
        false
    }

    /// Registers the stream of a scan of a source. A second one takes the place of the first,
    /// and is answered with an error.
    pub fn register_scan(&mut self, source_name: String, handle: RowStreamHandle) -> (result:
        Result<(), IngestError<()>>)
        ensures
            final(self).sources == old(self).sources,
            final(self).default_diff == old(self).default_diff,
            if !known(old(self).sources@, source_name@) {
                &&& result == Err::<(), IngestError<()>>(IngestError::UnknownSource)
                &&& final(self).bindings@ == old(self).bindings@
            } else {
                &&& final(self).bindings@ == old(self).bindings@.insert(source_name@, handle)
                &&& result == (if old(self).bindings@.dom().contains(source_name@) {
                    Err::<(), IngestError<()>>(IngestError::AlreadyRegistered)
                } else {
                    Ok::<(), IngestError<()>>(())
                })
            },
    {
        if !self.is_source(source_name.as_str()) {
            return Err(IngestError::UnknownSource);
        }
        if self.bindings.insert(source_name, handle) {
            return Err(IngestError::AlreadyRegistered);
        }
        Ok(())
    }

    /// Routes a decoded event of a source to its scan; an event without a timestamp of its own
    /// gets the fallback.
    pub fn ingest_event<E>(
        &self,
        source: String,
        decoded: Result<(Row, Option<Timestamp>), E>,
        fallback_timestamp: Timestamp,
    ) -> (ingested: Result<IngestedRow, IngestError<E>>)
        ensures
            ingested == (if !self.bindings@.dom().contains(source@) {
                Err(IngestError::NoScan)
            } else {
                match decoded {
                    Err(error) => Err(IngestError::Decode(error)),
                    Ok(event) => Ok(
                        (IngestedRow {
                            source,
                            handle: self.bindings@[source@],
                            row: event.0,
                            diff: self.default_diff,
                            timestamp: match event.1 {
                                Some(timestamp) => timestamp,
                                None => fallback_timestamp,
                            },
                        }),
                    ),
                }
            }),
            ingested == event_ingested(
                self.bindings@,
                self.default_diff,
                source,
                decoded,
                fallback_timestamp,
            ),
    {
        let handle: RowStreamHandle = match self.bindings.get(source.as_str()) {
            Some(handle) => *handle,
            None => {
                return Err(IngestError::NoScan);
            },
        };
        match decoded {
            Err(error) => Err(IngestError::Decode(error)),
            Ok((row, event_timestamp)) => {
                let timestamp: Timestamp = match event_timestamp {
                    Some(timestamp) => timestamp,
                    None => fallback_timestamp,
                };
                Ok(IngestedRow { source, handle, row, diff: self.default_diff, timestamp })
            },
        }
    }
}

/// The scans of a running dataflow.
#[derive(Debug)]
pub struct ExecutionRuntime {
    pub scan_runtime: ScanRuntime,
}

/// The scans after the first `n` bindings were registered, one by one up to the first that
/// fails, and that failure.
pub open spec fn bound(
    sources: Seq<String>,
    scans: Map<Seq<char>, RowStreamHandle>,
    bindings: Seq<(String, RowStreamHandle)>,
    n: nat,
) -> (Map<Seq<char>, RowStreamHandle>, Result<(), IngestError<()>>)
    decreases n,
{
    if n == 0 {
        (scans, Ok(()))
    } else {
        let (before, result) = bound(sources, scans, bindings, (n - 1) as nat);
        if result is Err {
            (before, result)
        } else {
            let name = bindings[n - 1].0@;
            if !known(sources, name) {
                (before, Err(IngestError::UnknownSource))
            } else {
                (
                    before.insert(name, bindings[n - 1].1),
                    if before.dom().contains(name) {
                        Err(IngestError::AlreadyRegistered)
                    } else {
                        Ok(())
                    },
                )
            }
        }
    }
}

/// After a failure, later bindings do not matter.
proof fn lemma_binding_ended(
    sources: Seq<String>,
    scans: Map<Seq<char>, RowStreamHandle>,
    bindings: Seq<(String, RowStreamHandle)>,
    n: nat,
    m: nat,
)
    requires
        bound(sources, scans, bindings, n).1 is Err,
        n <= m,
    ensures
        bound(sources, scans, bindings, m) == bound(sources, scans, bindings, n),
    decreases m,
{
    if n < m {
        lemma_binding_ended(sources, scans, bindings, n, (m - 1) as nat);
    }
}

impl ExecutionRuntime {
    /// Runs these scans.
    pub fn new(scan_runtime: ScanRuntime) -> (runtime: Self)
        ensures
            runtime.scan_runtime == scan_runtime,
    {
        ExecutionRuntime { scan_runtime }
    }

    /// Registers the streams of scans, one by one up to the first that fails.
    pub fn register_bindings(&mut self, bindings: &Vec<(String, RowStreamHandle)>) -> (result:
        Result<(), IngestError<()>>)
        ensures
            final(self).scan_runtime.sources == old(self).scan_runtime.sources,
            final(self).scan_runtime.default_diff == old(self).scan_runtime.default_diff,
            (final(self).scan_runtime.bindings@, result) == bound(
                old(self).scan_runtime.sources@,
                old(self).scan_runtime.bindings@,
                bindings@,
                bindings@.len(),
            ),
    {
        let ghost sources = self.scan_runtime.sources@;
        let ghost scans = self.scan_runtime.bindings@;
        let mut i: usize = 0;
        while i < bindings.len()
            invariant
                i <= bindings@.len(),
                self.scan_runtime.sources == old(self).scan_runtime.sources,
                self.scan_runtime.default_diff == old(self).scan_runtime.default_diff,
                sources == old(self).scan_runtime.sources@,
                scans == old(self).scan_runtime.bindings@,
                (self.scan_runtime.bindings@, Ok::<(), IngestError<()>>(())) == bound(
                    sources,
                    scans,
                    bindings@,
                    i as nat,
                ),
            decreases bindings@.len() - i,
        {
            match self.scan_runtime.register_scan(bindings[i].0.clone(), bindings[i].1) {
                Ok(()) => {},
                Err(error) => {
                    proof {
                        lemma_binding_ended(
                            sources,
                            scans,
                            bindings@,
                            (i + 1) as nat,
                            bindings@.len(),
                        );
                    }
                    return Err(error);
                },
            }
            i = i + 1;
        }
        Ok(())
    }

    /// Routes a decoded event of a source to its scan.
    pub fn process_event<E>(
        &mut self,
        source: String,
        decoded: Result<(Row, Option<Timestamp>), E>,
        fallback_timestamp: Timestamp,
    ) -> (ingested: Result<IngestedRow, IngestError<E>>)
        ensures
            *final(self) == *old(self),
            ingested == (if !old(self).scan_runtime.bindings@.dom().contains(source@) {
                Err(IngestError::NoScan)
            } else {
                match decoded {
                    Err(error) => Err(IngestError::Decode(error)),
                    Ok(event) => Ok(
                        (IngestedRow {
                            source,
                            handle: old(self).scan_runtime.bindings@[source@],
                            row: event.0,
                            diff: old(self).scan_runtime.default_diff,
                            timestamp: match event.1 {
                                Some(timestamp) => timestamp,
                                None => fallback_timestamp,
                            },
                        }),
                    ),
                }
            }),
            ingested == event_ingested(
                old(self).scan_runtime.bindings@,
                old(self).scan_runtime.default_diff,
                source,
                decoded,
                fallback_timestamp,
            ),
    {
        self.scan_runtime.ingest_event(source, decoded, fallback_timestamp)
    }
}

/// Bindings that are taken are all of known sources, each of another one and of none that was bound
/// before; each source is bound to its stream, and what was bound before stays.
pub proof fn law_bindings_are_registered(
    sources: Seq<String>,
    scans: Map<Seq<char>, RowStreamHandle>,
    bindings: Seq<(String, RowStreamHandle)>,
    n: nat,
)
    requires
        n <= bindings.len(),
        bound(sources, scans, bindings, n).1 is Ok,
    ensures
        ({
            let after = bound(sources, scans, bindings, n).0;
            &&& forall|i: int|
                0 <= i < n ==> known(sources, (#[trigger] bindings[i]).0@) && after.dom().contains(
                    bindings[i].0@,
                ) && after[bindings[i].0@] == bindings[i].1 && !scans.dom().contains(
                    bindings[i].0@,
                )
            &&& forall|name: Seq<char>| #[trigger]
                scans.dom().contains(name) ==> after.dom().contains(name) && after[name]
                    == scans[name]
        }),
    decreases n,
{
    if n > 0 {
        law_bindings_are_registered(sources, scans, bindings, (n - 1) as nat);
    }
}

/// A binding of a source that is not known, or of one that is bound already, ends it with that
/// error.
pub proof fn law_bindings_that_are_refused(
    sources: Seq<String>,
    scans: Map<Seq<char>, RowStreamHandle>,
    binding: (String, RowStreamHandle),
)
    ensures
        ({
            let (after, result) = bound(sources, scans, seq![binding], 1);
            &&& !known(sources, binding.0@) ==> result == Err::<(), IngestError<()>>(
                IngestError::UnknownSource,
            ) && after == scans
            &&& known(sources, binding.0@) && scans.dom().contains(binding.0@) ==> result == Err::<
                (),
                IngestError<()>,
            >(IngestError::AlreadyRegistered)
            &&& known(sources, binding.0@) && !scans.dom().contains(binding.0@) ==> result is Ok
        }),
{
    reveal_with_fuel(bound, 2);
}

/// What a decoded event of a source becomes.
pub open spec fn event_ingested<E>(
    bindings: Map<Seq<char>, RowStreamHandle>,
    default_diff: Diff,
    source: String,
    decoded: Result<(Row, Option<Timestamp>), E>,
    fallback_timestamp: Timestamp,
) -> Result<IngestedRow, IngestError<E>> {
    if !bindings.dom().contains(source@) {
        Err(IngestError::NoScan)
    } else {
        match decoded {
            Err(error) => Err(IngestError::Decode(error)),
            Ok(event) => Ok(
                (IngestedRow {
                    source,
                    handle: bindings[source@],
                    row: event.0,
                    diff: default_diff,
                    timestamp: match event.1 {
                        Some(timestamp) => timestamp,
                        None => fallback_timestamp,
                    },
                }),
            ),
        }
    }
}

/// An event of a source that is scanned keeps its row and goes to the scan of its source, at its
/// own time or, where it tells none, at the time that is given for it.
pub proof fn law_events_keep_their_rows<E>(
    bindings: Map<Seq<char>, RowStreamHandle>,
    default_diff: Diff,
    source: String,
    decoded: Result<(Row, Option<Timestamp>), E>,
    fallback_timestamp: Timestamp,
)
    ensures
        match event_ingested(bindings, default_diff, source, decoded, fallback_timestamp) {
            Ok(ingested) => {
                &&& bindings.dom().contains(source@)
                &&& bindings[source@] == ingested.handle
                &&& ingested.source@ == source@
                &&& decoded matches Ok((row, time)) && ingested.row == row && (
                time matches Some(told) ==> ingested.timestamp == told) && (time is None
                    ==> ingested.timestamp == fallback_timestamp)
                &&& ingested.diff == default_diff
            },
            Err(IngestError::NoScan) => !bindings.dom().contains(source@),
            Err(error) => bindings.dom().contains(source@) && (error matches IngestError::Decode(
                told,
            ) && decoded matches Err(found) && told == found),
        },
{
}

} // verus!
