//! Sealing a step: what was flushed is recorded in order, and then committed.

use vstd::prelude::*;

use super::barrier::{run_barrier_hook, BarrierStage};
use super::graph_builder::DbspHandleRecord;
use crate::outer_stream::OuterStreamHandle;

verus! {

/// What a record stands for.
pub struct RecordView {
    pub kind: Seq<char>,
    pub name: Seq<char>,
    pub namespace: Seq<char>,
    pub version: u64,
}

impl View for DbspHandleRecord {
    type V = RecordView;

    open spec fn view(&self) -> RecordView {
        RecordView {
            kind: self.kind@,
            name: self.name@,
            namespace: self.namespace@,
            version: self.version,
        }
    }
}

/// Records as what they stand for.
pub open spec fn record_views(records: Seq<DbspHandleRecord>) -> Seq<RecordView> {
    Seq::new(records.len(), |i: int| records[i]@)
}

/// The record of a stored collection; version zero is nothing stored.
pub fn record_if_nonzero(kind: &str, name: &str, namespace: &str, version: u64) -> (record: Option<
    DbspHandleRecord,
>)
    ensures
        match record {
            Some(made) => version != 0 && made@ == (RecordView {
                kind: kind@,
                name: name@,
                namespace: namespace@,
                version,
            }),
            None => version == 0,
        },
{
    if version == 0 {
        None
    } else {
        Some(
            DbspHandleRecord {
                kind: String::from_str(kind),
                name: String::from_str(name),
                namespace: String::from_str(namespace),
                version,
            },
        )
    }
}

/// The records of the stored changes of the first `n` sources, without those at version zero.
pub open spec fn source_records(
    handles: Seq<OuterStreamHandle>,
    kind: Seq<char>,
    n: nat,
) -> Seq<RecordView>
    decreases n,
{
    if n == 0 {
        Seq::empty()
    } else {
        let front = source_records(handles, kind, (n - 1) as nat);
        let handle = handles[n - 1];
        if handle.version == 0 {
            front
        } else {
            front.push(
                RecordView {
                    kind,
                    name: handle.source@,
                    namespace: handle.namespace@,
                    version: handle.version,
                },
            )
        }
    }
}

/// The records of the stored changes of sources, without those at version zero.
pub fn convert_source_handles(handles: &Vec<OuterStreamHandle>, kind: &str) -> (records: Vec<
    DbspHandleRecord,
>)
    ensures
        record_views(records@) == source_records(handles@, kind@, handles@.len()),
{
    let mut records: Vec<DbspHandleRecord> = Vec::new();
    let mut i: usize = 0;
    assert(record_views(records@) =~= Seq::<RecordView>::empty());
    while i < handles.len()
        invariant
            i <= handles@.len(),
            record_views(records@) == source_records(handles@, kind@, i as nat),
        decreases handles@.len() - i,
    {
        let ghost before = record_views(records@);
        match record_if_nonzero(
            kind,
            handles[i].source.as_str(),
            handles[i].namespace.as_str(),
            handles[i].version,
        ) {
            Some(record) => {
                records.push(record);
                assert(record_views(records@) =~= before.push(record@));
            },
            None => {},
        }
        i = i + 1;
    }
    records
}

/// What is flushed next while a step is sealed.
#[derive(Clone, Copy, Debug, PartialEq, Eq, Structural)]
pub enum SealStage {
    Sources,
    Operators,
    Views,
    /// All is flushed; the checkpoint is to be written.
    Commit,
}

/// A step while it is sealed: what is flushed next, and the records so far.
#[derive(Debug)]
pub struct Seal {
    pub stage: SealStage,
    pub records: Vec<DbspHandleRecord>,
}

/// What is flushed after a stage.
pub open spec fn next_stage(stage: SealStage) -> SealStage {
    match stage {
        SealStage::Sources => SealStage::Operators,
        SealStage::Operators => SealStage::Views,
        SealStage::Views => SealStage::Commit,
        SealStage::Commit => SealStage::Commit,
    }
}

/// At which barrier a stage can fail before its records are taken.
pub open spec fn barrier_before(stage: SealStage) -> Option<BarrierStage> {
    match stage {
        SealStage::Sources => None,
        SealStage::Operators => Some(BarrierStage::AfterOperatorFlush),
        SealStage::Views => Some(BarrierStage::AfterMaterializedViewFlush),
        SealStage::Commit => None,
    }
}

/// A flush gets past the barriers of its stage.
pub open spec fn passes(stage: SealStage, failpoint: Option<BarrierStage>) -> bool {
    &&& failpoint is Some ==> barrier_before(stage) != failpoint
    &&& stage is Views ==> failpoint != Some(BarrierStage::AfterSealBeforeCommit)
}

/// A step gets past every barrier before its checkpoint is written.
pub open spec fn reaches_commit(failpoint: Option<BarrierStage>) -> bool {
    &&& passes(SealStage::Sources, failpoint)
    &&& passes(SealStage::Operators, failpoint)
    &&& passes(SealStage::Views, failpoint)
    &&& failpoint != Some(BarrierStage::AfterOffsetsBeforeCommit)
}

/// A step that fails at a barrier before the commit writes no checkpoint; a failure behind the
/// commit leaves the checkpoint written.
pub proof fn law_failed_step_is_not_committed(failpoint: Option<BarrierStage>)
    ensures
        reaches_commit(failpoint) <==> failpoint is None || failpoint == Some(
            BarrierStage::AfterCommit,
        ),
{
    match failpoint {
        Some(BarrierStage::AfterOperatorFlush) => {
            assert(!passes(SealStage::Operators, failpoint));
        },
        Some(BarrierStage::AfterMaterializedViewFlush) => {
            assert(!passes(SealStage::Views, failpoint));
        },
        Some(BarrierStage::AfterSealBeforeCommit) => {
            assert(!passes(SealStage::Views, failpoint));
        },
        _ => {},
    }
}

impl Seal {
    /// Nothing is flushed yet.
    pub fn new() -> (seal: Self)
        ensures
            seal.stage is Sources,
            seal.records@.len() == 0,
    {
        Seal { stage: SealStage::Sources, records: Vec::new() }
    }

    /// Takes the records of what was flushed; fails where the failpoint is set to a barrier that
    /// is passed.
    pub fn flushed(
        &mut self,
        flushed: Vec<DbspHandleRecord>,
        failpoint: &mut Option<BarrierStage>,
    ) -> (result: Result<(), BarrierStage>)
        requires
            !(old(self).stage is Commit),
        ensures
            ({
                let before = barrier_before(old(self).stage);
                if before is Some && *old(failpoint) == before {
                    &&& result == Err::<(), BarrierStage>(before->0)
                    &&& *final(failpoint) is None
                    &&& final(self).records@ == old(self).records@
                    &&& final(self).stage == old(self).stage
                } else {
                    &&& final(self).records@ == old(self).records@ + flushed@
                    &&& if old(self).stage is Views && *old(failpoint) == Some(
                        BarrierStage::AfterSealBeforeCommit,
                    ) {
                        &&& result == Err::<(), BarrierStage>(BarrierStage::AfterSealBeforeCommit)
                        &&& *final(failpoint) is None
                        &&& final(self).stage == old(self).stage
                    } else {
                        &&& result is Ok
                        &&& *final(failpoint) == *old(failpoint)
                        &&& final(self).stage == next_stage(old(self).stage)
                    }
                }
            }),
            result is Ok <==> passes(old(self).stage, *old(failpoint)),
    {
        let mut flushed = flushed;
        match self.stage {
            SealStage::Sources => {
                self.records.append(&mut flushed);
                self.stage = SealStage::Operators;
                Ok(())
            },
            SealStage::Operators => {
                match run_barrier_hook(failpoint, BarrierStage::AfterOperatorFlush) {
                    Ok(()) => {},
                    Err(stage) => {
                        return Err(stage);
                    },
                }
                self.records.append(&mut flushed);
                self.stage = SealStage::Views;
                Ok(())
            },
            _ => {
                match run_barrier_hook(failpoint, BarrierStage::AfterMaterializedViewFlush) {
                    Ok(()) => {},
                    Err(stage) => {
                        return Err(stage);
                    },
                }
                self.records.append(&mut flushed);
                match run_barrier_hook(failpoint, BarrierStage::AfterSealBeforeCommit) {
                    Ok(()) => {},
                    Err(stage) => {
                        return Err(stage);
                    },
                }
                self.stage = SealStage::Commit;
                Ok(())
            },
        }
    }
}

/// Whether a sealed step may be written: fails where the failpoint is set to that barrier.
pub fn before_commit(checkpoints: bool, failpoint: &mut Option<BarrierStage>) -> (write: Result<
    bool,
    BarrierStage,
>)
    ensures
        if !checkpoints {
            write == Ok::<bool, BarrierStage>(false) && *final(failpoint) == *old(failpoint)
        } else if *old(failpoint) == Some(BarrierStage::AfterOffsetsBeforeCommit) {
            &&& write == Err::<bool, BarrierStage>(BarrierStage::AfterOffsetsBeforeCommit)
            &&& *final(failpoint) is None
        } else {
            write == Ok::<bool, BarrierStage>(true) && *final(failpoint) == *old(failpoint)
        },
{
    if !checkpoints {
        return Ok(false);
    }
    match run_barrier_hook(failpoint, BarrierStage::AfterOffsetsBeforeCommit) {
        Ok(()) => Ok(true),
        Err(stage) => Err(stage),
    }
}

/// The stages of a step come one after the other: what the sources brought is stored before what
/// the operators keep, that before the views, and all before the commit.
pub proof fn law_stages_come_in_order()
    ensures
        next_stage(SealStage::Sources) is Operators,
        next_stage(next_stage(SealStage::Sources)) is Views,
        next_stage(next_stage(next_stage(SealStage::Sources))) is Commit,
        next_stage(SealStage::Commit) is Commit,
{
}

/// Every failpoint but the one behind the commit keeps a step from its commit, and nothing else
/// does.
pub proof fn law_failpoints_before_the_commit(failpoint: Option<BarrierStage>)
    ensures
        reaches_commit(failpoint) <==> failpoint is None || failpoint == Some(
            BarrierStage::AfterCommit,
        ),
{
    match failpoint {
        None => {},
        Some(BarrierStage::AfterOperatorFlush) => {
            assert(!passes(SealStage::Operators, failpoint));
        },
        Some(BarrierStage::AfterMaterializedViewFlush) => {
            assert(!passes(SealStage::Views, failpoint));
        },
        Some(BarrierStage::AfterSealBeforeCommit) => {
            assert(!passes(SealStage::Views, failpoint));
        },
        Some(BarrierStage::AfterOffsetsBeforeCommit) => {},
        Some(BarrierStage::AfterCommit) => {},
    }
}

/// The records of stored changes are those of the sources that have a version, in their order, each
/// with its name, its namespace and its version.
pub proof fn law_sources_with_a_version_are_recorded(
    handles: Seq<OuterStreamHandle>,
    kind: Seq<char>,
    n: nat,
    i: int,
)
    requires
        0 <= i < n <= handles.len(),
        handles[i].version != 0,
    ensures
        exists|k: int|
            {
                &&& 0 <= k < source_records(handles, kind, n).len()
                &&& (#[trigger] source_records(handles, kind, n)[k]).kind == kind
                &&& source_records(handles, kind, n)[k].name == handles[i].source@
                &&& source_records(handles, kind, n)[k].namespace == handles[i].namespace@
                &&& source_records(handles, kind, n)[k].version == handles[i].version
            },
    decreases n,
{
    let all = source_records(handles, kind, n);
    if i == n - 1 {
        let k = all.len() - 1;
        assert(all[k].kind == kind);
    } else {
        law_sources_with_a_version_are_recorded(handles, kind, (n - 1) as nat, i);
        let front = source_records(handles, kind, (n - 1) as nat);
        let k = choose|k: int|
            {
                &&& 0 <= k < front.len()
                &&& (#[trigger] front[k]).kind == kind
                &&& front[k].name == handles[i].source@
                &&& front[k].namespace == handles[i].namespace@
                &&& front[k].version == handles[i].version
            };
        assert(all[k] == front[k]);
    }
}

/// Nothing is recorded at version zero.
pub proof fn law_no_record_without_a_version(
    handles: Seq<OuterStreamHandle>,
    kind: Seq<char>,
    n: nat,
    k: int,
)
    requires
        n <= handles.len(),
        0 <= k < source_records(handles, kind, n).len(),
    ensures
        source_records(handles, kind, n)[k].version != 0,
        source_records(handles, kind, n)[k].kind == kind,
        source_records(handles, kind, n).len() <= n,
    decreases n,
{
    if n > 0 {
        let front = source_records(handles, kind, (n - 1) as nat);
        if k < front.len() {
            law_no_record_without_a_version(handles, kind, (n - 1) as nat, k);
        } else if front.len() > 0 {
            law_no_record_without_a_version(handles, kind, (n - 1) as nat, 0);
        }
    }
}

} // verus!
