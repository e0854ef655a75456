//! The stored state of operators.

use vstd::prelude::*;

use crate::execution_loop::checkpoint;
use crate::execution_loop::checkpoint::{record_if_nonzero, RecordView};
use crate::execution_loop::graph_builder::DbspHandleRecord;

verus! {

/// A stored snapshot of the state of an operator.
#[derive(Debug, PartialEq, Eq)]
pub struct OperatorStateHandle {
    pub table: String,
    pub namespace: String,
    pub version: u64,
}

impl Clone for OperatorStateHandle {
    fn clone(&self) -> (copy: Self)
        ensures
            copy == *self,
    {
        OperatorStateHandle {
            table: self.table.clone(),
            namespace: self.namespace.clone(),
            version: self.version,
        }
    }
}

impl OperatorStateHandle {
    /// A stored snapshot.
    pub fn new(table: String, namespace: String, version: u64) -> (handle: Self)
        ensures
            handle == (OperatorStateHandle { table, namespace, version }),
    {
        OperatorStateHandle { table, namespace, version }
    }
}

/// The records of the first `n` stored snapshots of an operator, without those at version zero.
pub open spec fn handle_records(handles: Seq<OperatorStateHandle>, kind: Seq<char>, n: nat) -> Seq<
    RecordView,
>
    decreases n,
{
    if n == 0 {
        Seq::empty()
    } else {
        let front = handle_records(handles, kind, (n - 1) as nat);
        let handle = handles[n - 1];
        if handle.version == 0 {
            front
        } else {
            front.push(
                RecordView {
                    kind,
                    name: handle.table@,
                    namespace: handle.namespace@,
                    version: handle.version,
                },
            )
        }
    }
}

/// The records of the stored snapshots of an operator, or none where nothing is stored.
pub fn checkpoint_records(handles: &Vec<OperatorStateHandle>, kind: &str) -> (records: Option<
    Vec<DbspHandleRecord>,
>)
    ensures
        match records {
            Some(records) => records@.len() > 0 && checkpoint::record_views(records@)
                == handle_records(handles@, kind@, handles@.len()),
            None => handle_records(handles@, kind@, handles@.len()).len() == 0,
        },
{
    let mut records: Vec<DbspHandleRecord> = Vec::new();
    let mut i: usize = 0;
    assert(checkpoint::record_views(records@) =~= Seq::empty());
    while i < handles.len()
        invariant
            i <= handles@.len(),
            checkpoint::record_views(records@) == handle_records(handles@, kind@, i as nat),
        decreases handles@.len() - i,
    {
        let ghost before = checkpoint::record_views(records@);
        if let Some(record) = record_if_nonzero(
            kind,
            handles[i].table.as_str(),
            handles[i].namespace.as_str(),
            handles[i].version,
        ) {
            records.push(record);
            assert(checkpoint::record_views(records@) =~= before.push(record@));
        }
        i = i + 1;
    }
    if records.len() == 0 {
        None
    } else {
        Some(records)
    }
}

/// What operators keep is recorded where it has a version, each table with its namespace and its
/// version, and nothing is recorded at version zero.
#[verifier::rlimit(40)]
pub proof fn law_tables_with_a_version_are_recorded(
    handles: Seq<OperatorStateHandle>,
    kind: Seq<char>,
    n: nat,
)
    requires
        n <= handles.len(),
    ensures
        ({
            let records = handle_records(handles, kind, n);
            &&& forall|k: int|
                0 <= k < records.len() ==> (#[trigger] records[k]).version != 0 && records[k].kind
                    == kind && exists|i: int|
                    0 <= i < n && (#[trigger] handles[i]).table@ == records[k].name
                        && handles[i].namespace@ == records[k].namespace && handles[i].version
                        == records[k].version
            &&& forall|i: int|
                0 <= i < n && (#[trigger] handles[i]).version != 0 ==> exists|k: int|
                    0 <= k < records.len() && (#[trigger] records[k]).name == handles[i].table@
                        && records[k].namespace == handles[i].namespace@ && records[k].version
                        == handles[i].version
        }),
    decreases n,
{
    if n > 0 {
        law_tables_with_a_version_are_recorded(handles, kind, (n - 1) as nat);
        let front = handle_records(handles, kind, (n - 1) as nat);
        let records = handle_records(handles, kind, n);
        assert forall|k: int| 0 <= k < records.len() implies (#[trigger] records[k]).version != 0
            && records[k].kind == kind && exists|i: int|
            0 <= i < n && (#[trigger] handles[i]).table@ == records[k].name
                && handles[i].namespace@ == records[k].namespace && handles[i].version
                == records[k].version by {
            if k < front.len() {
                assert(records[k] == front[k]);
                let i = choose|i: int|
                    0 <= i < n - 1 && (#[trigger] handles[i]).table@ == front[k].name
                        && handles[i].namespace@ == front[k].namespace && handles[i].version
                        == front[k].version;
                assert(handles[i].table@ == records[k].name);
            } else {
                assert(handles[n - 1].table@ == records[k].name);
            }
        }
        assert forall|i: int| 0 <= i < n && (#[trigger] handles[i]).version != 0 implies exists|
            k: int,
        |
            0 <= k < records.len() && (#[trigger] records[k]).name == handles[i].table@
                && records[k].namespace == handles[i].namespace@ && records[k].version
                == handles[i].version by {
            if i < n - 1 {
                let k = choose|k: int|
                    0 <= k < front.len() && (#[trigger] front[k]).name == handles[i].table@
                        && front[k].namespace == handles[i].namespace@ && front[k].version
                        == handles[i].version;
                assert(records[k] == front[k]);
            } else {
                let k = records.len() - 1;
                assert(records[k].name == handles[i].table@);
            }
        }
    }
}

} // verus!
