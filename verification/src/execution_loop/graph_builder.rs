//! Turns a plan into operators that feed each other.

use std::collections::VecDeque;

use vstd::prelude::*;

use super::ingest;
use super::ingest::RowStreamHandle;
use super::stream_operator;
use super::stream_operator::StreamOperator;
use crate::dataflow_plan::{DataflowPlan, OperatorNode};
use crate::materialized_view;
use crate::materialized_view::MaterializedViewRegistry;
use crate::namespaces;
use crate::namespaces::{operator_state, NamespaceError};
use crate::operators::filter::FilterOperator;
use crate::operators::join;
use crate::operators::join::{JoinOperator, JoinSide, KeyedCounts};
use crate::operators::map::MapOperator;
use crate::operators::materialize;
use crate::operators::materialize::{apply_view_deltas, MaterializeOperator};
use crate::operators::scan::ScanOperator;
use crate::operators::{DispatchSink, NullSink, OperatorError};
use crate::stream_types::{Diff, InputPort, OperatorId, OutputPort, Timestamp};
use crate::text;
use crate::text::{push_decimal, push_text, same_text, string_of};
use crate::values::{Row, ScalarView};
use crate::zset::ZSet;

verus! {

/// A stored collection that a checkpoint recorded.
#[derive(Debug, PartialEq, Eq)]
pub struct DbspHandleRecord {
    pub kind: String,
    pub name: String,
    pub namespace: String,
    pub version: u64,
}

/// The kinds under which checkpoints record their collections.
#[derive(Debug)]
pub struct HandleKinds {
    pub operator_state: String,
    pub materialized_view: String,
}

/// Why a plan cannot be run.
#[derive(Clone, Copy, Debug, PartialEq, Eq, Structural)]
pub enum GraphError {
    /// An input comes from an operator that the plan does not have.
    MissingDownstream(OperatorId),
    /// A scan has no stream of rows.
    MissingScanHandle(OperatorId),
    /// The source of this scan has no stream of stored collections.
    NoHandleStream(OperatorId),
    /// An input comes from an operator that has no stream of stored collections yet.
    MissingUpstream(OperatorId),
    /// A namespace cannot be built.
    Namespace(NamespaceError),
    /// The stored state of an operator cannot be loaded.
    State(OperatorError),
}

/// The inputs of an operator.
pub open spec fn inputs_of(node: OperatorNode) -> Seq<OutputPort> {
    match node {
        OperatorNode::Scan(_) => Seq::empty(),
        OperatorNode::MapRows(map) => seq![map.input],
        OperatorNode::Filter(filter) => seq![filter.input],
        OperatorNode::Join(join) => seq![join.left, join.right],
        OperatorNode::Materialize(materialize) => seq![materialize.input],
    }
}

/// The input that a port feeds.
pub open spec fn port_of(output: OutputPort) -> InputPort {
    InputPort { operator: output.operator, port_index: output.port_index }
}

fn input_port(output: OutputPort) -> (port: InputPort)
    ensures
        port == port_of(output),
{
    InputPort { operator: output.operator, port_index: output.port_index }
}

/// The inputs of an operator.
fn node_inputs(node: &OperatorNode) -> (inputs: Vec<OutputPort>)
    ensures
        inputs@ == inputs_of(*node),
{
    let mut inputs: Vec<OutputPort> = Vec::new();
    match node {
        OperatorNode::Scan(_) => {},
        OperatorNode::MapRows(map) => {
            inputs.push(map.input);
        },
        OperatorNode::Filter(filter) => {
            inputs.push(filter.input);
        },
        OperatorNode::Join(join) => {
            inputs.push(join.left);
            inputs.push(join.right);
        },
        OperatorNode::Materialize(materialize) => {
            inputs.push(materialize.input);
        },
    }
    assert(inputs@ =~= inputs_of(*node));
    inputs
}

/// Those of the first `n` inputs of the operator at `index` that `source` feeds.
pub open spec fn fed_inputs(
    inputs: Seq<OutputPort>,
    source: usize,
    index: usize,
    n: nat,
) -> Seq<(usize, InputPort)>
    decreases n,
{
    if n == 0 {
        Seq::empty()
    } else {
        let front = fed_inputs(inputs, source, index, (n - 1) as nat);
        if inputs[n - 1].operator.0 == source {
            front.push((index, port_of(inputs[n - 1])))
        } else {
            front
        }
    }
}

/// The inputs of the first `n` operators that `source` feeds, in the order of the operators.
pub open spec fn targets_of(
    operators: Seq<OperatorNode>,
    source: usize,
    n: nat,
) -> Seq<(usize, InputPort)>
    decreases n,
{
    if n == 0 {
        Seq::empty()
    } else {
        let inputs = inputs_of(operators[n - 1]);
        targets_of(operators, source, (n - 1) as nat) + fed_inputs(
            inputs,
            source,
            (n - 1) as usize,
            inputs.len(),
        )
    }
}

/// The first of the first `n` inputs that comes from no operator of the plan.
pub open spec fn missing_input(inputs: Seq<OutputPort>, count: nat, n: nat) -> Option<OperatorId>
    decreases n,
{
    if n == 0 {
        None
    } else {
        match missing_input(inputs, count, (n - 1) as nat) {
            Some(id) => Some(id),
            None => if inputs[n - 1].operator.0 >= count {
                Some(inputs[n - 1].operator)
            } else {
                None
            },
        }
    }
}

/// The first operator that inputs of the first `n` operators name and that the plan does not
/// have.
pub open spec fn missing_operator(operators: Seq<OperatorNode>, n: nat) -> Option<OperatorId>
    decreases n,
{
    if n == 0 {
        None
    } else {
        match missing_operator(operators, (n - 1) as nat) {
            Some(id) => Some(id),
            None => {
                let inputs = inputs_of(operators[n - 1]);
                missing_input(inputs, operators.len(), inputs.len())
            },
        }
    }
}

proof fn lemma_missing_input_stays(inputs: Seq<OutputPort>, count: nat, n: nat, m: nat)
    requires
        n <= m,
        missing_input(inputs, count, n) is Some,
    ensures
        missing_input(inputs, count, m) == missing_input(inputs, count, n),
    decreases m,
{
    if n < m {
        lemma_missing_input_stays(inputs, count, n, (m - 1) as nat);
    }
}

proof fn lemma_missing_operator_stays(operators: Seq<OperatorNode>, n: nat, m: nat)
    requires
        n <= m,
        missing_operator(operators, n) is Some,
    ensures
        missing_operator(operators, m) == missing_operator(operators, n),
    decreases m,
{
    if n < m {
        lemma_missing_operator_stays(operators, n, (m - 1) as nat);
    }
}

/// Which inputs each operator feeds.
pub fn downstreams(operators: &Vec<OperatorNode>) -> (result: Result<
    Vec<Vec<(usize, InputPort)>>,
    GraphError,
>)
    ensures
        match missing_operator(operators@, operators@.len()) {
            Some(id) => result == Err::<Vec<Vec<(usize, InputPort)>>, GraphError>(
                GraphError::MissingDownstream(id),
            ),
            None => {
                &&& result is Ok
                &&& result->Ok_0@.len() == operators@.len()
                &&& forall|source: usize|
                    source < operators@.len() ==> (
                    #[trigger] result->Ok_0@[source as int])@ == targets_of(
                        operators@,
                        source,
                        operators@.len(),
                    )
            },
        },
{
    let count: usize = operators.len();
    let mut fed: Vec<Vec<(usize, InputPort)>> = Vec::new();
    let mut k: usize = 0;
    while k < count
        invariant
            k <= count,
            fed@.len() == k,
            forall|source: int| 0 <= source < k ==> (#[trigger] fed@[source])@.len() == 0,
        decreases count - k,
    {
        fed.push(Vec::new());
        k = k + 1;
    }
    let mut index: usize = 0;
    assert forall|source: usize| source < count implies (#[trigger] fed@[source as int])@
        == targets_of(operators@, source, 0) by {
        assert(fed@[source as int]@ =~= Seq::<(usize, InputPort)>::empty());
    }
    while index < count
        invariant
            index <= count,
            count == operators@.len(),
            fed@.len() == count,
            missing_operator(operators@, index as nat) is None,
            forall|source: usize|
                source < count ==> (#[trigger] fed@[source as int])@ == targets_of(
                    operators@,
                    source,
                    index as nat,
                ),
        decreases count - index,
    {
        let inputs = node_inputs(&operators[index]);
        let mut j: usize = 0;
        assert forall|source: usize| source < count implies (#[trigger] fed@[source as int])@
            == targets_of(operators@, source, index as nat) + fed_inputs(
            inputs@,
            source,
            index,
            0,
        ) by {
            assert(fed@[source as int]@ =~= targets_of(operators@, source, index as nat)
                + fed_inputs(inputs@, source, index, 0));
        }
        while j < inputs.len()
            invariant
                j <= inputs@.len(),
                index < count,
                count == operators@.len(),
                fed@.len() == count,
                inputs@ == inputs_of(operators@[index as int]),
                missing_operator(operators@, index as nat) is None,
                missing_input(inputs@, count as nat, j as nat) is None,
                forall|source: usize|
                    source < count ==> (#[trigger] fed@[source as int])@ == targets_of(
                        operators@,
                        source,
                        index as nat,
                    ) + fed_inputs(inputs@, source, index, j as nat),
            decreases inputs@.len() - j,
        {
            let from: usize = inputs[j].operator.0;
            if from >= count {
                proof {
                    lemma_missing_input_stays(
                        inputs@,
                        count as nat,
                        (j + 1) as nat,
                        inputs@.len(),
                    );
                    lemma_missing_operator_stays(
                        operators@,
                        (index + 1) as nat,
                        operators@.len(),
                    );
                }
                return Err(GraphError::MissingDownstream(inputs[j].operator));
            }
            let ghost before = fed@;
            fed[from].push((index, input_port(inputs[j])));
            assert forall|source: usize| source < count implies (#[trigger] fed@[source as int])@
                == targets_of(operators@, source, index as nat) + fed_inputs(
                inputs@,
                source,
                index,
                (j + 1) as nat,
            ) by {
                if source == from {
                    assert(fed@[source as int]@ =~= before[source as int]@.push(
                        (index, port_of(inputs@[j as int])),
                    ));
                    assert(fed@[source as int]@ =~= targets_of(operators@, source, index as nat)
                        + fed_inputs(inputs@, source, index, (j + 1) as nat));
                } else {
                    assert(fed@[source as int] == before[source as int]);
                }
            }
            j = j + 1;
        }
        index = index + 1;
    }
    Ok(fed)
}

/// The stream of rows of an operator: the last one that was connected.
pub open spec fn output_of(
    connected: Seq<(OperatorId, RowStreamHandle)>,
    id: OperatorId,
) -> Option<RowStreamHandle>
    decreases connected.len(),
{
    if connected.len() == 0 {
        None
    } else if connected.last().0 == id {
        Some(connected.last().1)
    } else {
        output_of(connected.drop_last(), id)
    }
}

/// The streams of rows of the scans among the first `n` operators, or the first scan without.
pub open spec fn scan_streams(
    operators: Seq<OperatorNode>,
    connected: Seq<(OperatorId, RowStreamHandle)>,
    n: nat,
) -> Result<Seq<(RowStreamHandle, usize)>, GraphError>
    decreases n,
{
    if n == 0 {
        Ok(Seq::empty())
    } else {
        match scan_streams(operators, connected, (n - 1) as nat) {
            Err(error) => Err(error),
            Ok(front) => if operators[n - 1] is Scan {
                let id = OperatorId((n - 1) as usize);
                match output_of(connected, id) {
                    None => Err(GraphError::MissingScanHandle(id)),
                    Some(handle) => Ok(front.push((handle, (n - 1) as usize))),
                }
            } else {
                Ok(front)
            },
        }
    }
}

proof fn lemma_scan_streams_ended(
    operators: Seq<OperatorNode>,
    connected: Seq<(OperatorId, RowStreamHandle)>,
    n: nat,
    m: nat,
)
    requires
        scan_streams(operators, connected, n) is Err,
        n <= m,
    ensures
        scan_streams(operators, connected, m) == scan_streams(operators, connected, n),
    decreases m,
{
    if n < m {
        lemma_scan_streams_ended(operators, connected, n, (m - 1) as nat);
    }
}

/// The stream of rows of an operator.
fn find_output(connected: &Vec<(OperatorId, RowStreamHandle)>, id: OperatorId) -> (handle: Option<
    RowStreamHandle,
>)
    ensures
        handle == output_of(connected@, id),
{
    let mut i: usize = connected.len();
    assert(connected@.take(i as int) =~= connected@);
    while i > 0
        invariant
            i <= connected@.len(),
            output_of(connected@, id) == output_of(connected@.take(i as int), id),
        decreases i,
    {
        i = i - 1;
        proof {
            let part = connected@.take(i + 1);
            assert(part.drop_last() =~= connected@.take(i as int));
            assert(part.last() == connected@[i as int]);
        }
        if connected[i].0 == id {
            return Some(connected[i].1);
        }
    }
    None
}

/// Which operator takes the rows of which stream.
pub fn scan_operator_map(
    operators: &Vec<OperatorNode>,
    connected: &Vec<(OperatorId, RowStreamHandle)>,
) -> (result: Result<Vec<(RowStreamHandle, usize)>, GraphError>)
    ensures
        match result {
            Ok(streams) => scan_streams(operators@, connected@, operators@.len()) == Ok::<
                Seq<(RowStreamHandle, usize)>,
                GraphError,
            >(streams@),
            Err(error) => scan_streams(operators@, connected@, operators@.len()) == Err::<
                Seq<(RowStreamHandle, usize)>,
                GraphError,
            >(error),
        },
{
    let mut streams: Vec<(RowStreamHandle, usize)> = Vec::new();
    let mut i: usize = 0;
    while i < operators.len()
        invariant
            i <= operators@.len(),
            scan_streams(operators@, connected@, i as nat) == Ok::<
                Seq<(RowStreamHandle, usize)>,
                GraphError,
            >(streams@),
        decreases operators@.len() - i,
    {
        match &operators[i] {
            OperatorNode::Scan(_) => {
                match find_output(connected, OperatorId(i)) {
                    Some(handle) => {
                        streams.push((handle, i));
                    },
                    None => {
                        proof {
                            lemma_scan_streams_ended(
                                operators@,
                                connected@,
                                (i + 1) as nat,
                                operators@.len(),
                            );
                        }
                        return Err(GraphError::MissingScanHandle(OperatorId(i)));
                    },
                }
            },
            _ => {},
        }
        i = i + 1;
    }
    Ok(streams)
}

/// The key under which a checkpoint's collection is looked up.
pub open spec fn lookup_key(kind: Seq<char>, name: Seq<char>) -> Seq<char> {
    kind + seq![':'] + name
}

/// The key under which a checkpoint's collection is looked up.
pub fn handle_lookup_key(kind: &str, name: &str) -> (key: String)
    ensures
        key@ == lookup_key(kind@, name@),
{
    let mut key: Vec<char> = Vec::new();
    push_text(&mut key, kind);
    key.push(':');
    push_text(&mut key, name);
    assert(key@ =~= lookup_key(kind@, name@));
    string_of(key)
}

/// The last of the first `n` collections that has a key.
pub open spec fn last_with_key(
    handles: Seq<DbspHandleRecord>,
    key: Seq<char>,
    n: nat,
) -> Option<usize>
    decreases n,
{
    if n == 0 {
        None
    } else if lookup_key(handles[n - 1].kind@, handles[n - 1].name@) == key {
        Some((n - 1) as usize)
    } else {
        last_with_key(handles, key, (n - 1) as nat)
    }
}

/// The position of a checkpoint's collection by its kind and name.
pub fn lookup_handle(handles: &Vec<DbspHandleRecord>, kind: &str, name: &str) -> (at: Option<usize>)
    ensures
        at == last_with_key(handles@, lookup_key(kind@, name@), handles@.len()),
{
    let wanted = handle_lookup_key(kind, name);
    let mut i: usize = handles.len();
    while i > 0
        invariant
            i <= handles@.len(),
            wanted@ == lookup_key(kind@, name@),
            last_with_key(handles@, wanted@, handles@.len()) == last_with_key(
                handles@,
                wanted@,
                i as nat,
            ),
        decreases i,
    {
        i = i - 1;
        let key = handle_lookup_key(handles[i].kind.as_str(), handles[i].name.as_str());
        if same_text(key.as_str(), wanted.as_str()) {
            return Some(i);
        }
    }
    None
}

/// Two keys are the same only where kind and name are, as long as the kinds hold no colon.
proof fn lemma_lookup_key(kind: Seq<char>, name: Seq<char>, other: Seq<char>, second: Seq<char>)
    requires
        !kind.contains(':'),
        !other.contains(':'),
        lookup_key(kind, name) == lookup_key(other, second),
    ensures
        kind == other,
        name == second,
{
    let a = lookup_key(kind, name);
    let b = lookup_key(other, second);
    assert(a[kind.len() as int] == ':');
    assert(b[other.len() as int] == ':');
    if kind.len() < other.len() {
        assert(other[kind.len() as int] == b[kind.len() as int]);
        assert(other.contains(':'));
    }
    if other.len() < kind.len() {
        assert(kind[other.len() as int] == a[other.len() as int]);
        assert(kind.contains(':'));
    }
    assert(kind =~= a.take(kind.len() as int));
    assert(other =~= b.take(kind.len() as int));
    assert(name =~= a.skip(kind.len() as int + 1));
    assert(second =~= b.skip(kind.len() as int + 1));
}

/// A collection that a checkpoint recorded is found again by its kind and name, unless the
/// checkpoint recorded another one under them later. The kinds hold no colon.
pub proof fn law_recorded_handle_is_found(handles: Seq<DbspHandleRecord>, at: usize)
    requires
        at < handles.len() <= usize::MAX,
        forall|i: int| 0 <= i < handles.len() ==> !(#[trigger] handles[i]).kind@.contains(':'),
        forall|i: int|
            at < i < handles.len() ==> (#[trigger] handles[i]).kind@ != handles[at as int].kind@
                || handles[i].name@ != handles[at as int].name@,
    ensures
        last_with_key(
            handles,
            lookup_key(handles[at as int].kind@, handles[at as int].name@),
            handles.len(),
        ) == Some(at),
{
    lemma_last_with_key(handles, at, handles.len());
}

proof fn lemma_last_with_key(handles: Seq<DbspHandleRecord>, at: usize, n: nat)
    requires
        at < n <= handles.len() <= usize::MAX,
        forall|i: int| 0 <= i < handles.len() ==> !(#[trigger] handles[i]).kind@.contains(':'),
        forall|i: int|
            at < i < handles.len() ==> (#[trigger] handles[i]).kind@ != handles[at as int].kind@
                || handles[i].name@ != handles[at as int].name@,
    ensures
        last_with_key(
            handles,
            lookup_key(handles[at as int].kind@, handles[at as int].name@),
            n,
        ) == Some(at),
    decreases n,
{
    if n - 1 > at {
        let last = handles[n - 1];
        let wanted = lookup_key(handles[at as int].kind@, handles[at as int].name@);
        if lookup_key(last.kind@, last.name@) == wanted {
            lemma_lookup_key(
                last.kind@,
                last.name@,
                handles[at as int].kind@,
                handles[at as int].name@,
            );
        }
        lemma_last_with_key(handles, at, (n - 1) as nat);
    }
}

/// A name with the position of an operator behind it.
fn numbered(prefix: &str, index: usize) -> (name: String)
    ensures
        name@ == prefix@ + text::decimal(index as nat),
{
    let mut name: Vec<char> = Vec::new();
    push_text(&mut name, prefix);
    push_decimal(&mut name, index as u64);
    assert(name@ =~= prefix@ + text::decimal(index as nat));
    string_of(name)
}

/// Where one side of a join keeps its rows.
#[derive(Debug)]
pub struct JoinTable {
    pub upstream: usize,
    pub table: String,
    pub namespace: String,
    /// The checkpoint's collection to start from, by position.
    pub checkpoint: Option<usize>,
}

/// What has to be opened and loaded for an operator.
#[derive(Debug)]
pub enum OperatorBuild {
    Scan,
    MapRows { upstream: usize, table: String, namespace: String },
    Filter { upstream: usize, namespace: String },
    Join { left: JoinTable, right: JoinTable, output_table: String, output_namespace: String },
    Materialize { upstream: usize, checkpoint: Option<usize> },
}

/// Why the namespace of one side of an operator's state cannot be built.
pub open spec fn namespace_fault(graph: Seq<char>, index: nat, side: Seq<char>) -> Option<
    GraphError,
> {
    match namespaces::operator_namespace(graph, index, side) {
        Ok(_) => None,
        Err(error) => Some(GraphError::Namespace(error)),
    }
}

/// Why an operator does not get its input: the one that feeds it does not come before it.
pub open spec fn upstream_fault(input: OutputPort, index: usize) -> Option<GraphError> {
    if input.operator.0 < index {
        None
    } else {
        Some(GraphError::MissingUpstream(input.operator))
    }
}

/// The first of two faults.
pub open spec fn first_fault(a: Option<GraphError>, b: Option<GraphError>) -> Option<GraphError> {
    match a {
        Some(fault) => Some(fault),
        None => b,
    }
}

/// Why the operator at a position cannot be built.
pub open spec fn build_fault(
    graph: Seq<char>,
    node: OperatorNode,
    index: usize,
    sources: Seq<String>,
) -> Option<GraphError> {
    match node {
        OperatorNode::Scan(scan) => if ingest::known(sources, scan.source_name@) {
            None
        } else {
            Some(GraphError::NoHandleStream(OperatorId(index)))
        },
        OperatorNode::MapRows(map) => first_fault(
            upstream_fault(map.input, index),
            namespace_fault(graph, index as nat, "output"@),
        ),
        OperatorNode::Filter(filter) => first_fault(
            upstream_fault(filter.input, index),
            namespace_fault(graph, index as nat, "filter"@),
        ),
        OperatorNode::Join(join) => first_fault(
            first_fault(upstream_fault(join.left, index), upstream_fault(join.right, index)),
            first_fault(
                namespace_fault(graph, index as nat, "left"@),
                first_fault(
                    namespace_fault(graph, index as nat, "right"@),
                    namespace_fault(graph, index as nat, "output"@),
                ),
            ),
        ),
        OperatorNode::Materialize(materialize) => upstream_fault(materialize.input, index),
    }
}

/// The tables of one side of a join.
pub open spec fn is_join_table(
    table: JoinTable,
    input: OutputPort,
    graph: Seq<char>,
    index: nat,
    prefix: Seq<char>,
    side: Seq<char>,
    handles: Seq<DbspHandleRecord>,
    kinds: HandleKinds,
) -> bool {
    &&& table.upstream == input.operator.0
    &&& table.table@ == prefix + text::decimal(index)
    &&& Ok::<Seq<char>, NamespaceError>(table.namespace@) == namespaces::operator_namespace(
        graph,
        index,
        side,
    )
    &&& table.checkpoint == last_with_key(
        handles,
        lookup_key(kinds.operator_state@, table.table@),
        handles.len(),
    )
}

/// What has to be opened and loaded for the operator at a position.
pub open spec fn is_build(
    build: OperatorBuild,
    graph: Seq<char>,
    node: OperatorNode,
    index: usize,
    handles: Seq<DbspHandleRecord>,
    kinds: HandleKinds,
) -> bool {
    match (node, build) {
        (OperatorNode::Scan(_), OperatorBuild::Scan) => true,
        (OperatorNode::MapRows(map), OperatorBuild::MapRows { upstream, table, namespace }) => {
            &&& upstream == map.input.operator.0
            &&& table@ == "map_output_"@ + text::decimal(index as nat)
            &&& Ok::<Seq<char>, NamespaceError>(namespace@) == namespaces::operator_namespace(
                graph,
                index as nat,
                "output"@,
            )
        },
        (OperatorNode::Filter(filter), OperatorBuild::Filter { upstream, namespace }) => {
            &&& upstream == filter.input.operator.0
            &&& Ok::<Seq<char>, NamespaceError>(namespace@) == namespaces::operator_namespace(
                graph,
                index as nat,
                "filter"@,
            )
        },
        (
            OperatorNode::Join(join),
            OperatorBuild::Join { left, right, output_table, output_namespace },
        ) => {
            &&& is_join_table(
                left,
                join.left,
                graph,
                index as nat,
                "join_left_"@,
                "left"@,
                handles,
                kinds,
            )
            &&& is_join_table(
                right,
                join.right,
                graph,
                index as nat,
                "join_right_"@,
                "right"@,
                handles,
                kinds,
            )
            &&& output_table@ == "join_output_"@ + text::decimal(index as nat)
            &&& Ok::<Seq<char>, NamespaceError>(output_namespace@)
                == namespaces::operator_namespace(graph, index as nat, "output"@)
        },
        (
            OperatorNode::Materialize(materialize),
            OperatorBuild::Materialize { upstream, checkpoint },
        ) => {
            &&& upstream == materialize.input.operator.0
            &&& checkpoint == last_with_key(
                handles,
                lookup_key(kinds.materialized_view@, materialize.view_name@),
                handles.len(),
            )
        },
        _ => false,
    }
}

/// Whether a source has a name.
fn is_known(sources: &Vec<String>, name: &str) -> (found: bool)
    ensures
        found == ingest::known(sources@, name@),
{
    let mut i: usize = 0;
    while i < sources.len()
        invariant
            i <= sources@.len(),
            forall|j: int| 0 <= j < i ==> (#[trigger] sources@[j])@ != name@,
        decreases sources@.len() - i,
    {
        if same_text(sources[i].as_str(), name) {
            assert(sources@[i as int]@ == name@);
            return true;
        }
        i = i + 1;
    }
    false
}

/// The operator that feeds an input, which has to come before `index`.
pub fn require_handle_stream(input: OutputPort, index: usize) -> (upstream: Result<
    usize,
    GraphError,
>)
    ensures
        upstream == (match upstream_fault(input, index) {
            Some(fault) => Err(fault),
            None => Ok(input.operator.0),
        }),
{
    if input.operator.0 < index {
        Ok(input.operator.0)
    } else {
        Err(GraphError::MissingUpstream(input.operator))
    }
}

/// The namespace of one side of an operator's state.
fn side_namespace(graph_id: &str, index: usize, side: &str) -> (namespace: Result<
    String,
    GraphError,
>)
    ensures
        match namespace {
            Ok(name) => namespaces::operator_namespace(graph_id@, index as nat, side@) == Ok::<
                Seq<char>,
                NamespaceError,
            >(name@) && namespace_fault(graph_id@, index as nat, side@) is None,
            Err(error) => namespace_fault(graph_id@, index as nat, side@) == Some(error),
        },
{
    match operator_state(graph_id, index, side) {
        Ok(name) => Ok(name),
        Err(error) => Err(GraphError::Namespace(error)),
    }
}

/// What has to be opened and loaded for the operator at a position.
pub fn plan_operator(
    graph_id: &str,
    node: &OperatorNode,
    index: usize,
    sources: &Vec<String>,
    handles: &Vec<DbspHandleRecord>,
    kinds: &HandleKinds,
) -> (build: Result<OperatorBuild, GraphError>)
    ensures
        match build_fault(graph_id@, *node, index, sources@) {
            Some(fault) => build == Err::<OperatorBuild, GraphError>(fault),
            None => build is Ok && is_build(
                build->Ok_0,
                graph_id@,
                *node,
                index,
                handles@,
                *kinds,
            ),
        },
{
    match node {
        OperatorNode::Scan(scan) => {
            if is_known(sources, scan.source_name.as_str()) {
                Ok(OperatorBuild::Scan)
            } else {
                Err(GraphError::NoHandleStream(OperatorId(index)))
            }
        },
        OperatorNode::MapRows(map) => {
            let upstream: usize = match require_handle_stream(map.input, index) {
                Ok(upstream) => upstream,
                Err(error) => {
                    return Err(error);
                },
            };
            match side_namespace(graph_id, index, "output") {
                Ok(namespace) => Ok(
                    OperatorBuild::MapRows {
                        upstream,
                        table: numbered("map_output_", index),
                        namespace,
                    },
                ),
                Err(error) => Err(error),
            }
        },
        OperatorNode::Filter(filter) => {
            let upstream: usize = match require_handle_stream(filter.input, index) {
                Ok(upstream) => upstream,
                Err(error) => {
                    return Err(error);
                },
            };
            match side_namespace(graph_id, index, "filter") {
                Ok(namespace) => Ok(OperatorBuild::Filter { upstream, namespace }),
                Err(error) => Err(error),
            }
        },
        OperatorNode::Join(join) => {
            let left_upstream: usize = match require_handle_stream(join.left, index) {
                Ok(upstream) => upstream,
                Err(error) => {
                    return Err(error);
                },
            };
            let right_upstream: usize = match require_handle_stream(join.right, index) {
                Ok(upstream) => upstream,
                Err(error) => {
                    return Err(error);
                },
            };
            let left_namespace = match side_namespace(graph_id, index, "left") {
                Ok(namespace) => namespace,
                Err(error) => {
                    return Err(error);
                },
            };
            let right_namespace = match side_namespace(graph_id, index, "right") {
                Ok(namespace) => namespace,
                Err(error) => {
                    return Err(error);
                },
            };
            let output_namespace = match side_namespace(graph_id, index, "output") {
                Ok(namespace) => namespace,
                Err(error) => {
                    return Err(error);
                },
            };
            let left_table = numbered("join_left_", index);
            let right_table = numbered("join_right_", index);
            let left_checkpoint = lookup_handle(
                handles,
                kinds.operator_state.as_str(),
                left_table.as_str(),
            );
            let right_checkpoint = lookup_handle(
                handles,
                kinds.operator_state.as_str(),
                right_table.as_str(),
            );
            Ok(
                OperatorBuild::Join {
                    left: JoinTable {
                        upstream: left_upstream,
                        table: left_table,
                        namespace: left_namespace,
                        checkpoint: left_checkpoint,
                    },
                    right: JoinTable {
                        upstream: right_upstream,
                        table: right_table,
                        namespace: right_namespace,
                        checkpoint: right_checkpoint,
                    },
                    output_table: numbered("join_output_", index),
                    output_namespace,
                },
            )
        },
        OperatorNode::Materialize(materialize) => {
            let upstream: usize = match require_handle_stream(materialize.input, index) {
                Ok(upstream) => upstream,
                Err(error) => {
                    return Err(error);
                },
            };
            let checkpoint = lookup_handle(
                handles,
                kinds.materialized_view.as_str(),
                materialize.view_name.as_str(),
            );
            Ok(OperatorBuild::Materialize { upstream, checkpoint })
        },
    }
}

/// What a plan needs before it can run.
#[derive(Debug)]
pub struct GraphPlan {
    /// The inputs that each operator feeds.
    pub downstreams: Vec<Vec<(usize, InputPort)>>,
    /// Which operator takes the rows of which stream.
    pub scan_operators: Vec<(RowStreamHandle, usize)>,
    /// What has to be opened and loaded for each operator.
    pub builds: Vec<OperatorBuild>,
}

/// Why the first of the first `n` operators that cannot be built cannot.
pub open spec fn first_build_fault(
    graph: Seq<char>,
    operators: Seq<OperatorNode>,
    sources: Seq<String>,
    n: nat,
) -> Option<GraphError>
    decreases n,
{
    if n == 0 {
        None
    } else {
        first_fault(
            first_build_fault(graph, operators, sources, (n - 1) as nat),
            build_fault(graph, operators[n - 1], (n - 1) as usize, sources),
        )
    }
}

/// Why a plan cannot be run.
pub open spec fn graph_fault(
    plan: DataflowPlan,
    connected: Seq<(OperatorId, RowStreamHandle)>,
    sources: Seq<String>,
) -> Option<GraphError> {
    let operators = plan.operators@;
    match missing_operator(operators, operators.len()) {
        Some(id) => Some(GraphError::MissingDownstream(id)),
        None => match scan_streams(operators, connected, operators.len()) {
            Err(error) => Some(error),
            Ok(_) => first_build_fault(plan.graph_id@, operators, sources, operators.len()),
        },
    }
}

proof fn lemma_build_fault_stays(
    graph: Seq<char>,
    operators: Seq<OperatorNode>,
    sources: Seq<String>,
    n: nat,
    m: nat,
)
    requires
        n <= m,
        first_build_fault(graph, operators, sources, n) is Some,
    ensures
        first_build_fault(graph, operators, sources, m) == first_build_fault(
            graph,
            operators,
            sources,
            n,
        ),
    decreases m,
{
    if n < m {
        lemma_build_fault_stays(graph, operators, sources, n, (m - 1) as nat);
    }
}

/// Without a fault among the operators, none of them has one.
proof fn lemma_no_build_fault(
    graph: Seq<char>,
    operators: Seq<OperatorNode>,
    sources: Seq<String>,
    n: nat,
    i: int,
)
    requires
        first_build_fault(graph, operators, sources, n) is None,
        0 <= i < n,
    ensures
        build_fault(graph, operators[i], i as usize, sources) is None,
    decreases n,
{
    if i < n - 1 {
        lemma_no_build_fault(graph, operators, sources, (n - 1) as nat, i);
    }
}

/// Inputs that are fed come from operators before them.
proof fn lemma_fed_inputs_forward(
    inputs: Seq<OutputPort>,
    source: usize,
    index: usize,
    n: nat,
    count: int,
)
    requires
        n <= inputs.len(),
        index < count,
        forall|k: int| 0 <= k < inputs.len() ==> (#[trigger] inputs[k]).operator.0 < index,
    ensures
        stream_operator::targets_within(fed_inputs(inputs, source, index, n), source + 1, count),
    decreases n,
{
    if n > 0 {
        lemma_fed_inputs_forward(inputs, source, index, (n - 1) as nat, count);
        assert(inputs[n - 1].operator.0 < index);
    }
}

/// In a plan without faults, operators feed operators behind them only.
pub proof fn lemma_targets_forward(
    graph: Seq<char>,
    operators: Seq<OperatorNode>,
    sources: Seq<String>,
    source: usize,
    n: nat,
)
    requires
        first_build_fault(graph, operators, sources, operators.len()) is None,
        n <= operators.len(),
        operators.len() <= usize::MAX,
    ensures
        stream_operator::targets_within(
            targets_of(operators, source, n),
            source + 1,
            operators.len() as int,
        ),
    decreases n,
{
    if n > 0 {
        let index = (n - 1) as usize;
        let inputs = inputs_of(operators[n - 1]);
        lemma_targets_forward(graph, operators, sources, source, (n - 1) as nat);
        lemma_no_build_fault(graph, operators, sources, operators.len(), n - 1);
        assert forall|k: int| 0 <= k < inputs.len() implies (#[trigger] inputs[k]).operator.0
            < index by {}
        lemma_fed_inputs_forward(inputs, source, index, inputs.len(), operators.len() as int);
        let front = targets_of(operators, source, (n - 1) as nat);
        let fed = fed_inputs(inputs, source, index, inputs.len());
        assert forall|i: int| 0 <= i < (front + fed).len() implies source + 1 <= (
        #[trigger] (front + fed)[i]).0 && (front + fed)[i].0 < operators.len() by {
            if i < front.len() {
                assert((front + fed)[i] == front[i]);
            } else {
                assert((front + fed)[i] == fed[i - front.len()]);
            }
        }
    }
}

/// Plans how a dataflow is run: what feeds what, and what has to be opened and loaded.
pub fn plan_graph(
    plan: &DataflowPlan,
    connected: &Vec<(OperatorId, RowStreamHandle)>,
    sources: &Vec<String>,
    handles: &Vec<DbspHandleRecord>,
    kinds: &HandleKinds,
) -> (result: Result<GraphPlan, GraphError>)
    ensures
        match graph_fault(*plan, connected@, sources@) {
            Some(fault) => result == Err::<GraphPlan, GraphError>(fault),
            None => {
                &&& result is Ok
                &&& result->Ok_0.downstreams@.len() == plan.operators@.len()
                &&& forall|i: usize|
                    i < plan.operators@.len() ==> (
                    #[trigger] result->Ok_0.downstreams@[i as int])@ == targets_of(
                        plan.operators@,
                        i,
                        plan.operators@.len(),
                    )
                &&& scan_streams(plan.operators@, connected@, plan.operators@.len()) == Ok::<
                    Seq<(RowStreamHandle, usize)>,
                    GraphError,
                >(result->Ok_0.scan_operators@)
                &&& result->Ok_0.builds@.len() == plan.operators@.len()
                &&& forall|i: int|
                    0 <= i < plan.operators@.len() ==> is_build(
                        #[trigger] result->Ok_0.builds@[i],
                        plan.graph_id@,
                        plan.operators@[i],
                        i as usize,
                        handles@,
                        *kinds,
                    )
            },
        },
{
    let downstreams = match downstreams(&plan.operators) {
        Ok(downstreams) => downstreams,
        Err(error) => {
            return Err(error);
        },
    };
    let scan_operators = match scan_operator_map(&plan.operators, connected) {
        Ok(scan_operators) => scan_operators,
        Err(error) => {
            return Err(error);
        },
    };
    let mut builds: Vec<OperatorBuild> = Vec::new();
    let mut i: usize = 0;
    while i < plan.operators.len()
        invariant
            i <= plan.operators@.len(),
            missing_operator(plan.operators@, plan.operators@.len()) is None,
            scan_streams(plan.operators@, connected@, plan.operators@.len()) is Ok,
            first_build_fault(plan.graph_id@, plan.operators@, sources@, i as nat) is None,
            builds@.len() == i,
            forall|j: int|
                0 <= j < i ==> is_build(
                    #[trigger] builds@[j],
                    plan.graph_id@,
                    plan.operators@[j],
                    j as usize,
                    handles@,
                    *kinds,
                ),
        decreases plan.operators@.len() - i,
    {
        match plan_operator(
            plan.graph_id.as_str(),
            &plan.operators[i],
            i,
            sources,
            handles,
            kinds,
        ) {
            Ok(build) => {
                builds.push(build);
            },
            Err(error) => {
                proof {
                    lemma_build_fault_stays(
                        plan.graph_id@,
                        plan.operators@,
                        sources@,
                        (i + 1) as nat,
                        plan.operators@.len(),
                    );
                }
                return Err(error);
            },
        }
        i = i + 1;
    }
    Ok(GraphPlan { downstreams, scan_operators, builds })
}

/// What was loaded for an operator.
pub struct OperatorState {
    /// The rows of the left side of a join.
    pub left: Vec<(Row, Diff)>,
    /// The rows of the right side of a join.
    pub right: Vec<(Row, Diff)>,
    /// The rows of a view.
    pub view_rows: Vec<(Row, Diff)>,
    /// The encoded rows of a view.
    pub view_keys: Option<ZSet>,
}

impl OperatorState {
    /// Nothing was loaded.
    pub fn empty() -> (state: Self)
        ensures
            state.left@.len() == 0,
            state.right@.len() == 0,
            state.view_rows@.len() == 0,
            state.view_keys is None,
    {
        OperatorState {
            left: Vec::new(),
            right: Vec::new(),
            view_rows: Vec::new(),
            view_keys: None,
        }
    }
}

/// The rows of one side of a join after its stored rows are loaded.
pub open spec fn restored_side(
    on: Seq<(usize, usize)>,
    side: JoinSide,
    stored: Seq<(Row, Diff)>,
) -> join::Loaded {
    join::loaded(KeyedCounts::empty(), join::change_views(stored), on, side, stored.len())
}

/// An operator of a plan, with its targets and with what was loaded for it.
pub open spec fn built(
    op: StreamOperator,
    node: OperatorNode,
    targets: Seq<(usize, InputPort)>,
    state: OperatorState,
) -> bool {
    match (node, op) {
        (OperatorNode::Scan(scan), StreamOperator::Scan(o)) => {
            &&& o.source_name == scan.source_name
            &&& o.sink.targets@ == targets
            &&& o.sink.queue@.len() == 0
        },
        (OperatorNode::MapRows(map), StreamOperator::MapRows(o)) => {
            &&& o.input == port_of(map.input)
            &&& o.expressions == map.expressions
            &&& o.sink.targets@ == targets
            &&& o.sink.queue@.len() == 0
        },
        (OperatorNode::Filter(filter), StreamOperator::Filter(o)) => {
            &&& o.input == port_of(filter.input)
            &&& o.predicate == filter.predicate
            &&& o.sink.targets@ == targets
            &&& o.sink.queue@.len() == 0
        },
        (OperatorNode::Join(join), StreamOperator::Join(o)) => {
            &&& o.left_input == port_of(join.left)
            &&& o.right_input == port_of(join.right)
            &&& o.join_keys == join.on
            &&& o.projection == join.projection
            &&& o.sink.targets@ == targets
            &&& o.sink.queue@.len() == 0
            &&& o.rows(JoinSide::Left) == restored_side(join.on@, JoinSide::Left, state.left@).rows
            &&& o.rows(JoinSide::Right) == restored_side(
                join.on@,
                JoinSide::Right,
                state.right@,
            ).rows
        },
        (OperatorNode::Materialize(materialize), StreamOperator::Materialize(o)) => {
            &&& o.input == port_of(materialize.input)
            &&& o.last_published_ts is None
            &&& match state.view_keys {
                Some(keys) => o.published.view() == keys.view(),
                None => o.published.view() == Seq::<(Seq<u8>, int)>::empty(),
            }
        },
        _ => false,
    }
}

/// Why the stored rows of a join cannot be loaded.
pub open spec fn join_state_fault(node: OperatorNode, state: OperatorState) -> Option<
    OperatorError,
> {
    match node {
        OperatorNode::Join(join) => match restored_side(
            join.on@,
            JoinSide::Left,
            state.left@,
        ).failure {
            Some(error) => Some(error),
            None => restored_side(join.on@, JoinSide::Right, state.right@).failure,
        },
        _ => None,
    }
}

/// What a view holds.
#[verifier::ext_equal]
pub struct ViewContents {
    pub name: Seq<char>,
    /// The rows, each with how often it occurs.
    pub rows: Seq<(Seq<ScalarView>, int)>,
    pub watermark: Option<Timestamp>,
}

/// What the views of a registry hold.
pub open spec fn contents(registry: MaterializedViewRegistry) -> Seq<ViewContents> {
    Seq::new(
        registry.views().len(),
        |i: int|
            ViewContents {
                name: registry.views()[i].view_name(),
                rows: registry.views()[i].rows(),
                watermark: registry.views()[i].view_watermark(),
            },
    )
}

/// The names of views.
pub open spec fn names_of(views: Seq<ViewContents>) -> Seq<Seq<char>> {
    Seq::new(views.len(), |i: int| views[i].name)
}

/// Two views have the same name and watermark, and hold every row equally often.
pub open spec fn same_contents(a: ViewContents, b: ViewContents) -> bool {
    &&& a.name == b.name
    &&& a.watermark == b.watermark
    &&& forall|row: Seq<ScalarView>|
        #[trigger] materialized_view::multiplicity(a.rows, row) == materialized_view::multiplicity(
            b.rows,
            row,
        )
}

/// The views are the same, one by one.
pub open spec fn all_same(a: Seq<ViewContents>, b: Seq<ViewContents>) -> bool {
    &&& a.len() == b.len()
    &&& forall|i: int| 0 <= i < a.len() ==> same_contents(#[trigger] a[i], b[i])
}

/// The position of the view of a name, or of a new one.
pub open spec fn position_of(views: Seq<ViewContents>, name: Seq<char>) -> nat {
    match materialized_view::first_named(names_of(views), name, views.len()) {
        Some(at) => at,
        None => views.len(),
    }
}

/// The views with the view of a name, which is new and holds nothing where there was none.
pub open spec fn with_view(views: Seq<ViewContents>, name: Seq<char>) -> Seq<ViewContents> {
    if position_of(views, name) < views.len() {
        views
    } else {
        views.push(ViewContents { name, rows: Seq::empty(), watermark: None })
    }
}

/// The rows of the view of a name.
pub open spec fn rows_of(views: Seq<ViewContents>, name: Seq<char>) -> Seq<
    (Seq<ScalarView>, int),
> {
    with_view(views, name)[position_of(views, name) as int].rows
}

/// The views after stored rows are loaded into the view of a name: those before the first one
/// whose multiplicity does not fit.
pub open spec fn with_loaded_rows(
    views: Seq<ViewContents>,
    name: Seq<char>,
    stored: Seq<(Row, Diff)>,
) -> Seq<ViewContents> {
    let at = position_of(views, name) as int;
    let all = with_view(views, name);
    let changes = materialized_view::counted(stored);
    all.update(
        at,
        ViewContents {
            rows: all[at].rows + changes.take(
                materialize::fitting(all[at].rows, changes, stored.len()) as int,
            ),
            ..all[at]
        },
    )
}

/// The stored rows of a view among what was loaded for its operator.
pub open spec fn stored_view_rows(loaded: Option<OperatorState>) -> Seq<(Row, Diff)> {
    match loaded {
        Some(state) => state.view_rows@,
        None => Seq::empty(),
    }
}

/// Why what was loaded for an operator cannot be restored: a stored row of a join has no key, or
/// a multiplicity in a view does not fit into sixty-four bits.
pub open spec fn operator_fault(
    node: OperatorNode,
    loaded: Option<OperatorState>,
    views: Seq<ViewContents>,
) -> Option<OperatorError> {
    match node {
        OperatorNode::Join(_) => match loaded {
            Some(state) => join_state_fault(node, state),
            None => None,
        },
        OperatorNode::Materialize(materialize) => {
            let stored = stored_view_rows(loaded);
            if materialize::changes_fit(
                rows_of(views, materialize.view_name@),
                materialized_view::counted(stored),
                stored.len(),
            ) {
                None
            } else {
                Some(OperatorError::MultiplicityOverflow)
            }
        },
        _ => None,
    }
}

/// The views after what was loaded for an operator is restored.
pub open spec fn views_after(
    node: OperatorNode,
    loaded: Option<OperatorState>,
    views: Seq<ViewContents>,
) -> Seq<ViewContents> {
    match node {
        OperatorNode::Materialize(materialize) => with_loaded_rows(
            views,
            materialize.view_name@,
            stored_view_rows(loaded),
        ),
        _ => views,
    }
}

/// How far restoring the operators of a plan came.
pub struct Restored {
    /// What the views hold.
    pub views: Seq<ViewContents>,
    /// The failure that ended it.
    pub fault: Option<OperatorError>,
}

/// What the views hold after the first `n` operators are restored one after the other, up to the
/// first that cannot be.
pub open spec fn restored(
    views: Seq<ViewContents>,
    operators: Seq<OperatorNode>,
    states: Seq<OperatorState>,
    n: nat,
) -> Restored
    decreases n,
{
    if n == 0 {
        Restored { views, fault: None }
    } else {
        let before = restored(views, operators, states, (n - 1) as nat);
        if before.fault is Some {
            before
        } else {
            let node = operators[n - 1];
            let loaded = state_at(states, n - 1);
            Restored {
                views: views_after(node, loaded, before.views),
                fault: operator_fault(node, loaded, before.views),
            }
        }
    }
}

/// Why the operators of a plan cannot be restored.
pub open spec fn restore_fault(
    operators: Seq<OperatorNode>,
    states: Seq<OperatorState>,
    views: Seq<ViewContents>,
) -> Option<OperatorError> {
    restored(views, operators, states, operators.len()).fault
}

/// What the views hold once the operators of a plan are restored.
pub open spec fn restored_views(
    operators: Seq<OperatorNode>,
    states: Seq<OperatorState>,
    views: Seq<ViewContents>,
) -> Seq<ViewContents> {
    restored(views, operators, states, operators.len()).views
}

/// Once an operator cannot be restored, later ones do not matter.
proof fn lemma_restored_ended(
    views: Seq<ViewContents>,
    operators: Seq<OperatorNode>,
    states: Seq<OperatorState>,
    n: nat,
    m: nat,
)
    requires
        n <= m,
        restored(views, operators, states, n).fault is Some,
    ensures
        restored(views, operators, states, m) == restored(views, operators, states, n),
    decreases m,
{
    if n < m {
        lemma_restored_ended(views, operators, states, n, (m - 1) as nat);
    }
}

/// Whether changes fit depends only on how often each row occurs before them.
proof fn lemma_fit_of_same_rows(
    a: Seq<(Seq<ScalarView>, int)>,
    b: Seq<(Seq<ScalarView>, int)>,
    changes: Seq<(Seq<ScalarView>, int)>,
    n: nat,
)
    requires
        forall|row: Seq<ScalarView>|
            #[trigger] materialized_view::multiplicity(a, row) == materialized_view::multiplicity(
                b,
                row,
            ),
    ensures
        materialize::changes_fit(a, changes, n) == materialize::changes_fit(b, changes, n),
        materialize::fitting(a, changes, n) == materialize::fitting(b, changes, n),
    decreases n,
{
    if n > 0 {
        lemma_fit_of_same_rows(a, b, changes, (n - 1) as nat);
        let row = changes[n - 1].0;
        materialized_view::lemma_multiplicity_append(a, changes.take(n as int), row);
        materialized_view::lemma_multiplicity_append(b, changes.take(n as int), row);
        assert(materialized_view::multiplicity(a, row) == materialized_view::multiplicity(b, row));
    }
}

/// Restoring an operator depends only on the names of the views and on how often they hold each
/// row.
proof fn lemma_restore_of_same_views(
    node: OperatorNode,
    loaded: Option<OperatorState>,
    a: Seq<ViewContents>,
    b: Seq<ViewContents>,
)
    requires
        all_same(a, b),
    ensures
        operator_fault(node, loaded, a) == operator_fault(node, loaded, b),
        all_same(views_after(node, loaded, a), views_after(node, loaded, b)),
{
    match node {
        OperatorNode::Materialize(materialize) => {
            let name = materialize.view_name@;
            let stored = stored_view_rows(loaded);
            let changes = materialized_view::counted(stored);
            assert forall|i: int| 0 <= i < a.len() implies a[i].name == b[i].name by {
                assert(same_contents(a[i], b[i]));
            }
            assert(names_of(a) =~= names_of(b));
            materialized_view::lemma_first_named_is(names_of(a), name, a.len());
            let at = position_of(a, name) as int;
            let x = with_view(a, name);
            let y = with_view(b, name);
            assert forall|i: int| 0 <= i < x.len() implies same_contents(
                #[trigger] x[i],
                y[i],
            ) by {
                if i < a.len() {
                    assert(same_contents(a[i], b[i]));
                }
            }
            assert(same_contents(x[at], y[at]));
            lemma_fit_of_same_rows(x[at].rows, y[at].rows, changes, stored.len());
            let taken = changes.take(
                materialize::fitting(x[at].rows, changes, stored.len()) as int,
            );
            let after = views_after(node, loaded, a);
            let other = views_after(node, loaded, b);
            assert forall|i: int| 0 <= i < after.len() implies same_contents(
                #[trigger] after[i],
                other[i],
            ) by {
                assert(same_contents(x[i], y[i]));
                if i == at {
                    assert forall|row: Seq<ScalarView>| #[trigger]
                        materialized_view::multiplicity(after[i].rows, row)
                            == materialized_view::multiplicity(other[i].rows, row) by {
                        materialized_view::lemma_multiplicity_append(x[at].rows, taken, row);
                        materialized_view::lemma_multiplicity_append(y[at].rows, taken, row);
                        assert(materialized_view::multiplicity(x[at].rows, row)
                            == materialized_view::multiplicity(y[at].rows, row));
                    }
                }
            }
        },
        _ => {},
    }
}

/// Views that are the same as others, which are the same as third ones, are the same as these.
proof fn lemma_all_same(a: Seq<ViewContents>, b: Seq<ViewContents>, c: Seq<ViewContents>)
    requires
        all_same(a, b),
        all_same(b, c),
    ensures
        all_same(a, c),
{
    assert forall|i: int| 0 <= i < a.len() implies same_contents(#[trigger] a[i], c[i]) by {
        assert(same_contents(a[i], b[i]));
        assert(same_contents(b[i], c[i]));
        assert forall|row: Seq<ScalarView>| #[trigger]
            materialized_view::multiplicity(a[i].rows, row) == materialized_view::multiplicity(
                c[i].rows,
                row,
            ) by {
            assert(materialized_view::multiplicity(a[i].rows, row)
                == materialized_view::multiplicity(b[i].rows, row));
        }
    }
}

/// Later views do not change the names of earlier ones.
pub open spec fn names_kept(
    before: MaterializedViewRegistry,
    after: MaterializedViewRegistry,
) -> bool {
    &&& before.views().len() <= after.views().len()
    &&& forall|i: int|
        0 <= i < before.views().len() ==> (#[trigger] after.views()[i]).view_name()
            == before.views()[i].view_name()
}

/// Where a view is kept that has a name.
pub open spec fn keeps_view(
    op: StreamOperator,
    node: OperatorNode,
    registry: MaterializedViewRegistry,
) -> bool {
    match (node, op) {
        (OperatorNode::Materialize(materialize), StreamOperator::Materialize(o)) => {
            &&& o.view < registry.views().len()
            &&& registry.views()[o.view as int].view_name() == materialize.view_name@
            &&& materialized_view::first_named(
                materialized_view::view_names(registry.views()),
                materialize.view_name@,
                registry.views().len(),
            ) == Some(o.view as nat)
        },
        _ => true,
    }
}

/// Builds an operator that feeds its targets.
fn build_operator(
    node: OperatorNode,
    targets: Vec<(usize, InputPort)>,
    state: OperatorState,
    registry: &mut MaterializedViewRegistry,
) -> (result: Result<StreamOperator, GraphError>)
    ensures
        names_kept(*old(registry), *final(registry)),
        all_same(
            contents(*final(registry)),
            views_after(node, Some(state), contents(*old(registry))),
        ),
        match result {
            Ok(op) => {
                &&& operator_fault(node, Some(state), contents(*old(registry))) is None
                &&& built(op, node, targets@, state)
                &&& keeps_view(op, node, *final(registry))
            },
            Err(GraphError::State(error)) => operator_fault(
                node,
                Some(state),
                contents(*old(registry)),
            ) == Some(error),
            Err(_) => false,
        },
{
    match node {
        OperatorNode::Scan(scan) => {
            let sink = DispatchSink::new(targets, VecDeque::new());
            Ok(StreamOperator::Scan(ScanOperator::new(scan.source_name, sink)))
        },
        OperatorNode::MapRows(map) => {
            let sink = DispatchSink::new(targets, VecDeque::new());
            Ok(
                StreamOperator::MapRows(
                    MapOperator::new(input_port(map.input), map.expressions, sink),
                ),
            )
        },
        OperatorNode::Filter(filter) => {
            let sink = DispatchSink::new(targets, VecDeque::new());
            Ok(
                StreamOperator::Filter(
                    FilterOperator::new(input_port(filter.input), filter.predicate, sink),
                ),
            )
        },
        OperatorNode::Join(join) => {
            let sink = DispatchSink::new(targets, VecDeque::new());
            let mut op = JoinOperator::new(
                input_port(join.left),
                input_port(join.right),
                join.on,
                join.projection,
                sink,
            );
            match op.load_snapshot(state.left, JoinSide::Left) {
                Ok(()) => {},
                Err(error) => {
                    return Err(GraphError::State(error));
                },
            }
            match op.load_snapshot(state.right, JoinSide::Right) {
                Ok(()) => {},
                Err(error) => {
                    return Err(GraphError::State(error));
                },
            }
            Ok(StreamOperator::Join(op))
        },
        OperatorNode::Materialize(materialize) => {
            let ghost name = materialize.view_name@;
            let op = MaterializeOperator::new(
                input_port(materialize.input),
                materialize.view_name,
                registry,
                NullSink,
                state.view_keys,
            );
            let at: usize = op.view;
            proof {
                materialized_view::lemma_first_named_is(
                    materialized_view::view_names(registry.views()),
                    name,
                    registry.views().len(),
                );
            }
            let ghost middle = *registry;
            let fits = apply_view_deltas(registry.view_mut(at), &state.view_rows);
            assert forall|i: int| 0 <= i < middle.views().len() implies (
            #[trigger] registry.views()[i]).view_name() == middle.views()[i].view_name() by {}
            proof {
                let before = contents(*old(registry));
                let all = with_view(before, name);
                assert(names_of(before) =~= materialized_view::view_names(old(registry).views()));
                materialized_view::lemma_first_named_is(names_of(before), name, before.len());
                assert forall|i: int| 0 <= i < middle.views().len() implies all[i] == (
                #[trigger] contents(middle)[i]) by {
                    if i < before.len() {
                        assert(middle.views()[i] == old(registry).views()[i]);
                    }
                }
                assert(all =~= contents(middle));
                assert(position_of(before, name) == at);
                let after = with_loaded_rows(before, name, state.view_rows@);
                let made = contents(*registry);
                assert forall|i: int| 0 <= i < made.len() implies same_contents(
                    #[trigger] made[i],
                    after[i],
                ) by {
                    if i != at {
                        assert(registry.views()[i] == middle.views()[i]);
                    }
                }
                assert(materialized_view::view_names(registry.views())
                    =~= materialized_view::view_names(middle.views()));
            }
            if !fits {
                return Err(GraphError::State(OperatorError::MultiplicityOverflow));
            }
            Ok(StreamOperator::Materialize(op))
        },
    }
}

/// A running plan: the operators, what each of them keeps in storage, the streams of the sources,
/// and which operator takes which.
pub struct BuiltGraph {
    pub ops: Vec<StreamOperator>,
    pub builds: Vec<OperatorBuild>,
    pub scan_bindings: Vec<(String, RowStreamHandle)>,
    pub scan_operator_map: Vec<(RowStreamHandle, usize)>,
}

/// Operators feed operators behind them only, and have no events of their own left.
pub open spec fn flows_forward(ops: Seq<StreamOperator>) -> bool {
    forall|i: int|
        0 <= i < ops.len() ==> stream_operator::targets_within(
            (#[trigger] ops[i]).targets(),
            i + 1,
            ops.len() as int,
        ) && ops[i].pending().len() == 0
}

/// What was loaded for the operator at a position.
pub open spec fn state_at(states: Seq<OperatorState>, i: int) -> Option<OperatorState> {
    if i < states.len() {
        Some(states[i])
    } else {
        None
    }
}

/// An operator of a plan, built from what was loaded for it, if anything.
pub open spec fn built_at(
    op: StreamOperator,
    node: OperatorNode,
    targets: Seq<(usize, InputPort)>,
    loaded: Option<OperatorState>,
) -> bool {
    match loaded {
        Some(state) => built(op, node, targets, state),
        None => exists|state: OperatorState|
            {
                &&& #[trigger] built(op, node, targets, state)
                &&& state.left@.len() == 0
                &&& state.right@.len() == 0
                &&& state.view_rows@.len() == 0
                &&& state.view_keys is None
            },
    }
}

/// How often a row is stored for the view of a name, over the first `n` operators.
pub open spec fn stored_multiplicity(
    operators: Seq<OperatorNode>,
    states: Seq<OperatorState>,
    name: Seq<char>,
    row: Seq<ScalarView>,
    n: nat,
) -> int
    decreases n,
{
    if n == 0 {
        0
    } else {
        stored_multiplicity(operators, states, name, row, (n - 1) as nat) + match operators[n - 1] {
            OperatorNode::Materialize(materialize) => if materialize.view_name@ == name {
                materialized_view::multiplicity(
                    materialized_view::counted(stored_view_rows(state_at(states, n - 1))),
                    row,
                )
            } else {
                0
            },
            _ => 0,
        }
    }
}

/// Loading rows that fit into a view adds them to it and leaves the other views as they are.
proof fn lemma_loaded_rows(
    views: Seq<ViewContents>,
    loaded: Seq<char>,
    stored: Seq<(Row, Diff)>,
    name: Seq<char>,
    row: Seq<ScalarView>,
)
    requires
        materialize::changes_fit(
            rows_of(views, loaded),
            materialized_view::counted(stored),
            stored.len(),
        ),
    ensures
        materialized_view::multiplicity(
            rows_of(with_loaded_rows(views, loaded, stored), name),
            row,
        ) == materialized_view::multiplicity(rows_of(views, name), row) + if loaded == name {
            materialized_view::multiplicity(materialized_view::counted(stored), row)
        } else {
            0
        },
{
    let all = with_view(views, loaded);
    let after = with_loaded_rows(views, loaded, stored);
    let names = names_of(views);
    let changes = materialized_view::counted(stored);
    assert(names.len() == views.len());
    materialized_view::lemma_first_named_is(names, loaded, names.len());
    assert(names_of(after) =~= names_of(all));
    materialized_view::lemma_first_named_is(names, name, names.len());
    materialized_view::lemma_first_named_prefix(names, names_of(all), name, names.len());
    materialized_view::lemma_first_named_prefix(names, names_of(all), loaded, names.len());
    if materialized_view::first_named(names, name, names.len()) is Some {
        materialized_view::lemma_first_named_stays(
            names_of(all),
            name,
            names.len(),
            names_of(all).len(),
        );
    }
    if materialized_view::first_named(names, loaded, names.len()) is Some {
        materialized_view::lemma_first_named_stays(
            names_of(all),
            loaded,
            names.len(),
            names_of(all).len(),
        );
    }
    if loaded == name {
        assert(changes.take(stored.len() as int) =~= changes);
        materialized_view::lemma_multiplicity_append(rows_of(views, name), changes, row);
        if stored.len() == 0 {
            assert(changes =~= Seq::empty());
        }
        assert(position_of(after, name) == position_of(views, name));
    } else {
        assert(rows_of(after, name) == rows_of(views, name));
    }
}

/// Where the operators of a plan can be restored, each view holds every row as often as it did
/// before, and besides as often as the row is stored for the view.
pub proof fn law_restored_views_hold_their_stored_rows(
    operators: Seq<OperatorNode>,
    states: Seq<OperatorState>,
    views: Seq<ViewContents>,
    name: Seq<char>,
    row: Seq<ScalarView>,
)
    requires
        restore_fault(operators, states, views) is None,
    ensures
        materialized_view::multiplicity(
            rows_of(restored_views(operators, states, views), name),
            row,
        ) == materialized_view::multiplicity(rows_of(views, name), row) + stored_multiplicity(
            operators,
            states,
            name,
            row,
            operators.len(),
        ),
{
    lemma_restored_rows(operators, states, views, name, row, operators.len());
}

/// After the first `n` operators are restored, each view holds the rows that are stored for it.
proof fn lemma_restored_rows(
    operators: Seq<OperatorNode>,
    states: Seq<OperatorState>,
    views: Seq<ViewContents>,
    name: Seq<char>,
    row: Seq<ScalarView>,
    n: nat,
)
    requires
        restored(views, operators, states, n).fault is None,
    ensures
        materialized_view::multiplicity(
            rows_of(restored(views, operators, states, n).views, name),
            row,
        ) == materialized_view::multiplicity(rows_of(views, name), row) + stored_multiplicity(
            operators,
            states,
            name,
            row,
            n,
        ),
    decreases n,
{
    if n > 0 {
        lemma_restored_rows(operators, states, views, name, row, (n - 1) as nat);
        match operators[n - 1] {
            OperatorNode::Materialize(materialize) => {
                lemma_loaded_rows(
                    restored(views, operators, states, (n - 1) as nat).views,
                    materialize.view_name@,
                    stored_view_rows(state_at(states, n - 1)),
                    name,
                    row,
                );
            },
            _ => {},
        }
    }
}

/// A state that holds nothing restores as none does.
proof fn lemma_restore_of_nothing(
    node: OperatorNode,
    state: OperatorState,
    views: Seq<ViewContents>,
)
    requires
        state.left@.len() == 0,
        state.right@.len() == 0,
        state.view_rows@.len() == 0,
    ensures
        operator_fault(node, Some(state), views) == operator_fault(node, None, views),
        views_after(node, Some(state), views) == views_after(node, None, views),
{
    assert(state.view_rows@ =~= Seq::empty());
}

/// A view that an operator keeps stays where it is when views are added.
proof fn lemma_keeps_view(
    op: StreamOperator,
    node: OperatorNode,
    before: MaterializedViewRegistry,
    after: MaterializedViewRegistry,
)
    requires
        keeps_view(op, node, before),
        names_kept(before, after),
    ensures
        keeps_view(op, node, after),
{
    match node {
        OperatorNode::Materialize(materialize) => {
            let names = materialized_view::view_names(before.views());
            let more = materialized_view::view_names(after.views());
            let name = materialize.view_name@;
            assert forall|i: int| 0 <= i < names.len() implies names[i] == more[i] by {
                assert(after.views()[i].view_name() == before.views()[i].view_name());
            }
            materialized_view::lemma_first_named_prefix(names, more, name, names.len());
            if materialized_view::first_named(names, name, names.len()) is Some {
                materialized_view::lemma_first_named_stays(more, name, names.len(), more.len());
            }
        },
        _ => {},
    }
}

/// Builds the operators of a plan, each feeding those behind it, from what was loaded for them.
/// The views hold the rows that were stored for them, besides what they held before. Where an
/// operator cannot be restored, those before it have been.
pub fn build_graph(
    plan: DataflowPlan,
    connected: &Vec<(OperatorId, RowStreamHandle)>,
    scan_bindings: Vec<(String, RowStreamHandle)>,
    sources: &Vec<String>,
    handles: &Vec<DbspHandleRecord>,
    kinds: &HandleKinds,
    states: Vec<OperatorState>,
    registry: &mut MaterializedViewRegistry,
) -> (result: Result<BuiltGraph, GraphError>)
    ensures
        names_kept(*old(registry), *final(registry)),
        match graph_fault(plan, connected@, sources@) {
            Some(_) => *final(registry) == *old(registry),
            None => all_same(
                contents(*final(registry)),
                restored_views(plan.operators@, states@, contents(*old(registry))),
            ),
        },
        match result {
            Ok(graph) => {
                let operators = plan.operators@;
                &&& graph_fault(plan, connected@, sources@) is None
                &&& restore_fault(operators, states@, contents(*old(registry))) is None
                &&& graph.ops@.len() == operators.len()
                &&& forall|i: int|
                    0 <= i < operators.len() ==> built_at(
                        #[trigger] graph.ops@[i],
                        operators[i],
                        targets_of(operators, i as usize, operators.len()),
                        state_at(states@, i),
                    ) && keeps_view(graph.ops@[i], operators[i], *final(registry))
                &&& graph.builds@.len() == operators.len()
                &&& forall|i: int|
                    0 <= i < operators.len() ==> is_build(
                        #[trigger] graph.builds@[i],
                        plan.graph_id@,
                        operators[i],
                        i as usize,
                        handles@,
                        *kinds,
                    )
                &&& flows_forward(graph.ops@)
                &&& graph.scan_bindings == scan_bindings
                &&& scan_streams(operators, connected@, operators.len()) == Ok::<
                    Seq<(RowStreamHandle, usize)>,
                    GraphError,
                >(graph.scan_operator_map@)
            },
            Err(error) => match graph_fault(plan, connected@, sources@) {
                Some(fault) => error == fault,
                None => match restore_fault(plan.operators@, states@, contents(*old(registry))) {
                    Some(fault) => error == GraphError::State(fault),
                    None => false,
                },
            },
        },
{
    let graph = match plan_graph(&plan, connected, sources, handles, kinds) {
        Ok(graph) => graph,
        Err(error) => {
            return Err(error);
        },
    };
    let ghost operators = plan.operators@;
    let ghost graph_id = plan.graph_id@;
    let count: usize = plan.operators.len();
    let mut downstreams = graph.downstreams;
    let ghost loaded = states@;
    let mut rest = states;
    let ghost start = contents(*registry);
    let mut ops: Vec<StreamOperator> = Vec::new();
    for node in it: plan.operators
        invariant
            it.seq() == operators,
            ops@.len() == it.index(),
            downstreams@.len() == operators.len(),
            forall|i: usize|
                it.index() <= i < operators.len() ==> (#[trigger] downstreams@[i as int])@
                    == targets_of(operators, i, operators.len()),
            rest@.len() == loaded.len(),
            operators == plan.operators@,
            loaded == states@,
            forall|i: int| it.index() <= i < loaded.len() ==> (#[trigger] rest@[i]) == loaded[i],
            graph_fault(plan, connected@, sources@) is None,
            first_build_fault(graph_id, operators, sources@, operators.len()) is None,
            operators.len() == count,
            names_kept(*old(registry), *registry),
            start == contents(*old(registry)),
            restored(start, operators, loaded, it.index() as nat).fault is None,
            all_same(
                contents(*registry),
                restored(start, operators, loaded, it.index() as nat).views,
            ),
            forall|i: int|
                0 <= i < it.index() ==> built_at(
                    #[trigger] ops@[i],
                    operators[i],
                    targets_of(operators, i as usize, operators.len()),
                    state_at(loaded, i),
                ) && keeps_view(ops@[i], operators[i], *registry),
            forall|i: int|
                0 <= i < it.index() ==> stream_operator::targets_within(
                    (#[trigger] ops@[i]).targets(),
                    i + 1,
                    operators.len() as int,
                ) && ops@[i].pending().len() == 0,
    {
        let index: usize = ops.len();
        let ghost at = it.index() as int;
        assert(node == operators[at]);
        let mut targets: Vec<(usize, InputPort)> = Vec::new();
        std::mem::swap(&mut targets, &mut downstreams[index]);
        let mut state = OperatorState::empty();
        if index < rest.len() {
            std::mem::swap(&mut state, &mut rest[index]);
        }
        let ghost middle = *registry;
        let made = build_operator(node, targets, state, registry);
        proof {
            let views = restored(start, operators, loaded, at as nat).views;
            let after = restored(start, operators, loaded, (at + 1) as nat);
            lemma_restore_of_same_views(node, Some(state), contents(middle), views);
            if at >= loaded.len() {
                lemma_restore_of_nothing(node, state, views);
            }
            assert(after.views == views_after(node, Some(state), views));
            assert(after.fault == operator_fault(node, Some(state), views));
            lemma_all_same(
                contents(*registry),
                views_after(node, Some(state), contents(middle)),
                after.views,
            );
            if after.fault is Some {
                lemma_restored_ended(
                    start,
                    operators,
                    loaded,
                    (at + 1) as nat,
                    operators.len(),
                );
            }
            assert forall|i: int| 0 <= i < at implies keeps_view(
                #[trigger] ops@[i],
                operators[i],
                *registry,
            ) by {
                lemma_keeps_view(ops@[i], operators[i], middle, *registry);
            }
        }
        match made {
            Ok(op) => {
                proof {
                    lemma_targets_forward(
                        graph_id,
                        operators,
                        sources@,
                        index,
                        operators.len(),
                    );
                    assert(op.targets() == targets@ || op.targets().len() == 0);
                    assert(op.pending() =~= Seq::empty());
                    assert(built(op, node, targets@, state));
                }
                ops.push(op);
            },
            Err(error) => {
                return Err(error);
            },
        }
    }
    Ok(
        BuiltGraph {
            ops,
            builds: graph.builds,
            scan_bindings,
            scan_operator_map: graph.scan_operators,
        },
    )
}

/// An operator reads the output of another one through a port.
pub open spec fn reads(node: OperatorNode, source: usize, port: InputPort) -> bool {
    let through = |input: OutputPort|
        input.operator.0 == source && port.operator == input.operator && port.port_index
            == input.port_index;
    match node {
        OperatorNode::Scan(_) => false,
        OperatorNode::MapRows(map) => through(map.input),
        OperatorNode::Filter(filter) => through(filter.input),
        OperatorNode::Join(join) => through(join.left) || through(join.right),
        OperatorNode::Materialize(materialize) => through(materialize.input),
    }
}

/// An operator feeds just the inputs of the operators that read it.
#[verifier::rlimit(40)]
pub proof fn law_operators_feed_their_readers(
    operators: Seq<OperatorNode>,
    source: usize,
    n: nat,
    target: usize,
    port: InputPort,
)
    requires
        n <= operators.len() <= usize::MAX,
    ensures
        targets_of(operators, source, n).contains((target, port)) <==> target < n && reads(
            operators[target as int],
            source,
            port,
        ),
    decreases n,
{
    if n > 0 {
        law_operators_feed_their_readers(operators, source, (n - 1) as nat, target, port);
        let inputs = inputs_of(operators[n - 1]);
        let front = targets_of(operators, source, (n - 1) as nat);
        let fed = fed_inputs(inputs, source, (n - 1) as usize, inputs.len());
        let all = targets_of(operators, source, n);
        lemma_fed_inputs(inputs, source, (n - 1) as usize, inputs.len(), target, port);
        assert(all == front + fed);
        if front.contains((target, port)) {
            let k = choose|k: int| 0 <= k < front.len() && front[k] == (target, port);
            assert(all[k] == (target, port));
        }
        if fed.contains((target, port)) {
            let k = choose|k: int| 0 <= k < fed.len() && fed[k] == (target, port);
            assert(all[front.len() + k] == (target, port));
        }
        if all.contains((target, port)) {
            let k = choose|k: int| 0 <= k < all.len() && all[k] == (target, port);
            if k < front.len() {
                assert(front[k] == (target, port));
            } else {
                assert(fed[k - front.len()] == (target, port));
            }
        }
        if target == n - 1 && reads(operators[target as int], source, port) {
            let node = operators[n - 1];
            match node {
                OperatorNode::Scan(_) => {},
                OperatorNode::MapRows(map) => {
                    assert(inputs[0] == map.input);
                },
                OperatorNode::Filter(filter) => {
                    assert(inputs[0] == filter.input);
                },
                OperatorNode::Join(join) => {
                    assert(inputs[0] == join.left);
                    assert(inputs[1] == join.right);
                },
                OperatorNode::Materialize(materialize) => {
                    assert(inputs[0] == materialize.input);
                },
            }
        }
    }
}

proof fn lemma_fed_inputs(
    inputs: Seq<OutputPort>,
    source: usize,
    index: usize,
    n: nat,
    target: usize,
    port: InputPort,
)
    requires
        n <= inputs.len(),
    ensures
        fed_inputs(inputs, source, index, n).contains((target, port)) <==> target == index && exists|
            k: int,
        |
            0 <= k < n && (#[trigger] inputs[k]).operator.0 == source && port.operator
                == inputs[k].operator && port.port_index == inputs[k].port_index,
    decreases n,
{
    if n > 0 {
        lemma_fed_inputs(inputs, source, index, (n - 1) as nat, target, port);
        let front = fed_inputs(inputs, source, index, (n - 1) as nat);
        let all = fed_inputs(inputs, source, index, n);
        if front.contains((target, port)) {
            let k = choose|k: int| 0 <= k < front.len() && front[k] == (target, port);
            assert(all[k] == (target, port));
        }
        if all.contains((target, port)) && !front.contains((target, port)) {
            let k = choose|k: int| 0 <= k < all.len() && all[k] == (target, port);
            if k < front.len() {
                assert(front[k] == (target, port));
            }
            assert(inputs[n - 1].operator.0 == source);
        }
        if inputs[n - 1].operator.0 == source && target == index && port.operator
            == inputs[n - 1].operator && port.port_index == inputs[n - 1].port_index {
            assert(all[front.len() as int] == (target, port));
        }
        if target == index && exists|k: int|
            0 <= k < n && (#[trigger] inputs[k]).operator.0 == source && port.operator
                == inputs[k].operator && port.port_index == inputs[k].port_index {
            let k = choose|k: int|
                0 <= k < n && (#[trigger] inputs[k]).operator.0 == source && port.operator
                    == inputs[k].operator && port.port_index == inputs[k].port_index;
            if k < n - 1 {
                assert(inputs[k].operator.0 == source);
                assert(front.contains((target, port)));
            }
        }
    }
}

/// A plan that can be run has a stream for each of its scans, known sources, and operators that
/// read operators before them only.
pub proof fn law_plans_that_can_be_run(
    plan: DataflowPlan,
    connected: Seq<(OperatorId, RowStreamHandle)>,
    sources: Seq<String>,
    i: int,
)
    requires
        graph_fault(plan, connected, sources) is None,
        0 <= i < plan.operators@.len() <= usize::MAX,
    ensures
        match plan.operators@[i] {
            OperatorNode::Scan(scan) => {
                &&& ingest::known(sources, scan.source_name@)
                &&& exists|k: int|
                    0 <= k < connected.len() && (#[trigger] connected[k]).0 == OperatorId(
                        i as usize,
                    )
            },
            OperatorNode::MapRows(map) => map.input.operator.0 < i,
            OperatorNode::Filter(filter) => filter.input.operator.0 < i,
            OperatorNode::Join(join) => join.left.operator.0 < i && join.right.operator.0 < i,
            OperatorNode::Materialize(materialize) => materialize.input.operator.0 < i,
        },
{
    let operators = plan.operators@;
    lemma_no_fault_at(plan.graph_id@, operators, sources, operators.len(), i);
    if operators[i] is Scan {
        lemma_scan_connected(operators, connected, operators.len(), i);
        lemma_output_of(connected, OperatorId(i as usize));
    }
}

proof fn lemma_no_fault_at(
    graph: Seq<char>,
    operators: Seq<OperatorNode>,
    sources: Seq<String>,
    n: nat,
    i: int,
)
    requires
        first_build_fault(graph, operators, sources, n) is None,
        0 <= i < n <= operators.len() <= usize::MAX,
    ensures
        build_fault(graph, operators[i], i as usize, sources) is None,
    decreases n,
{
    if i < n - 1 {
        lemma_no_fault_at(graph, operators, sources, (n - 1) as nat, i);
    }
}

proof fn lemma_scan_connected(
    operators: Seq<OperatorNode>,
    connected: Seq<(OperatorId, RowStreamHandle)>,
    n: nat,
    i: int,
)
    requires
        scan_streams(operators, connected, n) is Ok,
        0 <= i < n <= operators.len() <= usize::MAX,
        operators[i] is Scan,
    ensures
        output_of(connected, OperatorId(i as usize)) is Some,
        scan_streams(operators, connected, n)->Ok_0.contains(
            (output_of(connected, OperatorId(i as usize))->0, i as usize),
        ),
    decreases n,
{
    let all = scan_streams(operators, connected, n)->Ok_0;
    let front = scan_streams(operators, connected, (n - 1) as nat)->Ok_0;
    if i < n - 1 {
        lemma_scan_connected(operators, connected, (n - 1) as nat, i);
        let entry = (output_of(connected, OperatorId(i as usize))->0, i as usize);
        let k = choose|k: int| 0 <= k < front.len() && front[k] == entry;
        assert(all[k] == entry);
    } else {
        assert(all[front.len() as int] == (output_of(connected, OperatorId(i as usize))->0, i as usize));
    }
}

proof fn lemma_output_of(connected: Seq<(OperatorId, RowStreamHandle)>, id: OperatorId)
    ensures
        match output_of(connected, id) {
            Some(handle) => exists|k: int|
                {
                    &&& 0 <= k < connected.len()
                    &&& (#[trigger] connected[k]).0 == id
                    &&& connected[k].1 == handle
                },
            None => forall|k: int| 0 <= k < connected.len() ==> (#[trigger] connected[k]).0 != id,
        },
    decreases connected.len(),
{
    if connected.len() > 0 {
        let last = connected.len() - 1;
        if connected[last].0 != id {
            let front = connected.drop_last();
            lemma_output_of(front, id);
            match output_of(front, id) {
                Some(handle) => {
                    let k = choose|k: int|
                        0 <= k < front.len() && (#[trigger] front[k]).0 == id && front[k].1
                            == handle;
                    assert(connected[k].0 == id);
                },
                None => {
                    assert forall|k: int| 0 <= k < connected.len() implies (
                    #[trigger] connected[k]).0 != id by {
                        if k < last {
                            assert(front[k].0 != id);
                        }
                    }
                },
            }
        }
    }
}

/// The rows of a stream go to the scan that the stream was connected for, and only scans get any.
pub proof fn law_streams_go_to_their_scans(
    operators: Seq<OperatorNode>,
    connected: Seq<(OperatorId, RowStreamHandle)>,
    n: nat,
    i: int,
)
    requires
        scan_streams(operators, connected, n) is Ok,
        0 <= i < n <= operators.len() <= usize::MAX,
    ensures
        operators[i] is Scan ==> exists|k: int|
            {
                &&& 0 <= k < connected.len()
                &&& (#[trigger] connected[k]).0 == OperatorId(i as usize)
                &&& scan_streams(operators, connected, n)->Ok_0.contains(
                    (connected[k].1, i as usize),
                )
            },
        !(operators[i] is Scan) ==> forall|handle: RowStreamHandle|
            !#[trigger] scan_streams(operators, connected, n)->Ok_0.contains((handle, i as usize)),
{
    if operators[i] is Scan {
        lemma_scan_connected(operators, connected, n, i);
        lemma_output_of(connected, OperatorId(i as usize));
    } else {
        lemma_no_stream(operators, connected, n, i);
    }
}

proof fn lemma_no_stream(
    operators: Seq<OperatorNode>,
    connected: Seq<(OperatorId, RowStreamHandle)>,
    n: nat,
    i: int,
)
    requires
        scan_streams(operators, connected, n) is Ok,
        n <= operators.len() <= usize::MAX,
        0 <= i < operators.len(),
        i >= n || !(operators[i] is Scan),
    ensures
        forall|k: int|
            0 <= k < scan_streams(operators, connected, n)->Ok_0.len() ==> (
            #[trigger] scan_streams(operators, connected, n)->Ok_0[k]).1 != i,
    decreases n,
{
    if n > 0 {
        lemma_no_stream(operators, connected, (n - 1) as nat, i);
        let all = scan_streams(operators, connected, n)->Ok_0;
        let front = scan_streams(operators, connected, (n - 1) as nat)->Ok_0;
        assert forall|k: int| 0 <= k < all.len() implies (#[trigger] all[k]).1 != i by {
            if k < front.len() {
                assert(all[k] == front[k]);
            }
        }
    }
}

/// An operator is built as it is planned: it reads the ports that its node names, computes with the
/// expressions of its node, feeds the targets that it is given, and has nothing to hand on yet.
pub proof fn law_operators_are_built_as_planned(
    op: StreamOperator,
    node: OperatorNode,
    targets: Seq<(usize, InputPort)>,
    state: OperatorState,
)
    requires
        built(op, node, targets, state),
    ensures
        !(op is Materialize) ==> op.targets() == targets && op.pending().len() == 0,
        match node {
            OperatorNode::Scan(scan) => op matches StreamOperator::Scan(o) && o.source_name@
                == scan.source_name@,
            OperatorNode::MapRows(map) => op matches StreamOperator::MapRows(o)
                && o.input.operator == map.input.operator && o.input.port_index
                == map.input.port_index && o.expressions@ == map.expressions@,
            OperatorNode::Filter(filter) => op matches StreamOperator::Filter(o)
                && o.input.operator == filter.input.operator && o.input.port_index
                == filter.input.port_index && o.predicate == filter.predicate,
            OperatorNode::Join(join) => op matches StreamOperator::Join(o)
                && o.left_input.operator == join.left.operator && o.left_input.port_index
                == join.left.port_index && o.right_input.operator == join.right.operator
                && o.right_input.port_index == join.right.port_index && o.join_keys@ == join.on@
                && o.projection@ == join.projection@,
            OperatorNode::Materialize(materialize) => op matches StreamOperator::Materialize(o)
                && o.input.operator == materialize.input.operator && o.input.port_index
                == materialize.input.port_index && o.last_published_ts is None,
        },
{
}

/// The tables of a join are kept apart: each side is loaded from the operator that it reads, and
/// neither shares its namespace with the other one or with the results.
pub proof fn law_tables_of_a_join_are_kept_apart(
    build: OperatorBuild,
    graph: Seq<char>,
    node: OperatorNode,
    index: usize,
    handles: Seq<DbspHandleRecord>,
    kinds: HandleKinds,
)
    requires
        is_build(build, graph, node, index, handles, kinds),
    ensures
        match (node, build) {
            (
                OperatorNode::Join(join),
                OperatorBuild::Join { left, right, output_table, output_namespace },
            ) => {
                &&& left.upstream == join.left.operator.0
                &&& right.upstream == join.right.operator.0
                &&& left.namespace@ != right.namespace@
                &&& left.namespace@ != output_namespace@
                &&& right.namespace@ != output_namespace@
            },
            (OperatorNode::Scan(_), OperatorBuild::Scan) => true,
            (OperatorNode::MapRows(map), OperatorBuild::MapRows { upstream, .. }) => upstream
                == map.input.operator.0,
            (OperatorNode::Filter(filter), OperatorBuild::Filter { upstream, .. }) => upstream
                == filter.input.operator.0,
            (
                OperatorNode::Materialize(materialize),
                OperatorBuild::Materialize { upstream, .. },
            ) => upstream == materialize.input.operator.0,
            _ => false,
        },
{
    reveal_strlit("left");
    reveal_strlit("right");
    reveal_strlit("output");
    if build is Join {
        let l = "left"@;
        let r = "right"@;
        let o = "output"@;
        assert(l.len() == 4 && r.len() == 5 && o.len() == 6);
        text::law_whitespace(l[0]);
        text::law_whitespace(l.last());
        text::law_whitespace(r[0]);
        text::law_whitespace(r.last());
        text::law_whitespace(o[0]);
        text::law_whitespace(o.last());
        text::law_trimmed_text_stays(l);
        text::law_trimmed_text_stays(r);
        text::law_trimmed_text_stays(o);
        namespaces::law_parts_of_operator_namespaces(graph, index as nat, l);
        namespaces::law_parts_of_operator_namespaces(graph, index as nat, r);
        namespaces::law_parts_of_operator_namespaces(graph, index as nat, o);
    }
}

} // verus!
