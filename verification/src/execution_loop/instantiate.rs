//! Sets a dataflow up to run.

use vstd::prelude::*;

use super::barrier::BarrierClock;
use super::graph_builder;
use super::graph_builder::{build_graph, DbspHandleRecord, GraphError, HandleKinds, OperatorState};
use super::ingest;
use super::ingest::{ExecutionRuntime, IngestError, RowStreamHandle, ScanRuntime};
use super::tick_loop;
use super::tick_loop::TickLoop;
use crate::dataflow_plan::{DataflowPlan, OperatorNode};
use crate::materialized_view::MaterializedViewRegistry;
use crate::name_map::NameMap;
use crate::namespaces::NamespaceError;
use crate::outer_stream;
use crate::outer_stream::{OuterStreamRegistry, WriterState};
use crate::stream_types::{OperatorId, Timestamp};

verus! {

/// What the last checkpoint says.
pub struct Manifest {
    pub watermark: Timestamp,
    pub offsets: NameMap<Timestamp>,
}

/// What a dataflow is set up from.
pub struct Setup {
    pub plan: DataflowPlan,
    /// The streams of rows of the operators.
    pub connected: Vec<(OperatorId, RowStreamHandle)>,
    /// The streams of rows of the sources.
    pub scan_bindings: Vec<(String, RowStreamHandle)>,
    /// The registered sources.
    pub sources: Vec<String>,
    /// The sources whose stored collections can be followed.
    pub handle_sources: Vec<String>,
    /// The collections that the last checkpoint recorded.
    pub handles: Vec<DbspHandleRecord>,
    pub kinds: HandleKinds,
    /// What was loaded for each operator.
    pub states: Vec<OperatorState>,
    /// Whether there is a storage.
    pub stored: bool,
    /// The last checkpoint.
    pub manifest: Option<Manifest>,
}

/// Why a dataflow cannot be set up.
#[derive(Debug, PartialEq, Eq)]
pub enum SetupError {
    /// The operators cannot be built.
    Graph(GraphError),
    /// A source has no namespace.
    Source(NamespaceError),
    /// A stream of a source cannot be registered.
    Binding(IngestError<()>),
}

/// The sources of bindings.
pub open spec fn binding_sources(bindings: Seq<(String, RowStreamHandle)>) -> Seq<String> {
    Seq::new(bindings.len(), |i: int| bindings[i].0)
}

/// The sources of bindings.
fn sources_of(bindings: &Vec<(String, RowStreamHandle)>) -> (sources: Vec<String>)
    ensures
        sources@ == binding_sources(bindings@),
{
    let mut sources: Vec<String> = Vec::new();
    let mut i: usize = 0;
    while i < bindings.len()
        invariant
            i <= bindings@.len(),
            sources@.len() == i,
            forall|j: int| 0 <= j < i ==> sources@[j] == bindings@[j].0,
        decreases bindings@.len() - i,
    {
        sources.push(bindings[i].0.clone());
        i = i + 1;
    }
    assert(sources@ =~= binding_sources(bindings@));
    sources
}

/// The streams of the scans go to operators that there are.
proof fn lemma_scans_within(
    operators: Seq<OperatorNode>,
    connected: Seq<(OperatorId, RowStreamHandle)>,
    n: nat,
)
    requires
        graph_builder::scan_streams(operators, connected, n) is Ok,
        n <= usize::MAX,
    ensures
        tick_loop::scans_within(
            graph_builder::scan_streams(operators, connected, n)->Ok_0,
            n,
        ),
    decreases n,
{
    if n > 0 {
        lemma_scans_within(operators, connected, (n - 1) as nat);
        let front = graph_builder::scan_streams(operators, connected, (n - 1) as nat)->Ok_0;
        let all = graph_builder::scan_streams(operators, connected, n)->Ok_0;
        assert forall|i: int| 0 <= i < all.len() implies (#[trigger] all[i]).1 < n by {
            if i < front.len() {
                assert(all[i] == front[i]);
            }
        }
    }
}

/// The offsets to start from: those of the last checkpoint, where there is a storage.
pub open spec fn starting_offsets(setup: Setup) -> Option<Map<Seq<char>, Timestamp>> {
    if !setup.stored {
        None
    } else {
        match setup.manifest {
            Some(manifest) => Some(manifest.offsets@),
            None => Some(Map::empty()),
        }
    }
}

/// The watermark to start from: that of the last checkpoint, where there is a storage.
pub open spec fn starting_watermark(setup: Setup) -> Timestamp {
    if setup.stored && setup.manifest is Some {
        setup.manifest->0.watermark
    } else {
        0
    }
}

/// New writers of sources, by their names and namespaces.
pub open spec fn fresh_writers(names: Seq<(Seq<char>, Seq<char>)>) -> Seq<WriterState> {
    Seq::new(
        names.len(),
        |i: int|
            WriterState {
                source: names[i].0,
                namespace: names[i].1,
                durable: true,
                transient_version: 0,
                pending: Seq::empty(),
                pending_bytes: 0,
                unstored: Seq::empty(),
            },
    )
}

/// Whether the changes of the sources are stored.
pub open spec fn stores_sources(setup: Setup) -> bool {
    setup.stored && setup.scan_bindings@.len() > 0
}

/// Sets a dataflow up: builds its operators, starts its clock and its sources where the last
/// checkpoint stopped, and registers the streams of its sources.
pub fn instantiate_tick_loop(setup: Setup, registry: &mut MaterializedViewRegistry) -> (result:
    Result<TickLoop, SetupError>)
    ensures
        graph_builder::names_kept(*old(registry), *final(registry)),
        match graph_builder::graph_fault(
            setup.plan,
            setup.connected@,
            setup.handle_sources@,
        ) {
            Some(_) => *final(registry) == *old(registry),
            None => graph_builder::all_same(
                graph_builder::contents(*final(registry)),
                graph_builder::restored_views(
                    setup.plan.operators@,
                    setup.states@,
                    graph_builder::contents(*old(registry)),
                ),
            ),
        },
        ({
            let operators = setup.plan.operators@;
            let bindings = setup.scan_bindings@;
            let graph_fault = graph_builder::graph_fault(
                setup.plan,
                setup.connected@,
                setup.handle_sources@,
            );
            let restore_fault = graph_builder::restore_fault(
                operators,
                setup.states@,
                graph_builder::contents(*old(registry)),
            );
            let planned = outer_stream::planned_writers(
                binding_sources(bindings),
                bindings.len(),
            );
            let (bound, bind_result) = ingest::bound(
                setup.sources@,
                Map::empty(),
                bindings,
                bindings.len(),
            );
            match result {
                Ok(tick) => {
                    let state = tick@;
                    let (marks, offsets) = tick_loop::started(
                        Map::empty(),
                        starting_offsets(setup),
                        bindings,
                        bindings.len(),
                    );
                    &&& graph_fault is None
                    &&& restore_fault is None
                    &&& bind_result is Ok
                    &&& state.ops.len() == operators.len()
                    &&& forall|i: int|
                        0 <= i < operators.len() ==> graph_builder::built_at(
                            #[trigger] state.ops[i],
                            operators[i],
                            graph_builder::targets_of(operators, i as usize, operators.len()),
                            graph_builder::state_at(setup.states@, i),
                        ) && graph_builder::keeps_view(state.ops[i], operators[i], *final(registry))
                    &&& state.queue.len() == 0
                    &&& state.clock == (BarrierClock {
                        watermark: starting_watermark(setup),
                        step: 0,
                    })
                    &&& Ok::<Seq<(RowStreamHandle, usize)>, GraphError>(state.scans)
                        == graph_builder::scan_streams(
                        operators,
                        setup.connected@,
                        operators.len(),
                    )
                    &&& state.sources == setup.sources@
                    &&& state.bindings == bound
                    &&& state.default_diff == 1
                    &&& state.watermarks == marks
                    &&& state.offsets == offsets
                    &&& match state.outer {
                        Some(writers) => {
                            &&& stores_sources(setup)
                            &&& planned is Ok
                            &&& writers == fresh_writers(planned->Ok_0)
                        },
                        None => !stores_sources(setup),
                    }
                },
                Err(SetupError::Graph(error)) => match graph_fault {
                    Some(fault) => error == fault,
                    None => match restore_fault {
                        Some(fault) => error == GraphError::State(fault),
                        None => false,
                    },
                },
                Err(SetupError::Source(error)) => {
                    &&& graph_fault is None
                    &&& restore_fault is None
                    &&& stores_sources(setup)
                    &&& planned == Err::<Seq<(Seq<char>, Seq<char>)>, NamespaceError>(error)
                },
                Err(SetupError::Binding(error)) => {
                    &&& graph_fault is None
                    &&& restore_fault is None
                    &&& stores_sources(setup) ==> planned is Ok
                    &&& bind_result == Err::<(), IngestError<()>>(error)
                },
            }
        }),
{
    let stores: bool = setup.stored && setup.scan_bindings.len() > 0;
    let binding_names = sources_of(&setup.scan_bindings);
    let ghost operators = setup.plan.operators@;
    let count: usize = setup.plan.operators.len();
    let built = match build_graph(
        setup.plan,
        &setup.connected,
        setup.scan_bindings,
        &setup.handle_sources,
        &setup.handles,
        &setup.kinds,
        setup.states,
        registry,
    ) {
        Ok(built) => built,
        Err(error) => {
            return Err(SetupError::Graph(error));
        },
    };
    let runtime = ExecutionRuntime::new(ScanRuntime::new(setup.sources));
    let outer_streams: Option<OuterStreamRegistry> = if stores {
        match OuterStreamRegistry::from_sources(binding_names) {
            Ok(writers) => {
                proof {
                    let made = writers.writers();
                    assert(outer_stream::writer_states(made) =~= fresh_writers(
                        outer_stream::writer_names(made),
                    ));
                }
                Some(writers)
            },
            Err(error) => {
                return Err(SetupError::Source(error));
            },
        }
    } else {
        None
    };
    let mut watermark: Option<Timestamp> = None;
    let offsets: Option<NameMap<Timestamp>> = if setup.stored {
        match setup.manifest {
            Some(manifest) => {
                watermark = Some(manifest.watermark);
                Some(manifest.offsets)
            },
            None => Some(NameMap::new()),
        }
    } else {
        None
    };
    proof {
        lemma_scans_within(operators, setup.connected@, operators.len());
    }
    let mut tick = TickLoop::with_graph(
        runtime,
        built.ops,
        built.scan_operator_map,
        outer_streams,
        offsets,
    );
    match watermark {
        Some(reached) => {
            tick.bootstrap(reached);
        },
        None => {},
    }
    match tick.register_bindings(&built.scan_bindings) {
        Ok(()) => {},
        Err(error) => {
            return Err(SetupError::Binding(error));
        },
    }
    Ok(tick)
}

/// A dataflow with a storage goes on where the last checkpoint ended, and without a checkpoint from
/// the beginning; one without a storage has no positions and begins anew.
pub proof fn law_loop_goes_on_from_its_checkpoint(setup: Setup)
    ensures
        !setup.stored ==> starting_offsets(setup) is None && starting_watermark(setup) == 0,
        setup.stored && setup.manifest is None ==> starting_offsets(setup) == Some(
            Map::<Seq<char>, Timestamp>::empty(),
        ) && starting_watermark(setup) == 0,
        setup.stored ==> (setup.manifest matches Some(manifest) ==> starting_offsets(setup) == Some(
            manifest.offsets@,
        ) && starting_watermark(setup) == manifest.watermark),
        stores_sources(setup) ==> setup.stored,
        setup.stored && !stores_sources(setup) ==> setup.scan_bindings@.len() == 0,
{
}

/// Writers begin without changes, under the names and namespaces of their sources.
pub proof fn law_writers_begin_empty(names: Seq<(Seq<char>, Seq<char>)>, i: int)
    requires
        0 <= i < names.len(),
    ensures
        fresh_writers(names).len() == names.len(),
        fresh_writers(names)[i].source == names[i].0,
        fresh_writers(names)[i].namespace == names[i].1,
        fresh_writers(names)[i].pending.len() == 0,
        fresh_writers(names)[i].unstored.len() == 0,
        fresh_writers(names)[i].pending_bytes == 0,
        fresh_writers(names)[i].durable,
        !outer_stream::publishes(fresh_writers(names)[i], None, true),
{
}

} // verus!
