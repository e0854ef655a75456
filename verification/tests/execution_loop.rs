use floe_executor::dataflow_plan::{
    DataflowPlan, Expr, FilterNode, JoinNode, MapNode, MaterializeNode, OperatorNode, ScanNode,
};
use floe_executor::execution_loop::barrier::{run_barrier_hook, BarrierStage};
use floe_executor::execution_loop::checkpoint::{
    before_commit, convert_source_handles, record_if_nonzero, Seal, SealStage,
};
use floe_executor::execution_loop::graph_builder::{
    build_graph, lookup_handle, plan_graph, DbspHandleRecord, GraphError, HandleKinds,
    OperatorBuild, OperatorState,
};
use floe_executor::execution_loop::ingest::{
    ExecutionRuntime, IngestError, RowStreamHandle, ScanRuntime,
};
use floe_executor::execution_loop::instantiate::{
    instantiate_tick_loop, Manifest, Setup, SetupError,
};
use floe_executor::execution_loop::stream_operator::StreamOperator;
use floe_executor::execution_loop::tick_loop::{TickError, TickLoop};
use floe_executor::expr_eval::{Arithmetic, ExprError, NumericValue};
use floe_executor::float_results::{FloatCall, FloatOrder, FloatResults};
use floe_executor::materialized_view::MaterializedViewRegistry;
use floe_executor::name_map::NameMap;
use floe_executor::operators::materialize::apply_view_deltas;
use floe_executor::operators::{Encodable, OperatorError, OutsideResults};
use floe_executor::outer_stream::OuterStreamHandle;
use floe_executor::stream_types::{OperatorId, OutputPort};
use floe_executor::values::{Row, ScalarValue};
use floe_executor::zset::collect;

fn number(value: i64) -> ScalarValue {
    ScalarValue::Int64(Some(value))
}

fn bid(auction: i64, bidder: i64) -> Result<(Row, Option<u64>), ()> {
    Ok((vec![number(auction), number(bidder)], None))
}

fn scan(source: &str, id: usize) -> OperatorNode {
    OperatorNode::Scan(ScanNode {
        source_name: source.to_string(),
        output: OutputPort::new(OperatorId(id), 0),
    })
}

fn materialize(input: usize, view: &str) -> OperatorNode {
    OperatorNode::Materialize(MaterializeNode {
        input: OutputPort::new(OperatorId(input), 0),
        view_name: view.to_string(),
    })
}

fn kinds() -> HandleKinds {
    HandleKinds {
        operator_state: "operator_state".to_string(),
        materialized_view: "materialized_view".to_string(),
    }
}

fn join_plan() -> DataflowPlan {
    let mut plan = DataflowPlan::new("join_plan".to_string());
    plan.add_operator(scan("bid", 0));
    plan.add_operator(scan("person", 1));
    plan.add_operator(OperatorNode::Join(JoinNode {
        left: OutputPort::new(OperatorId(0), 0),
        right: OutputPort::new(OperatorId(1), 0),
        output: OutputPort::new(OperatorId(2), 0),
        on: vec![(1, 0)],
        projection: vec![Expr::column(0), Expr::column(3)],
    }));
    let root = plan.add_operator(materialize(2, "mv_join"));
    plan.set_root(root);
    plan
}

fn setup(plan: DataflowPlan, sources: Vec<&str>) -> Setup {
    let names: Vec<String> = sources.into_iter().map(String::from).collect();
    let mut connected = Vec::new();
    let mut bindings = Vec::new();
    for (index, node) in plan.operators.iter().enumerate() {
        if let OperatorNode::Scan(scan) = node {
            connected.push((OperatorId(index), RowStreamHandle(index)));
            bindings.push((scan.source_name.clone(), RowStreamHandle(index)));
        }
    }
    Setup {
        plan,
        connected,
        scan_bindings: bindings,
        sources: names.clone(),
        handle_sources: names,
        handles: Vec::new(),
        kinds: kinds(),
        states: Vec::new(),
        stored: false,
        manifest: None,
    }
}

fn join_output(tick: &TickLoop) -> Vec<(Row, i64)> {
    match &tick.ops()[2] {
        StreamOperator::Join(join) => join
            .output_changes
            .iter()
            .map(|change| (change.0.clone(), change.1))
            .collect(),
        _ => panic!("no join"),
    }
}

fn ingests_decoded_rows() {
    let handle = RowStreamHandle(0);

    let mut runtime = ScanRuntime::new(vec!["bid".to_string()]);
    runtime
        .register_scan("bid".to_string(), handle)
        .expect("register scan");

    let ingested = runtime
        .ingest_event("bid".to_string(), bid(7, 9), 42)
        .expect("ingest");
    assert_eq!(ingested.source, "bid");
    assert_eq!(ingested.handle, handle);
    assert_eq!(ingested.row[0], ScalarValue::Int64(Some(7)));
    assert_eq!(ingested.row[1], ScalarValue::Int64(Some(9)));
    assert_eq!(ingested.timestamp, 42);
}

#[test]
fn execution_loop_ingests_decoded_rows_for_registered_scan() {
    ingests_decoded_rows();
}

#[test]
fn tests_ingests_decoded_rows_for_registered_scan() {
    ingests_decoded_rows();
}

fn registers_bindings() {
    let mut plan = DataflowPlan::new("bindings_test_plan".to_string());
    let scan_id = plan.add_operator(scan("bid", 0));
    plan.set_root(scan_id);
    let setup = setup(plan, vec!["bid"]);

    let bindings = setup.scan_bindings;
    assert_eq!(bindings.len(), 1);

    let scan_runtime = ScanRuntime::new(setup.sources);
    let mut runtime = ExecutionRuntime::new(scan_runtime);
    runtime
        .register_bindings(&bindings)
        .expect("register from bindings");

    let ingested = runtime
        .process_event("bid".to_string(), bid(11, 12), 7)
        .expect("process event");
    assert_eq!(ingested.source, "bid");
    assert_eq!(ingested.handle, bindings[0].1);
    assert_eq!(ingested.row[0], ScalarValue::Int64(Some(11)));
    assert_eq!(ingested.row[1], ScalarValue::Int64(Some(12)));
    assert_eq!(ingested.timestamp, 7);
}

#[test]
fn execution_loop_register_bindings_from_context() {
    registers_bindings();
}

#[test]
fn tests_register_bindings_from_context() {
    registers_bindings();
}

#[test]
fn a_scan_is_registered_once_for_a_known_source() {
    let mut runtime = ScanRuntime::new(vec!["bid".to_string()]);
    assert_eq!(
        runtime.register_scan("nosuch".to_string(), RowStreamHandle(0)),
        Err(IngestError::UnknownSource)
    );
    assert_eq!(
        runtime.ingest_event("bid".to_string(), bid(1, 2), 1),
        Err(IngestError::NoScan)
    );
    assert_eq!(
        runtime.register_scan("bid".to_string(), RowStreamHandle(0)),
        Ok(())
    );
    assert_eq!(
        runtime.register_scan("bid".to_string(), RowStreamHandle(1)),
        Err(IngestError::AlreadyRegistered)
    );
    assert_eq!(
        runtime.ingest_event("bid".to_string(), Err("bad"), 1),
        Err(IngestError::Decode("bad"))
    );
}

#[test]
fn rows_go_from_the_scans_through_the_join() {
    let mut registry = MaterializedViewRegistry::new();
    let mut tick = instantiate_tick_loop(setup(join_plan(), vec!["bid", "person"]), &mut registry)
        .expect("instantiate");
    assert!(tick.take_outer_streams().is_none());
    assert!(tick.snapshot_source_offsets().is_empty());
    tick.process_event(&mut registry, "bid".to_string(), bid(7, 9), None, 1, &nothing())
        .expect("bid");
    assert!(join_output(&tick).is_empty());
    tick.process_event(
        &mut registry,
        "person".to_string(),
        Ok::<_, ()>((vec![number(9), number(77)], None)),
        None,
        2,
        &nothing(),
    )
    .expect("person");
    assert_eq!(join_output(&tick), vec![(vec![number(7), number(77)], 1)]);
    assert_eq!(
        tick.advance_watermark::<()>(&mut registry, 11, &nothing()),
        Ok(Some(2))
    );
    let at = registry.get("mv_join").expect("view registered");
    assert_eq!(registry.view(at).watermark(), Some(11));
}

#[test]
fn filters_and_maps_stand_between_scan_and_join() {
    let mut plan = DataflowPlan::new("shaped".to_string());
    plan.add_operator(scan("bid", 0));
    plan.add_operator(OperatorNode::Filter(FilterNode {
        input: OutputPort::new(OperatorId(0), 0),
        output: OutputPort::new(OperatorId(1), 0),
        predicate: Expr::Gt(
            Box::new(Expr::column(0)),
            Box::new(Expr::literal(number(10))),
        ),
    }));
    plan.add_operator(OperatorNode::Join(JoinNode {
        left: OutputPort::new(OperatorId(0), 0),
        right: OutputPort::new(OperatorId(1), 0),
        output: OutputPort::new(OperatorId(2), 0),
        on: vec![(0, 0)],
        projection: vec![Expr::column(0)],
    }));
    plan.add_operator(OperatorNode::MapRows(MapNode {
        input: OutputPort::new(OperatorId(2), 0),
        output: OutputPort::new(OperatorId(3), 0),
        expressions: vec![Expr::column(0)],
    }));
    plan.add_operator(materialize(3, "mv"));
    let mut registry = MaterializedViewRegistry::new();
    let mut tick = instantiate_tick_loop(setup(plan, vec!["bid"]), &mut registry)
        .expect("instantiate");
    tick.process_event(&mut registry, "bid".to_string(), bid(5, 1), None, 1, &nothing())
        .expect("filtered out");
    assert!(join_output(&tick).is_empty());
    tick.process_event(&mut registry, "bid".to_string(), bid(20, 1), None, 2, &nothing())
        .expect("kept");
    assert_eq!(join_output(&tick), vec![(vec![number(20)], 1)]);
}

#[test]
fn the_watermark_follows_the_slowest_source() {
    let mut registry = MaterializedViewRegistry::new();
    let mut tick = instantiate_tick_loop(setup(join_plan(), vec!["bid", "person"]), &mut registry)
        .expect("instantiate");
    let mut advance = |source: &str, watermark: u64| {
        tick.advance_source_watermark::<()>(&mut registry, source, watermark, &nothing())
            .expect("advance");
        tick.current_watermark()
    };
    assert_eq!(advance("bid", 5), 0);
    assert_eq!(advance("person", 3), 3);
    assert_eq!(advance("bid", 10), 3);
    assert_eq!(advance("person", 6), 6);
    assert_eq!(tick.current_frontier(), 6);
    assert_eq!(
        tick.advance_source_watermark::<()>(&mut registry, "nosuch", 9, &nothing()),
        Err(TickError::NoWatermark)
    );
}

#[test]
fn an_event_may_bring_its_own_time() {
    let mut plan = DataflowPlan::new("times".to_string());
    plan.add_operator(scan("with_ts", 0));
    plan.add_operator(materialize(0, "mv"));
    let mut registry = MaterializedViewRegistry::new();
    let mut tick = instantiate_tick_loop(setup(plan, vec!["with_ts"]), &mut registry)
        .expect("instantiate");
    let row = vec![
        number(1),
        ScalarValue::TimestampMillisecond(Some(5_000), None),
    ];
    tick.process_event(
        &mut registry,
        "with_ts".to_string(),
        Ok::<_, ()>((row, Some(5_000))),
        None,
        1,
        &nothing(),
    )
    .expect("event");
    assert_eq!(tick.current_watermark(), 5_000);
    assert_eq!(
        tick.process_event(&mut registry, "nosuch".to_string(), bid(1, 2), None, 1, &nothing()),
        Err(TickError::Ingest(IngestError::NoScan))
    );
}

#[test]
fn a_loop_goes_on_from_its_checkpoint() {
    let mut setup = setup(join_plan(), vec!["bid", "person"]);
    setup.stored = true;
    let mut offsets = NameMap::new();
    offsets.insert("bid".to_string(), 40);
    setup.manifest = Some(Manifest { watermark: 30, offsets });
    setup.states = vec![
        OperatorState::empty(),
        OperatorState::empty(),
        OperatorState {
            left: vec![(vec![number(7), number(9)], 1)],
            right: Vec::new(),
            view_rows: Vec::new(),
            view_keys: None,
        },
        OperatorState::empty(),
    ];
    let mut registry = MaterializedViewRegistry::new();
    let mut tick = instantiate_tick_loop(setup, &mut registry).expect("instantiate");
    assert_eq!(tick.current_watermark(), 30);
    let person = || Ok::<(Row, Option<u64>), ()>((vec![number(9), number(77)], None));
    assert_eq!(
        tick.process_event(&mut registry, "person".to_string(), person(), None, 40, &nothing()),
        Err(TickError::NotEncoded)
    );
    assert!(tick.next_event().is_none());
    tick.process_event(
        &mut registry,
        "person".to_string(),
        person(),
        Some(vec![9, 77]),
        41,
        &nothing(),
    )
    .expect("person");
    assert_eq!(join_output(&tick), vec![(vec![number(7), number(77)], 1)]);
    let mut writers = tick.take_outer_streams().expect("sources are stored");
    assert_eq!(writers.len(), 2);
    let at = writers.find("person").expect("writer");
    assert_eq!(
        writers.writer_mut(at).take_unstored(),
        vec![(vec![9, 77], 1)]
    );
    let other = writers.find("bid").expect("writer");
    assert!(writers.writer_mut(other).take_unstored().is_empty());
    assert!(tick.take_outer_streams().is_none());
    tick.set_outer_streams(Some(writers));
    assert_eq!(tick.take_outer_streams().map(|writers| writers.len()), Some(2));
    assert_eq!(
        tick.snapshot_source_offsets(),
        vec![("bid".to_string(), 40), ("person".to_string(), 41)],
    );
}

#[test]
fn a_plan_that_cannot_run_says_why() {
    let build = |plan: DataflowPlan, connected: Vec<(OperatorId, RowStreamHandle)>, sources| {
        build_graph(
            plan,
            &connected,
            Vec::new(),
            &sources,
            &Vec::new(),
            &kinds(),
            Vec::new(),
            &mut MaterializedViewRegistry::new(),
        )
        .err()
    };
    let streams = || vec![(OperatorId(0), RowStreamHandle(0))];
    let known = || vec!["bid".to_string()];

    let mut plan = DataflowPlan::new("missing".to_string());
    plan.add_operator(materialize(4, "mv"));
    assert_eq!(
        build(plan, streams(), known()),
        Some(GraphError::MissingDownstream(OperatorId(4)))
    );
    let mut plan = DataflowPlan::new("unconnected".to_string());
    plan.add_operator(scan("bid", 0));
    assert_eq!(
        build(plan, Vec::new(), known()),
        Some(GraphError::MissingScanHandle(OperatorId(0)))
    );
    let mut plan = DataflowPlan::new("unknown".to_string());
    plan.add_operator(scan("bid", 0));
    assert_eq!(
        build(plan, streams(), Vec::new()),
        Some(GraphError::NoHandleStream(OperatorId(0)))
    );
    let mut plan = DataflowPlan::new("backwards".to_string());
    plan.add_operator(materialize(1, "mv"));
    plan.add_operator(scan("bid", 1));
    assert_eq!(
        build(plan, vec![(OperatorId(1), RowStreamHandle(0))], known()),
        Some(GraphError::MissingUpstream(OperatorId(1)))
    );
    let mut plan = DataflowPlan::new("a/b".to_string());
    plan.add_operator(scan("bid", 0));
    plan.add_operator(OperatorNode::MapRows(MapNode {
        input: OutputPort::new(OperatorId(0), 0),
        output: OutputPort::new(OperatorId(1), 0),
        expressions: vec![],
    }));
    assert!(matches!(
        build(plan, streams(), known()),
        Some(GraphError::Namespace(_))
    ));
}

#[test]
fn a_running_plan_says_what_its_operators_keep() {
    let plan = join_plan();
    let handles = vec![
        DbspHandleRecord {
            kind: "operator_state".to_string(),
            name: "join_left_2".to_string(),
            namespace: "left".to_string(),
            version: 3,
        },
        DbspHandleRecord {
            kind: "materialized_view".to_string(),
            name: "mv_join".to_string(),
            namespace: "view".to_string(),
            version: 4,
        },
    ];
    let graph = build_graph(
        plan,
        &vec![
            (OperatorId(0), RowStreamHandle(0)),
            (OperatorId(1), RowStreamHandle(1)),
        ],
        Vec::new(),
        &vec!["bid".to_string(), "person".to_string()],
        &handles,
        &kinds(),
        Vec::new(),
        &mut MaterializedViewRegistry::new(),
    )
    .unwrap_or_else(|error| panic!("build: {error:?}"));
    assert_eq!(graph.ops.len(), 4);
    assert_eq!(graph.builds.len(), 4);
    assert!(matches!(graph.builds[0], OperatorBuild::Scan));
    match &graph.builds[2] {
        OperatorBuild::Join {
            left,
            right,
            output_table,
            ..
        } => {
            assert_eq!((left.table.as_str(), left.checkpoint), ("join_left_2", Some(0)));
            assert_eq!((right.table.as_str(), right.checkpoint), ("join_right_2", None));
            assert_eq!(output_table, "join_output_2");
        }
        other => panic!("no join: {other:?}"),
    }
    assert!(matches!(
        graph.builds[3],
        OperatorBuild::Materialize { upstream: 2, checkpoint: Some(1) }
    ));
}

#[test]
fn a_setup_that_fails_says_why() {
    let mut registry = MaterializedViewRegistry::new();
    let mut unknown = setup(join_plan(), vec!["bid", "person"]);
    unknown.sources = vec!["bid".to_string()];
    assert_eq!(
        instantiate_tick_loop(unknown, &mut registry).err(),
        Some(SetupError::Binding(IngestError::UnknownSource))
    );
    let mut plan = DataflowPlan::new("slash".to_string());
    plan.add_operator(scan("a/b", 0));
    let mut named = setup(plan, vec!["a/b"]);
    named.stored = true;
    assert!(matches!(
        instantiate_tick_loop(named, &mut registry).err(),
        Some(SetupError::Source(_))
    ));
    let mut restored = setup(join_plan(), vec!["bid", "person"]);
    restored.states = vec![
        OperatorState::empty(),
        OperatorState::empty(),
        OperatorState {
            left: vec![(vec![], 1)],
            right: Vec::new(),
            view_rows: Vec::new(),
            view_keys: None,
        },
    ];
    assert!(matches!(
        instantiate_tick_loop(restored, &mut registry).err(),
        Some(SetupError::Graph(GraphError::State(_)))
    ));
}

#[test]
fn a_join_starts_from_the_recorded_collections() {
    let plan = join_plan();
    let connected = vec![
        (OperatorId(0), RowStreamHandle(0)),
        (OperatorId(1), RowStreamHandle(1)),
    ];
    let sources = vec!["bid".to_string(), "person".to_string()];
    let planned = plan_graph(&plan, &connected, &sources, &Vec::new(), &kinds()).expect("plan");
    assert_eq!(planned.downstreams[0].len(), 1);
    assert_eq!(planned.downstreams[2].len(), 1);
    assert_eq!(planned.scan_operators.len(), 2);
    let (table, namespace) = match &planned.builds[2] {
        OperatorBuild::Join { left, .. } => (left.table.clone(), left.namespace.clone()),
        other => panic!("no join: {:?}", other),
    };
    let handles = vec![DbspHandleRecord {
        kind: "operator_state".to_string(),
        name: table,
        namespace,
        version: 3,
    }];
    let planned = plan_graph(&plan, &connected, &sources, &handles, &kinds()).expect("plan");
    match &planned.builds[2] {
        OperatorBuild::Join { left, right, .. } => {
            assert_eq!(left.checkpoint, Some(0));
            assert_eq!(right.checkpoint, None);
        }
        other => panic!("no join: {:?}", other),
    }
    assert_eq!(lookup_handle(&handles, "materialized_view", "mv"), None);
}

#[test]
fn a_failpoint_fails_once() {
    let mut failpoint = Some(BarrierStage::AfterCommit);
    assert_eq!(
        run_barrier_hook(&mut failpoint, BarrierStage::AfterOperatorFlush),
        Ok(())
    );
    assert_eq!(
        run_barrier_hook(&mut failpoint, BarrierStage::AfterCommit),
        Err(BarrierStage::AfterCommit)
    );
    assert_eq!(
        run_barrier_hook(&mut failpoint, BarrierStage::AfterCommit),
        Ok(())
    );
}

fn record(name: &str) -> DbspHandleRecord {
    record_if_nonzero("operator_state", name, "ns", 1).expect("version is not zero")
}

#[test]
fn a_sealed_step_gathers_its_records() {
    let mut seal = Seal::new();
    let mut failpoint = None;
    let source = OuterStreamHandle {
        source: "bid".to_string(),
        namespace: "sources/bid".to_string(),
        version: 2,
    };
    let records = convert_source_handles(&vec![source], "source");
    assert_eq!(records.len(), 1);
    seal.flushed(records, &mut failpoint).expect("sources");
    seal.flushed(vec![record("a")], &mut failpoint).expect("operators");
    seal.flushed(vec![record("b")], &mut failpoint).expect("views");
    assert_eq!(seal.stage, SealStage::Commit);
    let names: Vec<&str> = seal.records.iter().map(|found| found.name.as_str()).collect();
    assert_eq!(names, vec!["bid", "a", "b"]);
    assert_eq!(before_commit(true, &mut failpoint), Ok(true));
    assert_eq!(before_commit(false, &mut failpoint), Ok(false));
}

#[test]
fn a_failed_flush_leaves_the_step_unsealed() {
    let mut seal = Seal::new();
    let mut failpoint = Some(BarrierStage::AfterOperatorFlush);
    seal.flushed(Vec::new(), &mut failpoint).expect("sources");
    assert_eq!(
        seal.flushed(vec![record("a")], &mut failpoint),
        Err(BarrierStage::AfterOperatorFlush)
    );
    assert_eq!(seal.stage, SealStage::Operators);
    assert!(seal.records.is_empty());
    let mut failpoint = Some(BarrierStage::AfterOffsetsBeforeCommit);
    assert_eq!(
        before_commit(true, &mut failpoint),
        Err(BarrierStage::AfterOffsetsBeforeCommit)
    );
    assert!(record_if_nonzero("source", "bid", "ns", 0).is_none());
}

#[test]
fn a_recorded_collection_is_found_again() {
    let recorded = |kind: &str, name: &str, version: u64| {
        record_if_nonzero(kind, name, "ns", version).expect("recorded")
    };
    let handles = vec![
        recorded("operator_state", "left", 1),
        recorded("materialized_view", "left", 2),
        recorded("operator_state", "left", 3),
        recorded("operator_state", "right", 4),
    ];
    assert_eq!(lookup_handle(&handles, "operator_state", "left"), Some(2));
    assert_eq!(lookup_handle(&handles, "materialized_view", "left"), Some(1));
    assert_eq!(lookup_handle(&handles, "operator_state", "right"), Some(3));
    assert_eq!(lookup_handle(&handles, "materialized_view", "right"), None);
}

#[test]
fn time_does_not_go_back() {
    let mut registry = MaterializedViewRegistry::new();
    let mut tick = instantiate_tick_loop(setup(join_plan(), vec!["bid", "person"]), &mut registry)
        .expect("instantiate");
    let mut take = |tick: &mut TickLoop, source: &str, time: u64| {
        tick.process_event(&mut registry, source.to_string(), bid(1, 2), None, time, &nothing())
            .expect("event")
    };
    assert_eq!(take(&mut tick, "bid", 10), None);
    assert_eq!(take(&mut tick, "person", 7), Some(1));
    assert_eq!(tick.current_watermark(), 7);
    assert_eq!(take(&mut tick, "person", 3), None);
    assert_eq!(take(&mut tick, "bid", 20), None);
    assert_eq!(tick.current_watermark(), 7);
    assert_eq!(take(&mut tick, "person", 30), Some(2));
    assert_eq!(tick.current_watermark(), 20);
}

fn view_plan() -> DataflowPlan {
    let mut plan = DataflowPlan::new("view_plan".to_string());
    plan.add_operator(scan("bid", 0));
    let root = plan.add_operator(materialize(0, "mv"));
    plan.set_root(root);
    plan
}

fn view_states(view_rows: Vec<(Row, i64)>) -> Vec<OperatorState> {
    vec![
        OperatorState::empty(),
        OperatorState { left: Vec::new(), right: Vec::new(), view_rows, view_keys: None },
    ]
}

fn view_rows(registry: &MaterializedViewRegistry, name: &str) -> Vec<(Row, i64)> {
    let at = registry.get(name).expect("view registered");
    registry
        .view(at)
        .snapshot()
        .iter()
        .map(|entry| (entry.0.clone(), entry.1))
        .collect()
}

#[test]
fn a_restored_view_holds_its_stored_rows() {
    let mut registry = MaterializedViewRegistry::new();
    let other = registry.register("other".to_string());
    registry.view_mut(other).apply(vec![number(1)], 4);
    let mv = registry.register("mv".to_string());
    registry.view_mut(mv).apply(vec![number(7)], 1);
    let mut setup = setup(view_plan(), vec!["bid"]);
    setup.states = view_states(vec![(vec![number(7)], 2), (vec![number(8)], 3)]);
    let made = instantiate_tick_loop(setup, &mut registry);
    assert!(made.is_ok());
    assert_eq!(view_rows(&registry, "other"), vec![(vec![number(1)], 4)]);
    assert_eq!(
        view_rows(&registry, "mv"),
        vec![(vec![number(7)], 3), (vec![number(8)], 3)]
    );
}

#[test]
fn stored_rows_that_do_not_fit_are_not_restored() {
    let mut registry = MaterializedViewRegistry::new();
    let mut setup = setup(view_plan(), vec!["bid"]);
    setup.states = view_states(vec![
        (vec![number(7)], i64::MAX),
        (vec![number(7)], 1),
        (vec![number(8)], 1),
    ]);
    let made = instantiate_tick_loop(setup, &mut registry);
    assert_eq!(
        made.err(),
        Some(SetupError::Graph(GraphError::State(
            OperatorError::MultiplicityOverflow
        )))
    );
    assert_eq!(
        view_rows(&registry, "mv"),
        vec![(vec![number(7)], i64::MAX)]
    );
}

fn nothing() -> OutsideResults {
    OutsideResults::new()
}

fn float(value: f64) -> ScalarValue {
    ScalarValue::Float64(Some(value.to_bits()))
}

#[test]
fn the_loop_asks_for_the_results_of_operations_on_floats() {
    let mut plan = DataflowPlan::new("floats".to_string());
    plan.add_operator(scan("bid", 0));
    plan.add_operator(OperatorNode::MapRows(MapNode {
        input: OutputPort::new(OperatorId(0), 0),
        output: OutputPort::new(OperatorId(1), 0),
        expressions: vec![Expr::Add(
            Box::new(Expr::column(0)),
            Box::new(Expr::literal(number(1))),
        )],
    }));
    plan.add_operator(OperatorNode::Filter(FilterNode {
        input: OutputPort::new(OperatorId(1), 0),
        output: OutputPort::new(OperatorId(2), 0),
        predicate: Expr::Gt(
            Box::new(Expr::column(0)),
            Box::new(Expr::literal(number(2))),
        ),
    }));
    plan.add_operator(materialize(2, "mv"));
    let mut registry = MaterializedViewRegistry::new();
    let mut tick = instantiate_tick_loop(setup(plan, vec!["bid"]), &mut registry)
        .expect("instantiate");
    let event = || Ok::<(Row, Option<u64>), ()>((vec![float(1.5)], None));
    let ingest = |tick: &mut TickLoop, time: u64| {
        tick.ingest_event("bid".to_string(), event(), None, time)
    };
    let mut results = FloatResults::new();
    let sum = FloatCall::Compute(
        Arithmetic::Add,
        NumericValue::Float(1.5_f64.to_bits()),
        NumericValue::Int(1),
    );
    let order = FloatCall::Order(
        NumericValue::Float(2.5_f64.to_bits()),
        NumericValue::Int(2),
    );

    assert_eq!(ingest(&mut tick, 3), Ok(3));
    assert_eq!(tick.current_watermark(), 0);
    assert_eq!(
        tick.dispatch_next(&results, Encodable::all()),
        Ok(Some(sum))
    );
    assert_eq!(tick.next_event().map(|event| event.target_op_index), Some(1));
    results.note_number(sum, 2.5_f64.to_bits());
    assert_eq!(tick.dispatch_next(&results, Encodable::all()), Ok(None));
    let next = tick.next_event().expect("event for the filter");
    assert_eq!(next.target_op_index, 2);
    assert_eq!(next.row, vec![float(2.5)]);
    assert_eq!(
        tick.dispatch_next(&results, Encodable::all()),
        Ok(Some(order))
    );
    results.note_order(order, FloatOrder::Greater);
    assert_eq!(tick.dispatch_next(&results, Encodable::all()), Ok(None));
    let next = tick.next_event().expect("event for the view");
    assert_eq!((next.target_op_index, next.diff), (3, 1));
    assert_eq!(next.row, vec![float(2.5)]);
    assert_eq!(tick.dispatch_next(&results, Encodable::all()), Ok(None));
    assert!(tick.next_event().is_none());
    assert_eq!(tick.dispatch_next(&results, Encodable::all()), Ok(None));

    assert_eq!(ingest(&mut tick, 4), Ok(4));
    results.note_order(order, FloatOrder::Unordered);
    assert_eq!(tick.dispatch_next(&results, Encodable::all()), Ok(None));
    assert_eq!(
        tick.dispatch_next(&results, Encodable::all()),
        Err(OperatorError::Expression(ExprError::NotComparable))
    );
    assert!(tick.next_event().is_none());
    assert_eq!(ingest(&mut tick, 5), Ok(5));
    assert_eq!(tick.drain_queue(&nothing()), Ok(Some(sum)));
    assert_eq!(tick.next_event().map(|event| event.target_op_index), Some(1));
    assert_eq!(
        tick.ingest_event("nosuch".to_string(), event(), None, 6),
        Err(TickError::Ingest(IngestError::NoScan))
    );
}

#[test]
fn a_step_waits_for_the_results_of_operations_on_floats() {
    let mut plan = DataflowPlan::new("floats".to_string());
    plan.add_operator(scan("bid", 0));
    plan.add_operator(OperatorNode::Filter(FilterNode {
        input: OutputPort::new(OperatorId(0), 0),
        output: OutputPort::new(OperatorId(1), 0),
        predicate: Expr::Gt(
            Box::new(Expr::column(0)),
            Box::new(Expr::literal(number(2))),
        ),
    }));
    plan.add_operator(materialize(1, "mv"));
    let mut registry = MaterializedViewRegistry::new();
    let mut tick = instantiate_tick_loop(setup(plan, vec!["bid"]), &mut registry)
        .expect("instantiate");
    let ingest = |tick: &mut TickLoop, row: Row, time: u64| {
        tick.ingest_event("bid".to_string(), Ok::<_, ()>((row, None)), None, time)
    };
    let order = FloatCall::Order(
        NumericValue::Float(2.5_f64.to_bits()),
        NumericValue::Int(2),
    );
    assert_eq!(ingest(&mut tick, vec![number(5)], 3), Ok(3));
    assert_eq!(ingest(&mut tick, vec![float(2.5)], 4), Ok(4));
    assert_eq!(ingest(&mut tick, vec![number(1)], 5), Ok(5));
    assert_eq!(
        tick.advance_watermark::<()>(&mut registry, 9, &nothing()),
        Err(TickError::Awaits(order))
    );
    assert_eq!(tick.current_watermark(), 9);
    let next = tick.next_event().expect("the row that waits");
    assert_eq!((next.target_op_index, &next.row), (1, &vec![float(2.5)]));
    let at = registry.get("mv").expect("view");
    assert_eq!(registry.view(at).watermark(), None);
    assert_eq!(tick.finish_step(&mut registry, &nothing()), Ok(Some(order)));
    let mut outside = nothing();
    outside.floats.note_order(order, FloatOrder::Greater);
    assert_eq!(tick.finish_step(&mut registry, &outside), Ok(None));
    assert!(tick.next_event().is_none());
    assert_eq!(registry.view(at).watermark(), Some(9));
}

#[test]
fn queued_rows_are_stored_up_to_one_that_cannot_be_encoded() {
    let mut registry = MaterializedViewRegistry::new();
    let mut tick = instantiate_tick_loop(setup(join_plan(), vec!["bid", "person"]), &mut registry)
        .expect("instantiate");
    for time in 1..4 {
        assert_eq!(
            tick.ingest_event("bid".to_string(), bid(7, time as i64), None, time),
            Ok(time)
        );
    }
    let mut outside = nothing();
    outside.encodable = vec![Encodable::all(), Encodable { row: false, output: None }];
    assert_eq!(tick.drain_queue(&outside), Err(OperatorError::NotEncoded));
    let changes = tick.take_join_changes(2).expect("join");
    assert_eq!(changes.left, vec![(vec![number(7), number(1)], 1)]);
    outside.encodable = vec![Encodable::all()];
    assert_eq!(tick.drain_queue(&outside), Ok(None));
    let changes = tick.take_join_changes(2).expect("join");
    assert_eq!(changes.left, vec![(vec![number(7), number(3)], 1)]);
}

#[test]
fn a_step_is_begun_and_finished() {
    let mut registry = MaterializedViewRegistry::new();
    let mut tick = instantiate_tick_loop(setup(join_plan(), vec!["bid", "person"]), &mut registry)
        .expect("instantiate");
    assert_eq!(
        tick.ingest_event("bid".to_string(), bid(7, 9), None, 3),
        Ok(3)
    );
    assert_eq!(tick.begin_source_step::<()>("bid", 3), Ok(None));
    assert_eq!(tick.begin_source_step::<()>("person", 2), Ok(Some(1)));
    assert_eq!(tick.current_watermark(), 2);
    let at = registry.get("mv_join").expect("view");
    assert_eq!(registry.view(at).watermark(), None);
    assert!(tick.next_event().is_some());
    assert_eq!(tick.finish_step(&mut registry, &nothing()), Ok(None));
    assert!(tick.next_event().is_none());
    assert_eq!(registry.view(at).watermark(), Some(2));
    assert_eq!(tick.begin_step(2), None);
    assert_eq!(tick.begin_step(9), Some(2));
    assert_eq!(
        tick.begin_source_step::<()>("nosuch", 9),
        Err(TickError::NoWatermark)
    );
}

#[test]
fn the_changes_of_a_join_are_handed_out() {
    let mut registry = MaterializedViewRegistry::new();
    let mut tick = instantiate_tick_loop(setup(join_plan(), vec!["bid", "person"]), &mut registry)
        .expect("instantiate");
    tick.process_event(&mut registry, "bid".to_string(), bid(7, 9), None, 1, &nothing())
        .expect("bid");
    assert_eq!(tick.drain_queue(&nothing()), Ok(None));
    let person = Ok::<(Row, Option<u64>), ()>((vec![number(9), number(77)], None));
    assert_eq!(
        tick.ingest_event("person".to_string(), person, None, 2),
        Ok(2)
    );
    let refused = Encodable { row: true, output: Some(0) };
    assert_eq!(
        tick.dispatch_next(&FloatResults::new(), refused),
        Err(OperatorError::NotEncoded)
    );
    let changes = tick.take_join_changes(2).expect("join");
    assert_eq!(changes.left, vec![(vec![number(7), number(9)], 1)]);
    assert_eq!(changes.right, vec![(vec![number(9), number(77)], 1)]);
    assert!(changes.output.is_empty());
    assert_eq!(tick.take_join_changes(3), Err(3));
    assert_eq!(tick.take_join_changes(9), Err(9));
}

#[test]
fn a_view_is_published_from_snapshots() {
    let mut registry = MaterializedViewRegistry::new();
    let mut tick = instantiate_tick_loop(setup(view_plan(), vec!["bid"]), &mut registry)
        .expect("instantiate");
    let pending = |tick: &TickLoop, frontier: i64| match &tick.ops()[1] {
        StreamOperator::Materialize(view) => view.next_pending(frontier),
        _ => panic!("no view"),
    };
    let snapshot = |entries: Vec<(Vec<u8>, i64)>| collect(entries).expect("snapshot");
    assert_eq!(pending(&tick, 0), None);
    assert_eq!(pending(&tick, 2), Some(1));
    let first = tick.replicate_view(1, 1, snapshot(vec![(vec![1], 2), (vec![2], 1)]));
    assert_eq!(first, Ok(Some(vec![(vec![1], 2), (vec![2], 1)])));
    assert_eq!(pending(&tick, 2), Some(2));
    let second = tick.replicate_view(1, 2, snapshot(vec![(vec![1], 1), (vec![2], 1)]));
    assert_eq!(second, Ok(Some(vec![(vec![1], -1)])));
    assert_eq!(pending(&tick, 2), None);
    assert_eq!(tick.replicate_view(0, 3, snapshot(Vec::new())), Err(0));

    let at = registry.get("mv").expect("view");
    let rows = vec![(vec![number(1)], 2), (vec![number(2)], 1)];
    assert!(apply_view_deltas(registry.view_mut(at), &rows));
    let overflowing = vec![
        (vec![number(1)], -1),
        (vec![number(2)], i64::MAX),
        (vec![number(1)], 5),
    ];
    assert!(!apply_view_deltas(registry.view_mut(at), &overflowing));
    assert_eq!(
        view_rows(&registry, "mv"),
        vec![(vec![number(1)], 1), (vec![number(2)], 1)]
    );
}
