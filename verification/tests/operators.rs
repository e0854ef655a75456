use floe_executor::dataflow_plan::Expr;
use floe_executor::expr_eval::{Arithmetic, ExprError, NumericValue};
use floe_executor::float_results::{FloatCall, FloatOrder, FloatResults};
use floe_executor::mv::registry::{DbspPersistedState, MaterializedViewRegistry, ZSetHandle};
use floe_executor::operator_state::{checkpoint_records, OperatorStateHandle};
use floe_executor::operators::filter::{
    filter_snapshot, FilterLiveState, FilterOperator, SnapshotRow,
};
use floe_executor::operators::join::{apply_state_change, JoinOperator, JoinSide, StoredRow};
use floe_executor::operators::map::{project_snapshot, MapOperator};
use floe_executor::operators::materialize::{checkpoint_state, MaterializedViewCheckpointEntry};
use floe_executor::operators::mv_sink::{
    bucket_for, build_segments, plan_version, step_input, MvSinkError, MvSinkOp, VersionPlan,
};
use floe_executor::operators::scan::ScanOperator;
use floe_executor::operators::{DispatchSink, Encodable, OperatorError};
use floe_executor::stream_types::{InputPort, OperatorId, OutputPort};
use floe_executor::values::{Row, ScalarValue};
use std::collections::VecDeque;

fn test_sink() -> DispatchSink {
    DispatchSink::new(
        vec![(0, InputPort::new(OperatorId(0), 0))],
        VecDeque::new(),
    )
}

fn rows(sink: &DispatchSink) -> Vec<(Row, i64)> {
    sink.queue
        .iter()
        .map(|event| (event.row.clone(), event.diff))
        .collect()
}

fn number(value: i64) -> ScalarValue {
    ScalarValue::Int64(Some(value))
}

#[test]
fn filters_rows() {
    let port = OutputPort::new(OperatorId(0), 0);
    let predicate = Expr::Eq(
        Box::new(Expr::column(0)),
        Box::new(Expr::literal(ScalarValue::Int64(Some(42)))),
    );
    let mut operator =
        FilterOperator::new(InputPort::new(port.operator, 0), predicate, test_sink());

    let accepted = vec![ScalarValue::Int64(Some(42))];
    operator
        .on_input(InputPort::new(port.operator, 0), accepted.clone(), 1, 1)
        .expect("filter pass");
    assert_eq!(rows(operator.sink()).len(), 1);

    let rejected = vec![ScalarValue::Int64(Some(0))];
    operator
        .on_input(InputPort::new(port.operator, 0), rejected, 1, 1)
        .expect("filter drop");
    assert_eq!(rows(operator.sink()).len(), 1, "second row filtered out");
    assert_eq!(rows(operator.sink())[0].0, accepted);
}

#[test]
fn projects_rows() {
    let input = OutputPort::new(OperatorId(0), 0);
    let mut operator = MapOperator::new(
        InputPort::new(input.operator, input.port_index),
        vec![
            Expr::column(0),
            Expr::Add(
                Box::new(Expr::column(1)),
                Box::new(Expr::literal(ScalarValue::Int64(Some(1)))),
            ),
        ],
        test_sink(),
    );

    let row = vec![ScalarValue::Int64(Some(10)), ScalarValue::Int64(Some(5))];
    operator
        .on_input(InputPort::new(input.operator, 0), row.clone(), 1, 1)
        .expect("map input");
    let projected = rows(operator.sink());
    assert_eq!(projected.len(), 1);
    assert_eq!(projected[0].0[0], row[0]);
    assert_eq!(projected[0].0[1], ScalarValue::Int64(Some(6)));
}

#[test]
fn ingests_rows() {
    let mut op = ScanOperator::new("bid".to_string(), test_sink());
    let row = vec![ScalarValue::Int64(Some(1))];
    op.ingest(row.clone(), 1, 1).expect("ingest");
    assert_eq!(rows(op.sink()).len(), 1);
    assert_eq!(rows(op.sink())[0].0, row);
}

#[test]
fn apply_state_change_removes_exact_match_fast() {
    let row = vec![ScalarValue::Int64(Some(1))];
    let mut entries = vec![StoredRow {
        row: row.clone(),
        multiplicity: 2,
    }];
    apply_state_change(&mut entries, &row, -2);
    assert!(entries.is_empty());
}

fn join_operator() -> (JoinOperator<DispatchSink>, InputPort, InputPort) {
    let left_input = InputPort::new(OperatorId(0), 0);
    let right_input = InputPort::new(OperatorId(1), 0);
    let operator = JoinOperator::new(
        left_input,
        right_input,
        vec![(0, 0)],
        vec![Expr::column(0), Expr::column(3)],
        test_sink(),
    );
    (operator, left_input, right_input)
}

#[test]
fn joins_on_single_key() {
    let (mut op, left_input, right_input) = join_operator();

    let left_row = vec![ScalarValue::Int64(Some(1)), ScalarValue::Int64(Some(100))];
    let right_row = vec![ScalarValue::Int64(Some(1)), ScalarValue::Int64(Some(200))];

    op.on_input(left_input, left_row.clone(), 1, 1)
        .expect("left insert");
    op.on_input(right_input, right_row.clone(), 1, 1)
        .expect("right insert");

    let joined = rows(op.sink());
    assert_eq!(joined.len(), 1);
    assert_eq!(joined[0].0[0], left_row[0]);
    assert_eq!(joined[0].0[1], right_row[1]);
}

#[test]
fn a_join_multiplies_changes_with_what_it_holds() {
    let (mut op, left_input, right_input) = join_operator();
    op.on_input(left_input, vec![number(1), number(100)], 2, 1)
        .expect("left insert");
    op.on_input(right_input, vec![number(1), number(200)], 3, 1)
        .expect("right insert");
    op.on_input(left_input, vec![number(1), number(100)], -1, 2)
        .expect("left delete");
    let changes: Vec<i64> = rows(op.sink()).iter().map(|row| row.1).collect();
    assert_eq!(changes, vec![6, -3]);
    assert_eq!(op.left_changes.len(), 2);
    assert_eq!(op.right_changes.len(), 1);
    assert_eq!(op.output_changes.len(), 2);
}

#[test]
fn a_join_goes_on_from_its_stored_rows() {
    let (mut op, _, right_input) = join_operator();
    op.load_snapshot(
        vec![(vec![number(1), number(100)], 2), (vec![number(2), number(0)], 0)],
        JoinSide::Left,
    )
    .expect("load");
    op.on_input(right_input, vec![number(1), number(200)], 1, 1)
        .expect("right insert");
    assert_eq!(rows(op.sink()), vec![(vec![number(1), number(200)], 2)]);
    assert!(op.left_changes.is_empty());
}

#[test]
fn every_failure_of_an_operator_is_named() {
    let port = InputPort::new(OperatorId(0), 0);
    let other = InputPort::new(OperatorId(5), 0);
    let mut filter = FilterOperator::new(port, Expr::column(4), test_sink());
    assert_eq!(
        filter.on_input(other, vec![], 1, 1),
        Err(OperatorError::UnexpectedPort(other))
    );
    assert_eq!(
        filter.on_input(port, vec![], 1, 1),
        Err(OperatorError::Expression(ExprError::ColumnOutOfBounds(4)))
    );
    let mut map = MapOperator::new(port, vec![Expr::column(4)], test_sink());
    assert_eq!(
        map.on_input(other, vec![], 1, 1),
        Err(OperatorError::UnexpectedPort(other))
    );
    let mut scan = ScanOperator::new("bid".to_string(), test_sink());
    assert_eq!(
        scan.on_input(port, vec![], 1, 1),
        Err(OperatorError::ScanTakesNoInput)
    );
    let (mut join, left_input, right_input) = join_operator();
    assert_eq!(
        join.on_input(other, vec![], 1, 1),
        Err(OperatorError::UnexpectedPort(other))
    );
    assert_eq!(
        join.on_input(left_input, vec![], 1, 1),
        Err(OperatorError::KeyOutOfBounds(0))
    );
    join.on_input(left_input, vec![number(1), number(1)], i64::MAX, 1)
        .expect("left insert");
    assert_eq!(
        join.on_input(right_input, vec![number(1), number(1)], 2, 1),
        Err(OperatorError::MultiplicityOverflow)
    );
}

#[test]
fn segments_hold_the_changes_of_a_bucket_in_order() {
    let high = 3_u64 << 48;
    assert_eq!(bucket_for(high + 5), 3);
    let segments = build_segments(&vec![(high + 5, 1), (9, 2), (4, 0), (1, -1)]);
    assert_eq!(segments.len(), 2);
    assert_eq!((segments[0].bucket, segments[1].bucket), (0, 3));
    assert_eq!(segments[0].deltas, vec![(1, -1), (9, 2)]);
    assert_eq!(segments[1].deltas, vec![(high + 5, 1)]);
}

#[test]
fn a_step_without_changes_keeps_the_version() {
    assert!(matches!(plan_version(&vec![(1, 0)], Some(6)), VersionPlan::Keep(6)));
    assert!(matches!(plan_version(&vec![], None), VersionPlan::Keep(0)));
    assert!(matches!(
        plan_version(&vec![(1, 1)], Some(6)),
        VersionPlan::Create(_, Some(6))
    ));
    assert_eq!(step_input(&vec![]), Err(MvSinkError::NoInput));
    let handle = ZSetHandle { ns: "mv".to_string(), version: 1 };
    assert_eq!(step_input(&vec![handle.clone()]), Ok(handle));
}

#[test]
fn snapshots_at_version_zero_are_not_recorded() {
    let fresh = OperatorStateHandle::new("left".to_string(), "ns/left".to_string(), 0);
    assert!(checkpoint_records(&vec![fresh.clone()], "operator_state").is_none());
    let stored = OperatorStateHandle::new("right".to_string(), "ns/right".to_string(), 4);
    let records =
        checkpoint_records(&vec![fresh, stored], "operator_state").expect("one is stored");
    assert_eq!(records.len(), 1);
    assert_eq!(records[0].name, "right");
    assert_eq!(records[0].version, 4);
}

#[test]
fn filters_and_maps_are_linear() {
    let entry = |key: u8, value: i64, diff: i64| SnapshotRow {
        key: vec![key],
        row: vec![number(value)],
        diff,
    };
    let predicate = Expr::Gt(Box::new(Expr::column(0)), Box::new(Expr::literal(number(1))));
    let mut first = filter_snapshot(
        &predicate,
        vec![entry(1, 1, 1), entry(2, 2, -1)],
        &FloatResults::new(),
    )
        .expect("first part");
    let second = filter_snapshot(
        &predicate,
        vec![entry(3, 3, 2), entry(4, 4, 0)],
        &FloatResults::new(),
    )
        .expect("second part");
    let whole = filter_snapshot(
        &predicate,
        vec![entry(1, 1, 1), entry(2, 2, -1), entry(3, 3, 2), entry(4, 4, 0)],
        &FloatResults::new(),
    )
    .expect("whole");
    first.extend(second);
    assert_eq!(whole, first);
    assert_eq!(whole, vec![(vec![2], -1), (vec![3], 2)]);

    let double = vec![Expr::Mul(
        Box::new(Expr::column(0)),
        Box::new(Expr::literal(number(2))),
    )];
    let rows = |values: &[(i64, i64)]| -> Vec<(Row, i64)> {
        values
            .iter()
            .map(|value| (vec![number(value.0)], value.1))
            .collect()
    };
    let mut first = project_snapshot(
        &double,
        &rows(&[(1, 1)]),
        &FloatResults::new(),
    ).expect("first part");
    let second = project_snapshot(
        &double,
        &rows(&[(5, 0), (2, -3)]),
        &FloatResults::new(),
    ).expect("second part");
    let whole = project_snapshot(
        &double,
        &rows(&[(1, 1), (5, 0), (2, -3)]),
        &FloatResults::new(),
    ).expect("whole");
    first.extend(second);
    assert_eq!(whole, first);
    assert_eq!(whole, rows(&[(2, 1), (4, -3)]));
}

#[test]
fn a_finished_step_moves_the_view_to_the_stored_version() {
    let mut registry: MaterializedViewRegistry<(), (), DbspPersistedState<u8, u8>, (), ()> =
        MaterializedViewRegistry::new();
    let at = registry.register("mv_sink_view".to_string());
    let stored = ZSetHandle { ns: "mv_sink_state".to_string(), version: 1 };
    let sink = MvSinkOp::new("mv_sink_view".to_string());
    assert_eq!(sink.finish_step(&mut registry, 7, 8, stored.clone()), Ok(()));
    let persisted = registry.view(at).dbsp_state().expect("persisted state");
    assert_eq!(persisted.namespace(), "mv_sink_state");
    assert_eq!(persisted.version(), 1);
    assert_eq!(persisted.logical_version(), 1);
    assert_eq!((*persisted.dictionary(), *persisted.table()), (7, 8));
    assert_eq!(
        checkpoint_state("mv_sink_view", true, Some(persisted)),
        Some(MaterializedViewCheckpointEntry {
            view: "mv_sink_view".to_string(),
            namespace: "mv_sink_state".to_string(),
            version: 1,
        })
    );
    assert_eq!(checkpoint_state("mv_sink_view", false, Some(persisted)), None);
    assert_eq!(checkpoint_state::<u8, u8>("mv_sink_view", true, None), None);
    let other = MvSinkOp::new("mv_other".to_string());
    assert_eq!(
        other.finish_step(&mut registry, 7, 8, stored),
        Err(MvSinkError::ViewNotRegistered)
    );
}

#[test]
fn a_filter_hands_on_what_changed_between_snapshots() {
    let predicate = Expr::Gt(
        Box::new(Expr::column(0)),
        Box::new(Expr::literal(number(10))),
    );
    let row = |key: u8, value: i64, diff: i64| SnapshotRow {
        key: vec![key],
        row: vec![number(value)],
        diff,
    };
    let mut state = FilterLiveState::new();
    let first = state
        .publish_pending(
            &predicate,
            vec![row(1, 11, 2), row(2, 5, 1), row(3, 30, 1)],
            &FloatResults::new(),
        )
        .expect("first");
    assert_eq!(first, vec![(vec![1], 2), (vec![3], 1)]);
    let second = state
        .publish_pending(&predicate, vec![row(1, 11, 5), row(2, 5, 9)], &FloatResults::new())
        .expect("second");
    assert_eq!(second, vec![(vec![1], 3), (vec![3], -1)]);
    let unchanged = state
        .publish_pending(&predicate, vec![row(1, 11, 5)], &FloatResults::new())
        .expect("unchanged");
    assert!(unchanged.is_empty());
    let text = SnapshotRow {
        key: vec![4],
        row: vec![ScalarValue::Utf8(Some("x".to_string()))],
        diff: 1,
    };
    assert_eq!(
        state.publish_pending(&predicate, vec![text], &FloatResults::new()),
        Err(OperatorError::Expression(ExprError::NotNumeric))
    );
    assert_eq!(
        state.publish_pending(&predicate, vec![row(1, 11, i64::MIN)], &FloatResults::new()),
        Err(OperatorError::MultiplicityOverflow)
    );
    let last = state.publish_pending(&predicate, vec![], &FloatResults::new()).expect("last");
    assert_eq!(last, vec![(vec![1], -5)]);
}

fn accumulated(changes: Vec<(Row, i64)>) -> Vec<(Row, i64)> {
    let mut sums: Vec<(Row, i64)> = Vec::new();
    for (row, diff) in changes {
        match sums.iter_mut().find(|sum| sum.0 == row) {
            Some(sum) => sum.1 += diff,
            None => sums.push((row, diff)),
        }
    }
    sums.retain(|sum| sum.1 != 0);
    sums
}

#[test]
fn filter_output_matches_sink_output() {
    let predicate = || {
        Expr::Eq(
            Box::new(Expr::column(0)),
            Box::new(Expr::literal(ScalarValue::Int64(Some(42)))),
        )
    };
    let input = InputPort::new(OperatorId(0), 0);
    let mut operator = FilterOperator::new(input, predicate(), test_sink());
    let events = vec![(42, 1, 1), (7, 1, 2), (42, 1, 3), (42, -1, 4)];
    let mut upstream: Vec<(Row, i64)> = Vec::new();
    let mut state = FilterLiveState::new();
    let mut stored: Vec<(Row, i64)> = Vec::new();
    for (value, diff, time) in events {
        upstream = accumulated([upstream, vec![(vec![number(value)], diff)]].concat());
        let snapshot = upstream
            .iter()
            .map(|(row, diff)| SnapshotRow {
                key: format!("{:?}", row).into_bytes(),
                row: row.clone(),
                diff: *diff,
            })
            .collect();
        for (key, diff) in state.publish_pending(&predicate(), snapshot, &FloatResults::new()).expect("publish") {
            let row = upstream
                .iter()
                .map(|entry| entry.0.clone())
                .find(|row| format!("{:?}", row).into_bytes() == key)
                .expect("row of the snapshot");
            stored.push((row, diff));
        }
        operator
            .on_input(input, vec![number(value)], diff, time)
            .expect("apply filter");
    }
    assert_eq!(accumulated(stored), accumulated(rows(operator.sink())));
    assert_eq!(accumulated(rows(operator.sink())), vec![(vec![number(42)], 1)]);
}

#[test]
fn map_dbsp_output_matches_sink_state() {
    let expressions = || {
        vec![
            Expr::column(0),
            Expr::Add(
                Box::new(Expr::column(1)),
                Box::new(Expr::literal(ScalarValue::Int64(Some(1)))),
            ),
        ]
    };
    let input = InputPort::new(OperatorId(0), 0);
    let mut operator = MapOperator::new(input, expressions(), test_sink());
    let events = vec![
        (vec![number(10), number(1)], 1, 1),
        (vec![number(20), number(2)], 1, 2),
        (vec![number(10), number(1)], -1, 3),
    ];
    let mut upstream: Vec<(Row, i64)> = Vec::new();
    for (row, diff, time) in events {
        upstream.push((row.clone(), diff));
        operator.on_input(input, row, diff, time).expect("map row");
    }
    let snapshot = accumulated(upstream);
    let stored = project_snapshot(&expressions(), &snapshot, &FloatResults::new()).expect("images");
    assert_eq!(accumulated(stored), accumulated(rows(operator.sink())));
    assert_eq!(
        accumulated(rows(operator.sink())),
        vec![(vec![number(20), number(3)], 1)]
    );
}

#[test]
fn a_restored_join_hands_on_what_the_one_before_would_have() {
    let (mut running, left_input, right_input) = join_operator();
    let left = |value: i64| vec![number(1), number(value)];
    running.on_input(left_input, left(100), 2, 1).expect("left");
    running.on_input(left_input, left(100), 1, 2).expect("left");
    running.on_input(left_input, left(101), 1, 3).expect("left");
    running.on_input(left_input, left(100), -2, 4).expect("left");
    let stored = accumulated(
        running
            .left_changes
            .iter()
            .map(|change| (change.0.clone(), change.1))
            .collect(),
    );
    assert_eq!(stored, vec![(left(100), 1), (left(101), 1)]);
    let (mut restored, _, _) = join_operator();
    restored.load_snapshot(stored, JoinSide::Left).expect("load");
    for join in [&mut running, &mut restored] {
        join.on_input(right_input, vec![number(1), number(200)], 3, 5)
            .expect("right");
    }
    assert_eq!(
        accumulated(rows(running.sink())),
        accumulated(rows(restored.sink()))
    );
    assert_eq!(
        accumulated(rows(restored.sink())),
        vec![(vec![number(1), number(200)], 6)]
    );
}

fn float(value: f64) -> ScalarValue {
    ScalarValue::Float64(Some(value.to_bits()))
}

#[test]
fn operators_go_on_with_the_results_of_operations_on_floats() {
    let port = InputPort::new(OperatorId(0), 0);
    let half = 0.5_f64;
    let call = FloatCall::Compute(
        Arithmetic::Add,
        NumericValue::Float(half.to_bits()),
        NumericValue::Int(1),
    );
    let sum = Expr::Add(
        Box::new(Expr::column(0)),
        Box::new(Expr::literal(number(1))),
    );
    let mut map = MapOperator::new(port, vec![sum], test_sink());
    assert_eq!(
        map.on_input(port, vec![float(half)], 2, 1),
        Err(OperatorError::Expression(ExprError::Awaits(call)))
    );
    let mut results = FloatResults::new();
    results.note_number(call, (half + 1.0).to_bits());
    assert_eq!(
        map.on_input_with(port, vec![float(half)], 2, 1, &results),
        Ok(())
    );
    assert_eq!(rows(map.sink()), vec![(vec![float(1.5)], 2)]);

    let order = FloatCall::Order(
        NumericValue::Float(half.to_bits()),
        NumericValue::Int(1),
    );
    let less = Expr::Lt(
        Box::new(Expr::column(0)),
        Box::new(Expr::literal(number(1))),
    );
    let mut filter = FilterOperator::new(port, less, test_sink());
    assert_eq!(
        filter.on_input(port, vec![float(half)], 1, 1),
        Err(OperatorError::Expression(ExprError::Awaits(order)))
    );
    results.note_order(order, FloatOrder::Less);
    assert_eq!(
        filter.on_input_with(port, vec![float(half)], 1, 1, &results),
        Ok(())
    );
    assert_eq!(rows(filter.sink()), vec![(vec![float(half)], 1)]);
    results.note_order(order, FloatOrder::Unordered);
    assert_eq!(
        filter.on_input_with(port, vec![float(half)], 1, 1, &results),
        Err(OperatorError::Expression(ExprError::NotComparable))
    );
}

#[test]
fn a_row_of_a_join_that_cannot_be_encoded_is_not_handed_on() {
    let (mut operator, left_input, _) = join_operator();
    for value in [10, 20, 30] {
        operator
            .handle_row(JoinSide::Right, vec![number(1), number(value)], 1, 1)
            .expect("right row");
    }
    let row = vec![number(1), number(5)];
    let refused = Encodable { row: false, output: None };
    assert_eq!(
        operator.on_input_with(left_input, row.clone(), 1, 2, &FloatResults::new(), refused),
        Err(OperatorError::NotEncoded)
    );
    assert!(rows(operator.sink()).is_empty());
    let changes = operator.take_changes();
    assert_eq!((changes.left.len(), changes.right.len()), (0, 3));
    assert!(changes.output.is_empty());

    let second = Encodable { row: true, output: Some(1) };
    assert_eq!(
        operator.on_input_with(left_input, row.clone(), 1, 3, &FloatResults::new(), second),
        Err(OperatorError::NotEncoded)
    );
    assert_eq!(
        rows(operator.sink()),
        vec![(vec![number(1), number(10)], 1)]
    );
    let changes = operator.take_changes();
    assert_eq!(changes.left, vec![(row.clone(), 1)]);
    assert_eq!(changes.output, vec![(vec![number(1), number(10)], 1)]);

    let beyond = Encodable { row: true, output: Some(3) };
    assert_eq!(
        operator.on_input_with(left_input, row, 1, 4, &FloatResults::new(), beyond),
        Ok(())
    );
    assert_eq!(operator.take_changes().output.len(), 3);
    assert!(operator.take_changes().output.is_empty());
}

#[test]
fn the_state_of_a_join_changes_before_its_row_is_encoded() {
    let (mut operator, left_input, right_input) = join_operator();
    let refused = Encodable { row: false, output: None };
    assert_eq!(
        operator.on_input_with(
            left_input,
            vec![number(1), number(5)],
            1,
            1,
            &FloatResults::new(),
            refused
        ),
        Err(OperatorError::NotEncoded)
    );
    operator
        .on_input(right_input, vec![number(1), number(9)], 1, 2)
        .expect("right row");
    assert_eq!(rows(operator.sink()), vec![(vec![number(1), number(9)], 1)]);
}
