use floe_executor::materialized_view::MaterializedViewRegistry;
use floe_executor::operators::materialize::{apply_view_deltas, MaterializeOperator};
use floe_executor::operators::DispatchSink;
use floe_executor::stream_types::{InputPort, OperatorId};
use floe_executor::values::{Row, ScalarValue};
use floe_executor::zset::ZSet;
use std::collections::VecDeque;

fn count(view: &Vec<(Row, i64)>, row: &Row) -> Option<i64> {
    view.iter().find(|entry| entry.0 == *row).map(|entry| entry.1)
}

#[test]
fn materialized_view_registers_and_updates_view_state() {
    let mut registry = MaterializedViewRegistry::new();
    let at = registry.register("mv_test".to_string());
    let view = registry.view_mut(at);
    let row = vec![ScalarValue::Int64(Some(1))];
    view.apply(row.clone(), 1);
    assert_eq!(count(view.snapshot(), &row), Some(1));
    view.apply(row.clone(), -1);
    assert!(view.snapshot().is_empty());
    view.update_watermark(42);
    assert_eq!(view.watermark(), Some(42));
}

#[test]
fn materialized_view_registry_returns_same_handle() {
    let mut registry = MaterializedViewRegistry::new();
    let view_a = registry.register("mv".to_string());
    let view_b = registry.get("mv").expect("view registered");
    assert_eq!(view_a, view_b);
}

#[test]
fn a_multiplicity_that_does_not_fit_changes_nothing() {
    let mut registry = MaterializedViewRegistry::new();
    let at = registry.register("mv".to_string());
    let view = registry.view_mut(at);
    let row = vec![ScalarValue::Utf8(Some("x".to_string()))];
    assert!(view.apply(row.clone(), i64::MAX));
    assert!(!view.apply(row.clone(), 1));
    assert_eq!(count(view.snapshot(), &row), Some(i64::MAX));
}

#[test]
fn rows_that_differ_in_their_time_zone_are_one_row() {
    let mut registry = MaterializedViewRegistry::new();
    let at = registry.register("mv".to_string());
    let view = registry.view_mut(at);
    view.apply(vec![ScalarValue::TimestampMillisecond(Some(5), None)], 2);
    view.apply(
        vec![ScalarValue::TimestampMillisecond(Some(5), Some("UTC".to_string()))],
        -2,
    );
    assert!(view.snapshot().is_empty());
}

#[test]
fn deltas_of_a_view_add_up() {
    let mut registry = MaterializedViewRegistry::new();
    let at = registry.register("mv".to_string());
    let view = registry.view_mut(at);
    let row = |value: i64| vec![ScalarValue::Int64(Some(value))];
    assert!(apply_view_deltas(
        view,
        &vec![(row(1), 2), (row(2), 1), (row(1), -1), (row(2), -1)]
    ));
    assert_eq!(view.snapshot().len(), 1);
    assert_eq!(count(view.snapshot(), &row(1)), Some(1));
}

#[test]
fn a_materialize_operator_hands_on_what_changed() {
    let mut registry = MaterializedViewRegistry::new();
    let port = InputPort::new(OperatorId(0), 0);
    let mut operator = MaterializeOperator::new(
        port,
        "mv".to_string(),
        &mut registry,
        DispatchSink::new(Vec::new(), VecDeque::new()),
        None,
    );
    assert_eq!(operator.next_pending(0), None);
    assert_eq!(operator.next_pending(2), Some(1));
    let mut first = ZSet::new();
    first.add(vec![1], 1);
    first.add(vec![2], 3);
    let deltas = operator.replicate(1, first).expect("weights fit");
    assert_eq!(deltas.len(), 2);
    let mut second = ZSet::new();
    second.add(vec![2], 1);
    let mut deltas = operator.replicate(2, second).expect("weights fit");
    deltas.sort();
    assert_eq!(deltas, vec![(vec![1], -1), (vec![2], -2)]);
    assert_eq!(operator.next_pending(2), None);
    assert_eq!(operator.next_pending(3), Some(3));
    operator.on_watermark(&mut registry, 9).expect("watermark");
    let at = registry.get("mv").expect("view registered");
    assert_eq!(registry.view(at).watermark(), Some(9));
}
