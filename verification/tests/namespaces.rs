use floe_executor::namespaces::{materialized_view, operator_state, source};

#[test]
fn builds_materialized_view_namespace() {
    assert_eq!(materialized_view("mv_q1").unwrap(), "mv/mv_q1");
}

#[test]
fn builds_source_namespace() {
    assert_eq!(source("bids").unwrap(), "src/bids");
}

#[test]
fn builds_operator_namespace() {
    assert_eq!(
        operator_state("planA", 2, "left").unwrap(),
        "op/planA/2/left"
    );
}

#[test]
fn rejects_slashes() {
    assert!(operator_state("plan/A", 0, "left").is_err());
    assert!(materialized_view("mv/q3").is_err());
}

#[test]
fn rejects_empty() {
    assert!(source("   ").is_err());
}
