use floe_executor::columns::{Cell, Column, ColumnBatch, Field};
use floe_executor::mv::registry::{Batch, MaterializedViewRegistry};
use floe_executor::mv_changelog::{
    after_wait, arrow_delta_batches_to_changelog, find_changelog_view,
    is_mv_changelog_canceled_error, materialize_delta_batches, materialize_snapshot_batches,
    snapshot_batches_to_changelog, start_changelog, ChangelogEvent, ChangelogStep,
    MvChangelogBatch, MvChangelogBatchKind, MvChangelogError, MvChangelogExecutionConfig,
    MvChangelogParams,
};
use floe_executor::values::DataType;
use std::collections::HashMap;

const WEIGHT: &str = "__weight";

type Registry = MaterializedViewRegistry<ColumnBatch, u8, u8, u8, Vec<Field>>;

fn field(name: &str) -> Field {
    Field { name: name.to_string(), data_type: DataType::Int64, nullable: false }
}

fn schema() -> Vec<Field> {
    vec![field("value")]
}

fn column(values: &[i64]) -> Column {
    Column {
        data_type: DataType::Int64,
        cells: values.iter().map(|value| Cell::Int64(*value)).collect(),
    }
}

fn value_batch(values: &[i64]) -> ColumnBatch {
    ColumnBatch::try_new(schema(), vec![column(values)]).expect("build value batch")
}

fn delta_batch(deltas: &[(i64, i64)]) -> ColumnBatch {
    let values: Vec<i64> = deltas.iter().map(|delta| delta.0).collect();
    let weights: Vec<i64> = deltas.iter().map(|delta| delta.1).collect();
    ColumnBatch::try_new(
        vec![field("value"), field(WEIGHT)],
        vec![column(&values), column(&weights)],
    )
    .expect("build delta batch")
}

fn values(batch: &ColumnBatch) -> Vec<i64> {
    batch.columns[0]
        .cells
        .iter()
        .map(|cell| match cell {
            Cell::Int64(value) => *value,
            other => panic!("no integer: {:?}", other),
        })
        .collect()
}

fn params(with_snapshot: bool, as_of: Option<i64>) -> MvChangelogParams {
    MvChangelogParams { mv_name: "mv".to_string(), with_snapshot, as_of }
}

fn config(max_catchup_versions: i64) -> MvChangelogExecutionConfig {
    MvChangelogExecutionConfig { channel_capacity: 1, max_catchup_versions }
}

fn registry_with(versions: &[i64]) -> Registry {
    let mut registry = Registry::new();
    registry.set_schema("mv".to_string(), schema());
    let at = registry.register("mv".to_string());
    for version in versions {
        registry.view_mut(at).publish_arrow_version(
            *version,
            vec![Batch { rows: 1, data: value_batch(&[*version]) }],
            vec![Batch { rows: 1, data: delta_batch(&[(*version, 1)]) }],
        );
    }
    registry
}

#[test]
fn a_changelog_starts_with_the_latest_rows_and_goes_on_with_changes() {
    let mut registry = registry_with(&[1, 2]);
    let at = find_changelog_view(&registry, &params(true, None)).expect("view");
    let (first, mut cursor) =
        start_changelog(registry.view(at), &params(true, None), config(32)).expect("start");
    assert_eq!(first, Some(2));
    assert_eq!(cursor.advance(registry.view(at)), ChangelogStep::Wait);
    registry.view_mut(at).publish_logical_version(3);
    assert_eq!(
        cursor.advance(registry.view(at)),
        ChangelogStep::EmitDelta(3)
    );
    assert_eq!(cursor.advance(registry.view(at)), ChangelogStep::Again);
    assert_eq!(cursor.advance(registry.view(at)), ChangelogStep::Wait);
}

#[test]
fn a_changelog_from_a_version_sends_each_later_one_once() {
    let registry = registry_with(&[1, 3, 4, 9]);
    let at = registry.get("mv").expect("view");
    let (first, mut cursor) =
        start_changelog(registry.view(at), &params(false, Some(1)), config(2)).expect("start");
    assert_eq!(first, None);
    let mut sent = Vec::new();
    let mut yields = 0;
    loop {
        match cursor.advance(registry.view(at)) {
            ChangelogStep::EmitDelta(version) => sent.push(version),
            ChangelogStep::Yield => yields += 1,
            ChangelogStep::Again => {}
            ChangelogStep::Wait => break,
        }
    }
    assert_eq!(sent, vec![3, 4, 9]);
    assert_eq!(yields, 1);
}

#[test]
fn a_changelog_may_start_at_a_published_version_only() {
    let mut registry = registry_with(&[1]);
    let at = registry.get("mv").expect("view");
    assert_eq!(
        start_changelog(registry.view(at), &params(true, Some(1)), config(1))
            .expect("start")
            .0,
        Some(1)
    );
    assert_eq!(
        start_changelog(registry.view(at), &params(true, Some(5)), config(1)),
        Err(MvChangelogError::VersionNotFound(5))
    );
    registry.view_mut(at).publish_logical_version(5);
    assert_eq!(
        start_changelog(registry.view(at), &params(true, Some(5)), config(1))
            .expect("an empty version is published")
            .0,
        Some(5)
    );
}

#[test]
fn a_changelog_of_an_empty_view_waits() {
    let registry = registry_with(&[]);
    let at = registry.get("mv").expect("view");
    let (first, mut cursor) =
        start_changelog(registry.view(at), &params(true, None), config(0)).expect("start");
    assert_eq!(first, None);
    assert_eq!(cursor.max_catchup_versions, 1);
    assert_eq!(cursor.advance(registry.view(at)), ChangelogStep::Wait);
}

#[test]
fn a_changelog_needs_a_view_with_a_schema() {
    let mut registry = Registry::new();
    assert_eq!(
        find_changelog_view(&registry, &params(true, None)),
        Err(MvChangelogError::ViewNotFound)
    );
    registry.register("mv".to_string());
    assert_eq!(
        find_changelog_view(&registry, &params(true, None)),
        Err(MvChangelogError::SchemaMissing)
    );
}

#[test]
fn a_canceled_changelog_ends_with_an_error() {
    let canceled = after_wait(ChangelogEvent::Canceled).expect_err("canceled");
    assert!(is_mv_changelog_canceled_error(&canceled));
    assert!(!is_mv_changelog_canceled_error(&MvChangelogError::WeightNull));
    assert_eq!(after_wait(ChangelogEvent::VersionChanged), Ok(true));
    assert_eq!(after_wait(ChangelogEvent::VersionsClosed), Ok(false));
}

#[test]
fn all_rows_of_a_snapshot_count_once() {
    let changelog =
        snapshot_batches_to_changelog(vec![value_batch(&[10, 20])], &schema(), 1, Some(77))
            .expect("changelog");
    assert_eq!(changelog.len(), 1);
    assert_eq!(changelog[0].kind, MvChangelogBatchKind::Snapshot);
    assert_eq!(changelog[0].version, 1);
    assert_eq!(changelog[0].version_time, Some(77));
    assert_eq!(values(&changelog[0].batch), vec![10, 20]);
    assert_eq!(changelog[0].diffs, vec![1, 1]);
    assert_eq!(
        snapshot_batches_to_changelog(vec![delta_batch(&[(1, 1)])], &schema(), 1, None)
            .expect_err("schemas differ"),
        MvChangelogError::SnapshotSchemaMismatch
    );
}

#[test]
fn changes_carry_their_weights() {
    let changelog = arrow_delta_batches_to_changelog(
        vec![delta_batch(&[]), delta_batch(&[(1, -1), (101, 1)])],
        &schema(),
        WEIGHT,
        2,
        None,
    )
    .expect("changelog");
    assert_eq!(changelog.len(), 1);
    assert_eq!(changelog[0].kind, MvChangelogBatchKind::Delta);
    assert_eq!(values(&changelog[0].batch), vec![1, 101]);
    assert_eq!(changelog[0].diffs, vec![-1, 1]);
}

#[test]
fn a_version_without_changes_gives_an_empty_batch() {
    let changelog = arrow_delta_batches_to_changelog(Vec::new(), &schema(), WEIGHT, 2, None)
        .expect("changelog");
    assert_eq!(changelog.len(), 1);
    assert_eq!(changelog[0].batch.rows, 0);
    assert!(changelog[0].diffs.is_empty());
}

#[test]
fn stored_rows_stand_in_where_none_were_published() {
    let snapshot = materialize_snapshot_batches(
        None,
        Some(vec![value_batch(&[10, 20])]),
        &schema(),
        1,
        None,
    )
    .expect("changelog")
    .expect("rows are at hand");
    assert_eq!(values(&snapshot[0].batch), vec![10, 20]);
    let delta = materialize_delta_batches(
        Some(vec![delta_batch(&[(10, -1)])]),
        Some(vec![delta_batch(&[(30, 1)])]),
        &schema(),
        WEIGHT,
        1,
        None,
    )
    .expect("changelog")
    .expect("rows are at hand");
    assert_eq!(values(&delta[0].batch), vec![10]);
    assert!(materialize_delta_batches(None, None, &schema(), WEIGHT, 1, None)
        .expect("nothing is wrong")
        .is_none());
}

#[test]
fn changes_without_proper_weights_are_refused() {
    let refuse = |batch: ColumnBatch| {
        arrow_delta_batches_to_changelog(vec![batch], &schema(), WEIGHT, 1, None)
            .expect_err("refused")
    };
    assert_eq!(refuse(value_batch(&[1])), MvChangelogError::WeightMissing);
    let text = |cells: Vec<Cell>, data_type: DataType, nullable: bool| {
        let weight = Field {
            name: WEIGHT.to_string(),
            data_type: data_type.clone(),
            nullable,
        };
        ColumnBatch::try_new(
            vec![field("value"), weight],
            vec![column(&[1]), Column { data_type, cells }],
        )
        .expect("batch")
    };
    assert_eq!(
        refuse(text(
            vec![Cell::Utf8("1".to_string())],
            DataType::Utf8,
            false
        )),
        MvChangelogError::WeightNotInt64
    );
    assert_eq!(
        refuse(text(vec![Cell::Null], DataType::Int64, true)),
        MvChangelogError::WeightNull
    );
    let wide = ColumnBatch::try_new(
        vec![field("value"), field("other"), field(WEIGHT)],
        vec![column(&[1]), column(&[2]), column(&[1])],
    )
    .expect("batch");
    assert!(matches!(refuse(wide), MvChangelogError::Batch(_)));
}

fn publish(registry: &mut Registry, version: i64, rows: &[i64], deltas: &[(i64, i64)]) {
    let at = registry.get("mv_subscribe_delta_validate").expect("view");
    registry.view_mut(at).publish_arrow_version(
        version,
        vec![Batch { rows: rows.len(), data: value_batch(rows) }],
        vec![Batch { rows: deltas.len(), data: delta_batch(deltas) }],
    );
}

fn copied(batches: &Vec<Batch<ColumnBatch>>) -> Vec<ColumnBatch> {
    batches
        .iter()
        .map(|batch| ColumnBatch {
            schema: batch.data.schema.clone(),
            columns: batch.data.columns.clone(),
            rows: batch.data.rows,
        })
        .collect()
}

fn summed(state: &mut HashMap<i64, i64>, batches: &[MvChangelogBatch]) {
    for batch in batches {
        for (value, diff) in values(&batch.batch).iter().zip(&batch.diffs) {
            let entry = state.entry(*value).or_insert(0);
            *entry += diff;
            if *entry == 0 {
                state.remove(value);
            }
        }
    }
}

#[test]
fn deltas_match_materialized_state() {
    let mut registry = Registry::new();
    registry.set_schema("mv_subscribe_delta_validate".to_string(), schema());
    let at = registry.register("mv_subscribe_delta_validate".to_string());

    publish(&mut registry, 1, &[1, 2], &[(1, 1), (2, 1)]);

    let params = MvChangelogParams {
        mv_name: "mv_subscribe_delta_validate".to_string(),
        with_snapshot: true,
        as_of: Some(1),
    };
    let (first, mut cursor) =
        start_changelog(registry.view(at), &params, config(32)).expect("start");
    assert_eq!(first, Some(1));

    publish(&mut registry, 2, &[2, 3], &[(1, -1), (3, 1)]);
    publish(&mut registry, 3, &[3, 4], &[(2, -1), (4, 1)]);

    let mut state: HashMap<i64, i64> = HashMap::new();
    let published = registry.view(at).arrow_snapshot_for(1).map(copied);
    let sent = materialize_snapshot_batches(published, None, &schema(), 1, None)
        .expect("snapshot")
        .expect("published");
    summed(&mut state, &sent);
    let mut versions = Vec::new();
    loop {
        match cursor.advance(registry.view(at)) {
            ChangelogStep::EmitDelta(version) => {
                let published = registry.view(at).arrow_delta_for(version).map(copied);
                let sent =
                    materialize_delta_batches(published, None, &schema(), WEIGHT, version, None)
                        .expect("delta")
                        .expect("published");
                assert_eq!(sent.len(), 1);
                summed(&mut state, &sent);
                versions.push(version);
            }
            ChangelogStep::Wait => break,
            _ => {}
        }
    }
    assert_eq!(versions, vec![2, 3]);

    let mut expected: HashMap<i64, i64> = HashMap::new();
    for value in [3_i64, 4_i64] {
        expected.insert(value, 1);
    }
    assert_eq!(state, expected);
}

#[test]
fn versions_that_come_while_a_changelog_runs_are_sent_in_order() {
    let mut registry = registry_with(&[1]);
    let at = registry.get("mv").expect("view");
    let (_, mut cursor) =
        start_changelog(registry.view(at), &params(false, None), config(1)).expect("start");
    let mut sent = Vec::new();
    for version in [2, 5, 6, 9] {
        registry.view_mut(at).publish_logical_version(version);
        if let ChangelogStep::EmitDelta(version) = cursor.advance(registry.view(at)) {
            sent.push(version);
        }
    }
    loop {
        match cursor.advance(registry.view(at)) {
            ChangelogStep::EmitDelta(version) => sent.push(version),
            ChangelogStep::Wait => break,
            _ => {}
        }
    }
    assert_eq!(sent, vec![2, 5, 6, 9]);
}

#[test]
fn the_smallest_version_is_found_as_the_latest_only() {
    let registry = registry_with(&[i64::MIN]);
    let at = registry.get("mv").expect("view");
    let started = start_changelog(registry.view(at), &params(true, Some(i64::MIN)), config(1));
    assert_eq!(started.expect("start").0, Some(i64::MIN));
    let registry = registry_with(&[i64::MIN, 1]);
    let started = start_changelog(registry.view(at), &params(true, Some(i64::MIN)), config(1));
    assert_eq!(
        started.err(),
        Some(MvChangelogError::VersionNotFound(i64::MIN))
    );
}
