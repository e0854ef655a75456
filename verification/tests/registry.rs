use floe_executor::mv::registry::{
    columnar_snapshot_plan, version_time_of, watermark_to_micros, Batch, DbspPersistedState,
    MaterializedViewRegistry, SnapshotError, SnapshotPlan, ZSetHandle,
};
use floe_executor::mv_loader::{load_or_register_mv, LoadStep, MissingSchema, StoredSchema};

type Registry = MaterializedViewRegistry<u32, u32, DbspPersistedState<u32, u32>, u32, String>;

fn handle(ns: &str, version: u64) -> ZSetHandle {
    ZSetHandle { ns: ns.to_string(), version }
}

fn batch(rows: usize, data: u32) -> Batch<u32> {
    Batch { rows, data }
}

#[test]
fn tests_registers_and_updates_view_state() {
    let mut registry = Registry::new();
    let at = registry.register("mv_test".to_string());
    let view = registry.view_mut(at);
    view.update_watermark(42);
    assert_eq!(view.watermark(), Some(42));
}

#[test]
fn tests_registry_returns_same_handle() {
    let mut registry = Registry::new();
    let view_a = registry.register("mv".to_string());
    let view_b = registry.get("mv").expect("view registered");
    assert_eq!(view_a, view_b);
}

#[test]
fn retention_prunes_old_versions() {
    let mut registry = Registry::new_with_retention(Some(2));
    let at = registry.register("mv_retained".to_string());
    let view = registry.view_mut(at);

    view.publish_version(
        1,
        ZSetHandle {
            ns: "mv_retained".to_string(),
            version: 1,
        },
    );
    view.publish_version(
        2,
        ZSetHandle {
            ns: "mv_retained".to_string(),
            version: 2,
        },
    );
    view.publish_version(
        3,
        ZSetHandle {
            ns: "mv_retained".to_string(),
            version: 3,
        },
    );

    assert!(view.handle_for_version(1).is_none());
    assert!(view.handle_for_version(2).is_some());
    assert!(view.handle_for_version(3).is_some());
    assert!(!view.is_version_published(1));
    assert!(view.is_version_published(2));
    assert!(view.is_version_published(3));
    assert_eq!(view.next_version_after(0), Some(2));
    assert_eq!(view.version_time(1), None);
}

#[test]
fn resolves_latest_handle_at_or_before_published_version() {
    let mut registry = Registry::new();
    let at = registry.register("mv_version_lookup".to_string());
    let view = registry.view_mut(at);

    view.publish_version(
        1,
        ZSetHandle {
            ns: "mv_version_lookup".to_string(),
            version: 10,
        },
    );
    view.publish_logical_version(2);
    view.publish_logical_version(3);

    assert!(view.is_version_published(2));
    assert_eq!(
        view.handle_at_or_before_version(3),
        Some(ZSetHandle {
            ns: "mv_version_lookup".to_string(),
            version: 10,
        })
    );
}

#[test]
fn seeds_authoritative_row_count_only_for_latest_version() {
    let mut registry = Registry::new();
    let at = registry.register("mv_seed_count".to_string());
    let view = registry.view_mut(at);
    view.publish_logical_version(7);

    assert!(view.seed_authoritative_row_count_if_latest(7, 3));
    assert_eq!(view.authoritative_row_count(), Some(3));
    assert_eq!(view.authoritative_row_count_for(7), Some(3));

    let at = registry.register("mv_seed_count_stale".to_string());
    let stale_view = registry.view_mut(at);
    stale_view.publish_logical_version(7);
    assert!(!stale_view.seed_authoritative_row_count_if_latest(6, 2));
    assert_eq!(stale_view.authoritative_row_count(), None);
}

#[test]
fn a_published_version_is_read_back() {
    let mut registry = Registry::new();
    let at = registry.register("mv".to_string());
    let view = registry.view_mut(at);
    view.publish_arrow_version(4, vec![batch(2, 20), batch(3, 30)], vec![batch(1, 10)]);
    assert_eq!(view.latest_version(), Some(4));
    assert_eq!(view.arrow_row_count_for(4), Some(5));
    assert_eq!(view.arrow_snapshot_for(4).map(|found| found.len()), Some(2));
    assert_eq!(view.arrow_delta_for(4).map(|found| found[0].data), Some(10));
    assert_eq!(view.authoritative_row_count(), None);
    assert_eq!(view.authoritative_row_count_for(4), Some(5));
    assert!(view.arrow_snapshot_for(3).is_none());
    assert!(view.version_time(4).is_some());
}

#[test]
fn the_time_of_a_version_is_the_time_of_its_publication() {
    let mut registry = Registry::new();
    let at = registry.register("mv".to_string());
    let view = registry.view_mut(at);
    view.publish_version_at(1, handle("mv", 1), 1000);
    view.publish_logical_version_at(2, 2000);
    assert_eq!(view.version_time(1), Some(1000));
    assert_eq!(view.version_time(2), Some(2000));
    view.publish_logical_version(3);
    let now = view.version_time(3).expect("published");
    assert!(now > 1_500_000_000_000_000);
}

#[test]
fn columns_are_published_with_their_storage() {
    let mut registry = Registry::new();
    let at = registry.register("mv".to_string());
    let view = registry.view_mut(at);
    view.publish_columnar_version(2, handle("mv", 9), 77, 4, vec![batch(4, 1)]);
    assert_eq!(view.columnar_storage(), Some(&77));
    assert_eq!(view.handle_for_version(2), Some(handle("mv", 9)));
    assert_eq!(view.authoritative_row_count(), Some(4));
    view.set_dbsp_state(DbspPersistedState::new(1, 2, "ns".to_string(), 3));
    let state = view.dbsp_state().expect("stored");
    assert_eq!(state.namespace(), "ns");
    assert_eq!((*state.dictionary(), *state.table()), (1, 2));
    assert_eq!((state.version(), state.logical_version()), (3, 3));
}

#[test]
fn work_of_old_versions_is_forgotten() {
    let mut registry = Registry::new_with_retention(Some(1));
    let at = registry.register("mv".to_string());
    let view = registry.view_mut(at);
    view.record_logical_work(1, 100);
    view.record_logical_work(2, 200);
    assert_eq!(view.logical_work_for(1), None);
    assert_eq!(view.logical_work_for(2), Some(&200));
    assert_eq!(view.latest_logical_work(), Some(&(2, 200)));
}

#[test]
fn a_snapshot_is_read_where_its_columns_are_stored() {
    assert_eq!(
        columnar_snapshot_plan::<u32, u32>(-1, None, true),
        Err(SnapshotError::VersionOutOfRange(-1))
    );
    assert!(matches!(
        columnar_snapshot_plan::<u32, u32>(3, None, true),
        Ok(SnapshotPlan::Nothing)
    ));
    assert!(matches!(
        columnar_snapshot_plan(3, Some((1, 2)), false),
        Err(SnapshotError::SchemaMismatch)
    ));
    assert!(matches!(
        columnar_snapshot_plan(3, Some((1, 2)), true),
        Ok(SnapshotPlan::Read(1, 2))
    ));
}

#[test]
fn watermarks_saturate_as_microseconds() {
    assert_eq!(watermark_to_micros(5), 5000);
    assert_eq!(watermark_to_micros(u64::MAX), i64::MAX);
}

#[test]
fn every_view_gets_the_watermark() {
    let mut registry = Registry::new();
    registry.register("a".to_string());
    registry.register("b".to_string());
    registry.update_watermark_all(3);
    for view in registry.handles() {
        assert_eq!(view.watermark(), Some(3));
    }
    assert_eq!(registry.len(), 2);
}

#[test]
fn a_view_without_a_schema_is_not_loaded() {
    let mut registry = Registry::new();
    assert_eq!(
        load_or_register_mv(&mut registry, "mv", true, StoredSchema::NotLookedUp),
        Ok(LoadStep::Known)
    );
    assert_eq!(
        load_or_register_mv(&mut registry, "mv", false, StoredSchema::NotLookedUp),
        Ok(LoadStep::LookUpSchema)
    );
    assert_eq!(
        load_or_register_mv(&mut registry, "mv", false, StoredSchema::NotStored),
        Err(MissingSchema)
    );
    assert!(registry.get("mv").is_none());
}

#[test]
fn a_stored_schema_is_taken_over() {
    let mut registry = Registry::new();
    let stored = StoredSchema::Stored("value: int64".to_string());
    assert_eq!(
        load_or_register_mv(&mut registry, "mv", false, stored),
        Ok(LoadStep::Provide)
    );
    assert_eq!(registry.schema("mv"), Some(&"value: int64".to_string()));
    let at = registry.get("mv").expect("view registered");
    assert!(registry.view(at).dbsp_state().is_none());
    assert_eq!(registry.view(at).latest_version(), None);

    registry.set_schema("other".to_string(), "key: utf8".to_string());
    assert_eq!(
        load_or_register_mv(&mut registry, "other", false, StoredSchema::NotStored),
        Ok(LoadStep::Provide)
    );
    assert!(registry.get("other").is_some());
}

#[test]
fn a_clock_out_of_range_gives_time_zero() {
    assert_eq!(version_time_of(None), 0);
    assert_eq!(version_time_of(Some(1_700_000_000_000_000)), 1_700_000_000_000_000);
    assert_eq!(version_time_of(Some(i64::MAX as u128)), i64::MAX);
    assert_eq!(version_time_of(Some(i64::MAX as u128 + 1)), 0);
}

#[test]
fn a_version_without_a_watermark_has_a_time_of_the_clock() {
    let mut registry: MaterializedViewRegistry<u8, u8, u8, u8, u8> =
        MaterializedViewRegistry::new();
    let at = registry.register("mv".to_string());
    registry.view_mut(at).publish_logical_version(1);
    assert!(registry.view(at).version_time(1).expect("time") >= 0);
}
