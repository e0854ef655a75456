use floe_executor::mv::registry::ZSetHandle;
use floe_executor::namespaces::{NamespaceError, NamespacePart};
use floe_executor::outer_stream::{
    NotEncoded, OuterStreamCheckpoint, OuterStreamRegistry, OuterStreamWriter, StreamPosition,
};
use floe_executor::zset::{collect, compute_delta, PublishedSnapshot, ZSet};

fn writer() -> OuterStreamWriter {
    OuterStreamWriter::new("bid".to_string(), "sources/bid".to_string())
}

#[test]
fn changes_are_published_once_in_their_order() {
    let mut writer = writer();
    writer.append_encoded(vec![1], 1);
    writer.append_encoded(vec![2], 0);
    writer.append_encoded(vec![3], -2);
    let published = writer.publish_pending_batch(None, false);
    let batch = published.batch.expect("changes are pending");
    assert_eq!(batch.source, "bid");
    assert_eq!(batch.version, 1);
    assert_eq!(batch.deltas, vec![(vec![1], 1), (vec![3], -2)]);
    assert_eq!(published.version, None);
    assert!(writer.publish_pending_batch(None, false).batch.is_none());
    assert_eq!(writer.take_unstored(), vec![(vec![1], 1), (vec![3], -2)]);
    assert!(writer.take_unstored().is_empty());
    assert_eq!(writer.handle_at(7).version, 7);
}

#[test]
fn a_versioned_tick_reaches_subscribers_without_changes() {
    let mut writer = writer();
    let published = writer.publish_pending_batch(Some(7), true);
    let batch = published.batch.expect("somebody listens");
    assert_eq!(batch.version, 7);
    assert!(batch.deltas.is_empty());
}

#[test]
fn changes_that_are_not_stored_have_their_version_at_once() {
    let mut writer = writer();
    writer.set_durable_enabled(false);
    assert!(!writer.durable_enabled());
    writer.append_encoded(vec![1], 1);
    let published = writer.publish_pending_batch(Some(4), false);
    assert_eq!(published.version, Some(4));
    assert!(writer.take_unstored().is_empty());
}

#[test]
fn a_replayed_batch_keeps_its_version() {
    let mut writer = writer();
    let batch = writer.replay_transient_batch(12, vec![(vec![5], 1)]);
    assert_eq!(batch.version, 12);
    writer.append_encoded(vec![6], 1);
    let next = writer.publish_pending_batch(None, false).batch.expect("pending");
    assert_eq!(next.version, 13);
}

#[test]
fn sources_share_no_writer() {
    let registry = OuterStreamRegistry::from_sources(vec![
        "bid".to_string(),
        "person".to_string(),
        "bid".to_string(),
    ])
    .expect("registry");
    assert_eq!(registry.len(), 2);
    assert!(!registry.is_empty());
    let at = registry.find("person").expect("writer");
    assert_eq!(registry.writer(at).source(), "person");
    assert!(registry.find("auction").is_none());
    assert_eq!(
        OuterStreamRegistry::from_sources(vec!["a/b".to_string()]).err(),
        Some(NamespaceError::ContainsSeparator(NamespacePart::SourceName))
    );
    assert_eq!(
        OuterStreamRegistry::from_sources(vec![" ".to_string()]).err(),
        Some(NamespaceError::Empty(NamespacePart::SourceName))
    );
}

#[test]
fn a_delta_leads_from_one_set_to_the_next() {
    let previous = collect(vec![(vec![1], 1), (vec![2], 2), (vec![1], 1)]).expect("fits");
    let next = collect(vec![(vec![2], 2), (vec![3], 5)]).expect("fits");
    let mut delta = compute_delta(&previous, &next).expect("fits");
    delta.sort();
    assert_eq!(delta, vec![(vec![1], -2), (vec![3], 5)]);
    let mut set = previous;
    for (key, weight) in delta {
        assert!(set.add(key, weight));
    }
    assert_eq!(set.get(&vec![1]).unwrap_or(0), 0);
    assert_eq!(set.get(&vec![3]), Some(5));
}

#[test]
fn a_snapshot_hands_on_what_changed_since_the_last() {
    let mut published = PublishedSnapshot::new();
    let first = collect(vec![(vec![1], 1)]).expect("fits");
    assert_eq!(published.advance(first), Some(vec![(vec![1], 1)]));
    let same = collect(vec![(vec![1], 1)]).expect("fits");
    assert_eq!(published.advance(same), Some(vec![]));
    assert_eq!(published.advance(ZSet::new()), Some(vec![(vec![1], -1)]));
}

#[test]
fn weights_that_do_not_fit_are_refused() {
    assert!(collect(vec![(vec![1], i64::MAX), (vec![1], 1)]).is_none());
    let low = collect(vec![(vec![1], i64::MIN)]).expect("fits");
    let high = collect(vec![(vec![1], 1)]).expect("fits");
    assert!(compute_delta(&low, &high).is_none());
}

#[test]
fn images_of_rows_are_summed_before_they_are_handed_on() {
    let mut published = PublishedSnapshot::new();
    let images = vec![(vec![1], 2), (vec![2], 1), (vec![1], 3), (vec![2], -1)];
    assert_eq!(published.publish(images), Some(vec![(vec![1], 5)]));
    assert_eq!(
        published.publish(vec![(vec![1], i64::MAX), (vec![1], 1)]),
        None
    );
    assert_eq!(published.publish(vec![(vec![1], 4)]), Some(vec![(vec![1], -1)]));
}

#[test]
fn a_checkpoint_keeps_where_each_stream_stands() {
    let sources = vec!["bid".to_string(), "person".to_string()];
    let registry = OuterStreamRegistry::from_sources(sources).expect("sources");
    let position = |ns: &str, version: u64, frontier: i64| StreamPosition {
        handle: ZSetHandle { ns: ns.to_string(), version },
        frontier,
    };
    let states = registry.checkpoint_state(&vec![position("a", 3, 9), position("b", 4, 8)]);
    assert_eq!(
        states,
        vec![
            OuterStreamCheckpoint {
                source: "bid".to_string(),
                namespace: "a".to_string(),
                version: 3,
                frontier: 9,
            },
            OuterStreamCheckpoint {
                source: "person".to_string(),
                namespace: "b".to_string(),
                version: 4,
                frontier: 8,
            },
        ]
    );
}

#[test]
fn a_row_without_an_encoding_is_refused() {
    let mut writer = OuterStreamWriter::new("bid".to_string(), "ns".to_string());
    assert_eq!(writer.append(None, 0), Ok(()));
    assert_eq!(writer.append(None, 1), Err(NotEncoded));
    assert_eq!(writer.append(Some(vec![1]), 2), Ok(()));
    assert_eq!(writer.take_unstored(), vec![(vec![1], 2)]);

    let mut registry =
        OuterStreamRegistry::from_sources(vec!["bid".to_string()]).expect("registry");
    assert_eq!(registry.append("nosuch", None, 1), Ok(()));
    assert_eq!(registry.append("bid", None, 1), Err(NotEncoded));
    assert_eq!(registry.append("bid", Some(vec![5]), 3), Ok(()));
    assert_eq!(
        registry.writer_mut(0).take_unstored(),
        vec![(vec![5], 3)]
    );
}
