use kafka_web::cache::{Cache, CacheHandle, LogMessage, ReplicaWriter, WireRecord};
use kafka_web::error::RegistrationError;
use kafka_web::metadata::{ClusterMetadata, TopicMetadata, Value};
use kafka_web::scheduler::MetadataFetcher;

fn new_cache() -> CacheHandle {
    let writer = ReplicaWriter::new(b"replicator_topic".to_vec(), true).unwrap();
    CacheHandle::new(Cache::new(writer))
}

fn log_message(record: WireRecord, position: u64) -> LogMessage {
    LogMessage { key_bytes: record.key_bytes, payload: record.payload, position }
}

fn snapshot(broker: &[u8]) -> ClusterMetadata {
    ClusterMetadata {
        brokers: vec![broker.to_vec()],
        topics: vec![TopicMetadata { name: b"events".to_vec(), partition_count: 4 }],
    }
}

#[test]
fn add_cluster_schedules_immediately() {
    let mut fetcher = MetadataFetcher::new(10);
    fetcher.add_cluster(b"c1".to_vec(), b"b1:9092".to_vec(), true, 0).unwrap();
    assert_eq!(fetcher.len(), 1);
    assert_eq!(fetcher.due_task(0), Some(0));
}

#[test]
fn add_cluster_rejects_duplicates() {
    let mut fetcher = MetadataFetcher::new(10);
    fetcher.add_cluster(b"c1".to_vec(), b"b1:9092".to_vec(), true, 0).unwrap();
    let r = fetcher.add_cluster(b"c1".to_vec(), b"other:9092".to_vec(), true, 0);
    assert_eq!(r, Err(RegistrationError::DuplicateName));
    assert_eq!(fetcher.len(), 1);
}

#[test]
fn unreachable_cluster_is_rejected_and_others_keep_running() {
    // register c1 with an unreachable connection string: a registration error;
    // the separately registered, reachable c2 keeps its ten-tick schedule
    let cache = new_cache();
    let mut fetcher = MetadataFetcher::new(10);

    let r = fetcher.add_cluster(b"c1".to_vec(), b"nowhere:9092".to_vec(), false, 0);
    assert_eq!(r, Err(RegistrationError::ClusterUnreachable));
    assert_eq!(fetcher.len(), 0);

    fetcher.add_cluster(b"c2".to_vec(), b"b2:9092".to_vec(), true, 0).unwrap();

    // first cycle at tick 0
    let i = fetcher.due_task(0).unwrap();
    let (name, connection) = fetcher.begin_fetch(i, 0);
    assert_eq!(name, b"c2".to_vec());
    assert_eq!(connection, b"b2:9092".to_vec());
    assert_eq!(fetcher.due_task(0), None);
    let record = fetcher.complete_fetch(i, Some(snapshot(b"b2:9092")), &cache).unwrap().unwrap();
    cache.update_from_store(&log_message(record, 0)).unwrap();
    assert_eq!(
        cache.read_value(&b"metadata".to_vec(), &b"c2".to_vec()),
        Some(Value::Metadata(snapshot(b"b2:9092")))
    );

    // not due again until one interval has passed
    assert_eq!(fetcher.due_task(9), None);
    assert_eq!(fetcher.due_task(10), Some(0));
}

#[test]
fn fetch_failure_keeps_previous_snapshot_and_next_attempt() {
    let cache = new_cache();
    let mut fetcher = MetadataFetcher::new(10);
    fetcher.add_cluster(b"a".to_vec(), b"a:9092".to_vec(), true, 0).unwrap();
    fetcher.add_cluster(b"b".to_vec(), b"b:9092".to_vec(), true, 0).unwrap();

    // both clusters succeed once
    let mut position = 0;
    while let Some(i) = fetcher.due_task(0) {
        let (name, _) = fetcher.begin_fetch(i, 0);
        let md = snapshot(&[&name[..], b":9092"].concat());
        let record = fetcher.complete_fetch(i, Some(md), &cache).unwrap().unwrap();
        cache.update_from_store(&log_message(record, position)).unwrap();
        position += 1;
    }
    let b_before = cache.read_value(&b"metadata".to_vec(), &b"b".to_vec());
    assert!(b_before.is_some());

    // on the next cycle, cluster a fails: nothing is written
    let i = fetcher.due_task(10).unwrap();
    let (name, _) = fetcher.begin_fetch(i, 10);
    assert_eq!(name, b"a".to_vec());
    let r = fetcher.complete_fetch(i, None, &cache).unwrap();
    assert!(r.is_none());

    // cluster a's own last-known-good metadata survives its failure
    assert!(cache.read_value(&b"metadata".to_vec(), &b"a".to_vec()).is_some());
    // cluster b's last-known-good metadata is untouched
    assert_eq!(cache.read_value(&b"metadata".to_vec(), &b"b".to_vec()), b_before);
    // and cluster a's next attempt is still scheduled, one interval on
    assert_eq!(fetcher.due_task(20), Some(i));
}

#[test]
fn cluster_added_after_failure_contributes_on_its_own_schedule() {
    let cache = new_cache();
    let mut fetcher = MetadataFetcher::new(10);
    fetcher.add_cluster(b"old".to_vec(), b"old:9092".to_vec(), true, 0).unwrap();

    // the old cluster's fetch fails
    let i = fetcher.due_task(0).unwrap();
    fetcher.begin_fetch(i, 0);
    assert!(fetcher.complete_fetch(i, None, &cache).unwrap().is_none());

    // a cluster registered afterwards is unaffected and fetches at once
    fetcher.add_cluster(b"new".to_vec(), b"new:9092".to_vec(), true, 3).unwrap();
    let j = fetcher.due_task(3).unwrap();
    let (name, _) = fetcher.begin_fetch(j, 3);
    assert_eq!(name, b"new".to_vec());
    let record = fetcher.complete_fetch(j, Some(snapshot(b"new:9092")), &cache).unwrap().unwrap();
    cache.update_from_store(&log_message(record, 0)).unwrap();
    assert_eq!(
        cache.read_value(&b"metadata".to_vec(), &b"new".to_vec()),
        Some(Value::Metadata(snapshot(b"new:9092")))
    );
    // the failed cluster still gets its next attempt
    assert_eq!(fetcher.due_task(10), Some(i));
}

#[test]
fn interval_is_kept() {
    let fetcher = MetadataFetcher::new(10);
    assert_eq!(fetcher.interval(), 10);
}
