use kafka_web::cache::{Cache, CacheHandle, LogMessage, ReplicaReader, ReplicaWriter, ReplicatedMap, WireRecord};
use kafka_web::error::{ConnectionError, DecodeError, ProduceError};
use kafka_web::metadata::{ClusterMetadata, Value};

fn new_cache() -> Cache {
    let writer = ReplicaWriter::new(b"replicator_topic".to_vec(), true).unwrap();
    Cache::new(writer)
}

fn log_message(record: WireRecord, position: u64) -> LogMessage {
    LogMessage { key_bytes: record.key_bytes, payload: record.payload, position }
}

fn metadata_value(brokers: &[&[u8]]) -> Value {
    Value::Metadata(ClusterMetadata {
        brokers: brokers.iter().map(|b| b.to_vec()).collect(),
        topics: Vec::new(),
    })
}

#[test]
fn writer_new_fails_fast_when_unreachable() {
    let r = ReplicaWriter::new(b"replicator_topic".to_vec(), false);
    assert_eq!(r.err(), Some(ConnectionError::BrokerUnreachable));
}

#[test]
fn map_apply_then_get() {
    let mut map = ReplicatedMap::new();
    assert!(map.get(&b"metadata".to_vec(), &b"k".to_vec()).is_none());
    map.apply(b"metadata".to_vec(), b"k".to_vec(), Value::Blob(vec![1]), 0);
    assert_eq!(map.get(&b"metadata".to_vec(), &b"k".to_vec()), Some(&Value::Blob(vec![1])));
    // stores partition the keyspace
    assert!(map.get(&b"groups".to_vec(), &b"k".to_vec()).is_none());
}

#[test]
fn map_last_writer_wins_in_order() {
    let mut map = ReplicatedMap::new();
    map.apply(b"s".to_vec(), b"k".to_vec(), Value::Blob(vec![1]), 1);
    map.apply(b"s".to_vec(), b"k".to_vec(), Value::Blob(vec![2]), 2);
    assert_eq!(map.get(&b"s".to_vec(), &b"k".to_vec()), Some(&Value::Blob(vec![2])));
}

#[test]
fn map_last_writer_wins_out_of_order() {
    let mut map = ReplicatedMap::new();
    map.apply(b"s".to_vec(), b"k".to_vec(), Value::Blob(vec![2]), 2);
    map.apply(b"s".to_vec(), b"k".to_vec(), Value::Blob(vec![1]), 1);
    assert_eq!(map.get(&b"s".to_vec(), &b"k".to_vec()), Some(&Value::Blob(vec![2])));
}

#[test]
fn map_apply_is_idempotent() {
    let mut map = ReplicatedMap::new();
    map.apply(b"s".to_vec(), b"k".to_vec(), Value::Blob(vec![7]), 3);
    map.apply(b"s".to_vec(), b"k".to_vec(), Value::Blob(vec![7]), 3);
    assert_eq!(map.get(&b"s".to_vec(), &b"k".to_vec()), Some(&Value::Blob(vec![7])));
    let snap = map.snapshot(&b"s".to_vec());
    assert_eq!(snap.len(), 1);
}

#[test]
fn map_snapshot_lists_one_store() {
    let mut map = ReplicatedMap::new();
    map.apply(b"metadata".to_vec(), b"a".to_vec(), Value::Blob(vec![1]), 0);
    map.apply(b"metadata".to_vec(), b"b".to_vec(), Value::Blob(vec![2]), 1);
    map.apply(b"groups".to_vec(), b"c".to_vec(), Value::Blob(vec![3]), 2);
    let mut snap = map.snapshot(&b"metadata".to_vec());
    snap.sort_by(|x, y| x.0.cmp(&y.0));
    assert_eq!(snap.len(), 2);
    assert_eq!(snap[0], (b"a".to_vec(), Value::Blob(vec![1])));
    assert_eq!(snap[1], (b"b".to_vec(), Value::Blob(vec![2])));
}

#[test]
fn write_is_invisible_until_replay() {
    let mut cache = new_cache();
    let store = b"metadata".to_vec();
    let key = b"cluster-a".to_vec();
    let value = metadata_value(&[b"b1:9092"]);
    let record = cache.write(&store, &key, &value).unwrap();
    // not applied yet: the write must round-trip through the log first
    assert!(cache.read(&store, &key).is_none());
    cache.update_from_store(&log_message(record, 0)).unwrap();
    assert_eq!(cache.read(&store, &key), Some(&value));
}

#[test]
fn replayed_write_converges_on_same_and_fresh_instance() {
    let mut local = new_cache();
    let store = b"metadata".to_vec();
    let key = b"cluster-a".to_vec();
    let value = metadata_value(&[b"b1:9092"]);
    let record = local.write(&store, &key, &value).unwrap();
    let msg = log_message(record, 0);

    local.update_from_store(&msg).unwrap();
    assert_eq!(local.read(&store, &key), Some(&value));

    // a freshly started instance rebuilds from the same log
    let mut fresh = new_cache();
    fresh.update_from_store(&msg).unwrap();
    assert_eq!(fresh.read(&store, &key), Some(&value));
}

#[test]
fn replay_is_deterministic_across_instances() {
    let mut messages: Vec<LogMessage> = Vec::new();
    {
        let cache = new_cache();
        for (i, (key, payload)) in
            [(b"a".to_vec(), vec![1u8]), (b"b".to_vec(), vec![2]), (b"a".to_vec(), vec![3])]
                .into_iter()
                .enumerate()
        {
            let record = cache.write(&b"s".to_vec(), &key, &Value::Blob(payload)).unwrap();
            messages.push(log_message(record, i as u64));
        }
    }
    let mut first = new_cache();
    let mut second = new_cache();
    first.replay(&messages);
    second.replay(&messages);
    for key in [b"a".to_vec(), b"b".to_vec()] {
        assert_eq!(first.read(&b"s".to_vec(), &key), second.read(&b"s".to_vec(), &key));
    }
    assert_eq!(first.read(&b"s".to_vec(), &b"a".to_vec()), Some(&Value::Blob(vec![3])));
    assert_eq!(first.read(&b"s".to_vec(), &b"b".to_vec()), Some(&Value::Blob(vec![2])));
}

#[test]
fn malformed_entry_is_skipped_and_isolated() {
    let mut cache = new_cache();
    let store = b"s".to_vec();
    let good_before = cache.write(&store, &b"k1".to_vec(), &Value::Blob(vec![1])).unwrap();
    let good_after = cache.write(&store, &b"k2".to_vec(), &Value::Blob(vec![2])).unwrap();
    let good_same_key = cache.write(&store, &b"k1".to_vec(), &Value::Blob(vec![9])).unwrap();

    cache.update_from_store(&log_message(good_before, 0)).unwrap();
    // a corrupt payload: unknown tag
    let bad = LogMessage {
        key_bytes: kafka_web::codec::encode_entry_key(&store, &b"k1".to_vec()),
        payload: vec![42, 42],
        position: 1,
    };
    assert_eq!(cache.update_from_store(&bad), Err(DecodeError::UnknownTag));
    // the offending key keeps its last successfully applied value
    assert_eq!(cache.read(&store, &b"k1".to_vec()), Some(&Value::Blob(vec![1])));
    // subsequent valid entries, same or different key, still apply
    cache.update_from_store(&log_message(good_after, 2)).unwrap();
    cache.update_from_store(&log_message(good_same_key, 3)).unwrap();
    assert_eq!(cache.read(&store, &b"k2".to_vec()), Some(&Value::Blob(vec![2])));
    assert_eq!(cache.read(&store, &b"k1".to_vec()), Some(&Value::Blob(vec![9])));
}

#[test]
fn malformed_key_is_reported() {
    let mut cache = new_cache();
    let bad = LogMessage { key_bytes: vec![1, 2, 3], payload: vec![0], position: 0 };
    assert_eq!(cache.update_from_store(&bad), Err(DecodeError::Truncated));
}

#[test]
fn oversized_write_is_rejected() {
    let cache = new_cache();
    let huge = Value::Blob(vec![0u8; 1_000_001]);
    let r = cache.write(&b"s".to_vec(), &b"k".to_vec(), &huge);
    assert_eq!(r.err(), Some(ProduceError::MessageTooLarge));
}

#[test]
fn reader_new_fails_fast_when_unreachable() {
    let r = ReplicaReader::new(b"replicator_topic".to_vec(), false);
    assert_eq!(r.err(), Some(ConnectionError::BrokerUnreachable));
}

#[test]
fn reader_starts_at_earliest_position() {
    let reader = ReplicaReader::new(b"replicator_topic".to_vec(), true).unwrap();
    assert_eq!(reader.next_position, 0);
}

#[test]
fn reader_applies_in_order_and_ignores_redelivery() {
    let mut cache = new_cache();
    let mut reader = ReplicaReader::new(b"replicator_topic".to_vec(), true).unwrap();
    let store = b"s".to_vec();
    let first = cache.write(&store, &b"k".to_vec(), &Value::Blob(vec![1])).unwrap();
    let second = cache.write(&store, &b"k".to_vec(), &Value::Blob(vec![2])).unwrap();

    assert_eq!(reader.deliver(&mut cache, &log_message(first, 0)), Ok(true));
    assert_eq!(reader.deliver(&mut cache, &log_message(second, 1)), Ok(true));
    assert_eq!(cache.read(&store, &b"k".to_vec()), Some(&Value::Blob(vec![2])));

    // a redelivered earlier record is ignored, not re-applied
    let stale = cache.write(&store, &b"k".to_vec(), &Value::Blob(vec![9])).unwrap();
    assert_eq!(reader.deliver(&mut cache, &log_message(stale, 1)), Ok(false));
    assert_eq!(cache.read(&store, &b"k".to_vec()), Some(&Value::Blob(vec![2])));
    assert_eq!(reader.next_position, 2);
}

#[test]
fn handle_aliases_share_one_map() {
    let handle = CacheHandle::new(new_cache());
    let other = handle.alias();
    let store = b"metadata".to_vec();
    let key = b"cluster-a".to_vec();
    let value = metadata_value(&[b"b1:9092"]);
    let record = other.write(&store, &key, &value).unwrap();
    // the write is invisible on every alias until it returns through replay
    assert_eq!(handle.read_value(&store, &key), None);
    other.update_from_store(&log_message(record, 0)).unwrap();
    // applied through one alias, visible through the other
    assert_eq!(handle.read_value(&store, &key), Some(value));
}

#[test]
fn handle_reports_malformed_records() {
    let handle = CacheHandle::new(new_cache());
    let bad = LogMessage { key_bytes: vec![0], payload: vec![0], position: 0 };
    assert_eq!(handle.update_from_store(&bad), Err(DecodeError::Truncated));
}

#[test]
fn handle_delivery_keeps_order_across_aliases() {
    let handle = CacheHandle::new(new_cache());
    let mut reader = ReplicaReader::new(b"replicator_topic".to_vec(), true).unwrap();
    let store = b"s".to_vec();
    let first = handle.write(&store, &b"k".to_vec(), &Value::Blob(vec![1])).unwrap();
    assert_eq!(handle.deliver(&mut reader, &log_message(first, 0)), Ok(true));
    let stale = handle.write(&store, &b"k".to_vec(), &Value::Blob(vec![9])).unwrap();
    assert_eq!(handle.alias().deliver(&mut reader, &log_message(stale, 0)), Ok(false));
    assert_eq!(handle.read_value(&store, &b"k".to_vec()), Some(Value::Blob(vec![1])));
}
