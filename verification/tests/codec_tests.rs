use kafka_web::codec::{decode_entry_key, decode_value, encode_entry_key, encode_value};
use kafka_web::error::DecodeError;
use kafka_web::metadata::{ClusterMetadata, TopicMetadata, Value};

#[test]
fn entry_key_round_trip() {
    let store = b"metadata".to_vec();
    let key = b"cluster-a".to_vec();
    let encoded = encode_entry_key(&store, &key);
    let (store_back, key_back) = decode_entry_key(&encoded).unwrap();
    assert_eq!(store_back, store);
    assert_eq!(key_back, key);
}

#[test]
fn entry_key_exact_bytes() {
    let encoded = encode_entry_key(&b"ab".to_vec(), &b"c".to_vec());
    assert_eq!(encoded, vec![2, 0, 0, 0, 97, 98, 1, 0, 0, 0, 99]);
}

#[test]
fn entry_key_empty_parts() {
    let encoded = encode_entry_key(&Vec::new(), &Vec::new());
    assert_eq!(encoded, vec![0, 0, 0, 0, 0, 0, 0, 0]);
    let (store_back, key_back) = decode_entry_key(&encoded).unwrap();
    assert!(store_back.is_empty());
    assert!(key_back.is_empty());
}

#[test]
fn entry_key_truncated() {
    assert_eq!(decode_entry_key(&vec![1, 2]), Err(DecodeError::Truncated));
    // header declares more content than the buffer holds
    assert_eq!(decode_entry_key(&vec![5, 0, 0, 0, 1]), Err(DecodeError::Truncated));
}

#[test]
fn entry_key_trailing_bytes() {
    let mut encoded = encode_entry_key(&b"s".to_vec(), &b"k".to_vec());
    encoded.push(0);
    assert_eq!(decode_entry_key(&encoded), Err(DecodeError::TrailingBytes));
}

#[test]
fn blob_value_round_trip() {
    let value = Value::Blob(vec![1, 2, 3, 255]);
    let encoded = encode_value(&value);
    assert_eq!(encoded[0], 0);
    assert_eq!(decode_value(&encoded).unwrap(), value);
}

#[test]
fn empty_blob_round_trip() {
    let value = Value::Blob(Vec::new());
    let encoded = encode_value(&value);
    assert_eq!(encoded, vec![0]);
    assert_eq!(decode_value(&encoded).unwrap(), value);
}

#[test]
fn metadata_value_round_trip() {
    let value = Value::Metadata(ClusterMetadata {
        brokers: vec![b"b1:9092".to_vec(), b"b2:9092".to_vec()],
        topics: vec![
            TopicMetadata { name: b"events".to_vec(), partition_count: 12 },
            TopicMetadata { name: b"replicator_topic".to_vec(), partition_count: 1 },
        ],
    });
    let encoded = encode_value(&value);
    assert_eq!(encoded[0], 1);
    assert_eq!(decode_value(&encoded).unwrap(), value);
}

#[test]
fn metadata_value_empty_lists_round_trip() {
    let value = Value::Metadata(ClusterMetadata { brokers: Vec::new(), topics: Vec::new() });
    let encoded = encode_value(&value);
    assert_eq!(encoded, vec![1, 0, 0, 0, 0, 0, 0, 0, 0]);
    assert_eq!(decode_value(&encoded).unwrap(), value);
}

#[test]
fn value_empty_buffer_is_truncated() {
    assert_eq!(decode_value(&Vec::new()), Err(DecodeError::Truncated));
}

#[test]
fn value_unknown_tag() {
    assert_eq!(decode_value(&vec![9, 1, 2]), Err(DecodeError::UnknownTag));
}

#[test]
fn value_truncated_metadata() {
    // metadata tag, then a broker count with no brokers behind it
    assert_eq!(decode_value(&vec![1, 3, 0, 0, 0]), Err(DecodeError::Truncated));
}

#[test]
fn value_trailing_bytes_after_metadata() {
    let value = Value::Metadata(ClusterMetadata { brokers: Vec::new(), topics: Vec::new() });
    let mut encoded = encode_value(&value);
    encoded.push(7);
    assert_eq!(decode_value(&encoded), Err(DecodeError::TrailingBytes));
}
