//! Tests of the log record codec and the staging subscriber.

use sine_cache::aof::AOFSubscriber;
use sine_cache::aof::CacheError;
use sine_cache::aof::RawRecord;
use sine_cache::aof::decode_all;
use sine_cache::aof::decode_for_replay;
use sine_cache::aof::decode_record;
use sine_cache::aof::derive_log_path;
use sine_cache::aof::encode_batch;
use sine_cache::aof::encode_record;
use sine_cache::common::Operation;

fn put_record(key: &str, value: &str) -> RawRecord {
    RawRecord {
        operation: Operation::Put,
        key: key.as_bytes().to_vec(),
        value: Some(value.as_bytes().to_vec()),
    }
}

fn get_record(key: &str) -> RawRecord {
    RawRecord { operation: Operation::Get, key: key.as_bytes().to_vec(), value: None }
}

fn remove_record(key: &str) -> RawRecord {
    RawRecord { operation: Operation::Remove, key: key.as_bytes().to_vec(), value: None }
}

fn mixed_records(n: usize) -> Vec<RawRecord> {
    let mut records = Vec::new();
    for i in 0..n {
        let key = format!("key{}", i);
        let value = format!("value{}", i);
        let record = match i % 3 {
            0 => put_record(&key, &value),
            1 => get_record(&key),
            _ => remove_record(&key),
        };
        records.push(record);
    }
    records
}

fn assert_same_record(a: &RawRecord, b: &RawRecord) {
    assert_eq!(a.operation, b.operation);
    assert_eq!(a.key, b.key);
    assert_eq!(a.value, b.value);
}

#[test]
fn operation_codes_are_fixed() {
    assert_eq!(Operation::Get.to_int(), 0);
    assert_eq!(Operation::Put.to_int(), 1);
    assert_eq!(Operation::Remove.to_int(), 2);
    assert_eq!(Operation::from_int(0), Operation::Get);
    assert_eq!(Operation::from_int(1), Operation::Put);
    assert_eq!(Operation::from_int(2), Operation::Remove);
}

#[test]
fn put_record_bytes_are_exact() {
    let record = RawRecord {
        operation: Operation::Put,
        key: vec![0xAA, 0xBB],
        value: Some(vec![0xCC]),
    };
    let bytes = encode_record(&record);
    assert_eq!(
        bytes,
        vec![1u8, 2, 0, 0, 0, 0xAA, 0xBB, 1, 0, 0, 0, 0, 0, 0, 0, 0xCC]
    );
}

#[test]
fn get_record_bytes_are_exact() {
    let record = RawRecord { operation: Operation::Get, key: vec![9], value: None };
    let bytes = encode_record(&record);
    assert_eq!(bytes, vec![0u8, 1, 0, 0, 0, 9]);
}

#[test]
fn remove_record_bytes_are_exact() {
    let record = RawRecord { operation: Operation::Remove, key: vec![7, 8], value: None };
    let bytes = encode_record(&record);
    assert_eq!(bytes, vec![2u8, 2, 0, 0, 0, 7, 8]);
}

#[test]
fn empty_log_decodes_to_nothing() {
    let bytes: Vec<u8> = Vec::new();
    let records = decode_all(&bytes).unwrap();
    assert_eq!(records.len(), 0);
}

#[test]
fn batch_round_trip_of_two_hundred_records() {
    let records = mixed_records(200);
    let bytes = encode_batch(&records);
    let back = decode_all(&bytes).unwrap();
    assert_eq!(back.len(), records.len());
    for i in 0..records.len() {
        assert_same_record(&back[i], &records[i]);
    }
}

#[test]
fn batch_bytes_are_the_records_in_order() {
    let records = mixed_records(5);
    let batch = encode_batch(&records);
    let mut expected: Vec<u8> = Vec::new();
    for r in &records {
        expected.extend(encode_record(r));
    }
    assert_eq!(batch, expected);
}

#[test]
fn truncated_tail_is_tolerated_on_replay() {
    let records = mixed_records(10);
    let mut bytes = encode_batch(&records);
    bytes.truncate(bytes.len() - 3);

    let back = decode_for_replay(&bytes).unwrap();
    assert_eq!(back.len(), 9);
    for i in 0..9 {
        assert_same_record(&back[i], &records[i]);
    }
}

#[test]
fn truncated_tail_fails_strict_decoding() {
    let records = mixed_records(4);
    let mut bytes = encode_batch(&records);
    bytes.truncate(bytes.len() - 1);
    assert!(matches!(decode_all(&bytes), Err(CacheError::TruncatedTail)));
}

#[test]
fn unknown_operation_byte_is_malformed() {
    let bytes = vec![7u8, 1, 0, 0, 0, 9];
    assert!(matches!(decode_all(&bytes), Err(CacheError::MalformedRecord)));
    assert!(matches!(decode_record(&bytes, 0), Err(CacheError::MalformedRecord)));
}

#[test]
fn replay_reports_the_failing_offset() {
    let good = encode_record(&get_record("k"));
    let mut bytes = good.clone();
    bytes.push(9); // 9 names no operation
    let failed = decode_for_replay(&bytes);
    assert!(matches!(failed, Err(CacheError::ReplayFailed(at)) if at == good.len()));
}

#[test]
fn log_path_is_folder_name_dat() {
    let path = derive_log_path(&"./data".to_string(), &"mycache".to_string());
    assert_eq!(path, "./data/mycache.dat".to_string());
}

#[test]
fn mismatched_folder_and_name_are_invalid() {
    let r = AOFSubscriber::new(Some("./data".to_string()), None, None);
    assert!(matches!(r, Err(CacheError::ConfigInvalid)));
    let r = AOFSubscriber::new(None, Some("name".to_string()), Some(5));
    assert!(matches!(r, Err(CacheError::ConfigInvalid)));
}

#[test]
fn zero_flush_period_is_invalid() {
    let r = AOFSubscriber::new(Some("./data".to_string()), Some("name".to_string()), Some(0));
    assert!(matches!(r, Err(CacheError::ConfigInvalid)));
}

#[test]
fn unconfigured_log_drops_events_and_refuses_iteration() {
    let (mut sub, path) = AOFSubscriber::new(None, None, None).unwrap();
    assert!(path.is_none());
    assert!(sub.on_event(get_record("k")).is_none());
    assert_eq!(sub.begin_iteration(), Err(CacheError::LogNotConfigured));
    let flushed = sub.flush_to_disk();
    assert!(flushed.is_empty());
}

#[test]
fn durable_mode_hands_each_record_out_at_once() {
    let (mut sub, path) =
        AOFSubscriber::new(Some("./data".to_string()), Some("c".to_string()), None).unwrap();
    assert_eq!(path.unwrap(), "./data/c.dat".to_string());
    assert!(sub.begin_iteration().is_ok());

    let record = put_record("k", "v");
    let bytes = sub.on_event(put_record("k", "v")).unwrap();
    assert_eq!(bytes, encode_record(&record));
}

#[test]
fn periodic_mode_stages_and_flushes_in_arrival_order() {
    let (mut sub, _path) =
        AOFSubscriber::new(Some("./data".to_string()), Some("c".to_string()), Some(500)).unwrap();

    let records = mixed_records(7);
    for r in &records {
        let staged = sub.on_event(RawRecord {
            operation: r.operation,
            key: r.key.clone(),
            value: r.value.clone(),
        });
        assert!(staged.is_none());
    }

    let batch = sub.flush_to_disk();
    assert_eq!(batch, encode_batch(&records));

    // The queue was drained: a second flush writes nothing.
    let again = sub.flush_to_disk();
    assert!(again.is_empty());
}
