//! Tests of recovery: a cache rebuilt by replaying the records a run wrote
//! matches the original run, and replaying a log twice is the same as
//! running the operations twice.

use sine_cache::aof::RawRecord;
use sine_cache::aof::decode_for_replay;
use sine_cache::aof::encode_batch;
use sine_cache::cache::Cache;
use sine_cache::common::AOFRecord;
use sine_cache::common::Operation;
use sine_cache::config::CacheConfig;
use sine_cache::config::CacheSyncConfig;

fn lfu_cache() -> Cache<String, String> {
    Cache::new(CacheSyncConfig::LFU(CacheConfig { max_size: 3 }))
}

/// The operations of a short run, as the records a facade would emit with
/// reads persisted.
fn run_records() -> Vec<AOFRecord<String, String>> {
    let mut ops = Vec::new();
    for i in 0..12u32 {
        let key = format!("key{}", i % 5);
        let op = match i % 4 {
            0 | 3 => Operation::Put,
            1 => Operation::Get,
            _ => Operation::Remove,
        };
        let value = if op == Operation::Put { Some(format!("value{}", i)) } else { None };
        ops.push(AOFRecord { key, value, operation: op });
    }
    ops
}

fn clone_records(rs: &[AOFRecord<String, String>]) -> Vec<AOFRecord<String, String>> {
    rs.iter().map(|r| AOFRecord {
        key: r.key.clone(),
        value: r.value.clone(),
        operation: r.operation,
    }).collect()
}

/// Applies records the way a live facade would: a read reads, a write
/// writes, a removal removes.
fn apply_live(cache: &mut Cache<String, String>, rs: &[AOFRecord<String, String>]) {
    for r in rs {
        match r.operation {
            Operation::Get => {
                let _ = cache.get(&r.key);
            },
            Operation::Put => cache.put(r.key.clone(), r.value.clone().unwrap()),
            Operation::Remove => cache.remove(&r.key),
        }
    }
}

fn assert_same_contents(a: &mut Cache<String, String>, b: &mut Cache<String, String>) {
    assert_eq!(a.size(), b.size());
    for i in 0..5u32 {
        let key = format!("key{}", i);
        assert_eq!(a.contains_key(&key), b.contains_key(&key));
        assert_eq!(a.get(&key).cloned(), b.get(&key).cloned());
    }
}

#[test]
fn replay_reproduces_a_recorded_run() {
    let mut live = lfu_cache();
    apply_live(&mut live, &run_records());

    let mut rebuilt = lfu_cache();
    rebuilt.replay(run_records());

    assert_same_contents(&mut live, &mut rebuilt);
}

#[test]
fn replay_through_the_log_bytes_reproduces_a_recorded_run() {
    let ops = run_records();

    let mut live = lfu_cache();
    apply_live(&mut live, &ops);

    // The records as the log holds them: payloads byte-encoded, framed and
    // concatenated in operation order.
    let raw: Vec<RawRecord> = ops
        .iter()
        .map(|r| RawRecord {
            operation: r.operation,
            key: r.key.as_bytes().to_vec(),
            value: r.value.as_ref().map(|v| v.as_bytes().to_vec()),
        })
        .collect();
    let bytes = encode_batch(&raw);

    // Recovery: decode the log and lift each record's payloads back.
    let decoded = decode_for_replay(&bytes).unwrap();
    let lifted: Vec<AOFRecord<String, String>> = decoded
        .into_iter()
        .map(|r| AOFRecord {
            operation: r.operation,
            key: String::from_utf8(r.key).unwrap(),
            value: r.value.map(|v| String::from_utf8(v).unwrap()),
        })
        .collect();

    let mut rebuilt = lfu_cache();
    rebuilt.replay(lifted);

    assert_same_contents(&mut live, &mut rebuilt);
}

#[test]
fn replaying_a_run_twice_equals_running_it_twice() {
    let ops = run_records();

    // Reopen in the middle: replay the log, then run the operations again.
    let mut reopened = lfu_cache();
    reopened.replay(clone_records(&ops));
    apply_live(&mut reopened, &ops);

    // Run the doubled sequence directly.
    let mut direct = lfu_cache();
    let mut doubled = clone_records(&ops);
    doubled.extend(clone_records(&ops));
    direct.replay(doubled);

    assert_same_contents(&mut reopened, &mut direct);
}
