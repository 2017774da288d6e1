//! Unit tests for the FIFO eviction policy.

use sine_cache::eviction_policies::common::EvictionPolicy;
use sine_cache::eviction_policies::fifo::FIFO;

#[test]
fn test_new_fifo() {
    let mut fifo: FIFO<i32> = FIFO::new();
    assert!(fifo.evict().is_none());
}

#[test]
fn fifo_test_on_set_and_evict() {
    let mut fifo: FIFO<i32> = FIFO::new();
    let key1 = 1;
    let key2 = 2;

    fifo.on_set(key1.clone());
    fifo.on_set(key2.clone());

    assert_eq!(fifo.evict(), Some(key1));
    assert_eq!(fifo.evict(), Some(key2));
    assert_eq!(fifo.evict(), None);
}

#[test]
fn test_evict() {
    let mut fifo: FIFO<i32> = FIFO::new();
    let key1 = 1;
    let key2 = 2;
    let key3 = 3;

    fifo.on_set(key1.clone());
    fifo.on_set(key2.clone());
    fifo.on_set(key3.clone());

    assert_eq!(fifo.evict(), Some(key1));
    assert_eq!(fifo.evict(), Some(key2));
    assert_eq!(fifo.evict(), Some(key3));
    assert_eq!(fifo.evict(), None);
}

#[test]
fn fifo_test_remove_and_evict() {
    let mut fifo: FIFO<i32> = FIFO::new();
    let key1 = 1;
    let key2 = 2;

    fifo.on_set(key1.clone());
    fifo.on_set(key2.clone());
    fifo.remove(key1.clone());

    assert_eq!(fifo.evict(), Some(key2));
    assert_eq!(fifo.evict(), None);
}

#[test]
fn test_evict_with_tombstones() {
    let mut fifo: FIFO<i32> = FIFO::new();
    let key1 = 1;
    let key2 = 2;
    let key3 = 3;

    fifo.on_set(key1.clone());
    fifo.on_set(key2.clone());
    fifo.on_set(key3.clone());
    fifo.remove(key1.clone());
    fifo.remove(key2.clone());

    assert_eq!(fifo.evict(), Some(key3));
    assert_eq!(fifo.evict(), None);
}

#[test]
fn fifo_test_on_get() {
    let mut fifo: FIFO<i32> = FIFO::new();
    let key1 = 1;
    fifo.on_set(key1.clone());
    fifo.on_get(&key1);
    // A read never affects the FIFO queue; nothing to assert here.
}
