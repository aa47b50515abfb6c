//! Memtable reads: newest-wins, point-in-time versions, prefix bounds.

use lsm_core::memtable::MemTable;
use lsm_core::value::{Value, ValueType};

#[test]
fn test_memtable_get() {
    let mut memtable = MemTable::default();

    let value = Value::new(b"abc".to_vec(), b"abc".to_vec(), 0, ValueType::Value);

    memtable.insert(value.clone());

    assert_eq!(Some(value), memtable.get(&b"abc".to_vec(), None));
}

#[test]
fn test_memtable_get_highest_seqno() {
    let mut memtable = MemTable::default();

    memtable.insert(Value::new(b"abc".to_vec(), b"abc".to_vec(), 0, ValueType::Value));
    memtable.insert(Value::new(b"abc".to_vec(), b"abc".to_vec(), 1, ValueType::Value));
    memtable.insert(Value::new(b"abc".to_vec(), b"abc".to_vec(), 2, ValueType::Value));
    memtable.insert(Value::new(b"abc".to_vec(), b"abc".to_vec(), 3, ValueType::Value));
    memtable.insert(Value::new(b"abc".to_vec(), b"abc".to_vec(), 4, ValueType::Value));

    assert_eq!(
        Some(Value::new(b"abc".to_vec(), b"abc".to_vec(), 4, ValueType::Value)),
        memtable.get(&b"abc".to_vec(), None)
    );
}

#[test]
fn test_memtable_get_prefix() {
    let mut memtable = MemTable::default();

    memtable.insert(Value::new(b"abc0".to_vec(), b"abc".to_vec(), 0, ValueType::Value));
    memtable.insert(Value::new(b"abc".to_vec(), b"abc".to_vec(), 255, ValueType::Value));

    assert_eq!(
        Some(Value::new(b"abc".to_vec(), b"abc".to_vec(), 255, ValueType::Value)),
        memtable.get(&b"abc".to_vec(), None)
    );

    assert_eq!(
        Some(Value::new(b"abc0".to_vec(), b"abc".to_vec(), 0, ValueType::Value)),
        memtable.get(&b"abc0".to_vec(), None)
    );
}

#[test]
fn test_memtable_get_old_version() {
    let mut memtable = MemTable::default();

    memtable.insert(Value::new(b"abc".to_vec(), b"abc".to_vec(), 0, ValueType::Value));
    memtable.insert(Value::new(b"abc".to_vec(), b"abc".to_vec(), 99, ValueType::Value));
    memtable.insert(Value::new(b"abc".to_vec(), b"abc".to_vec(), 255, ValueType::Value));

    assert_eq!(
        Some(Value::new(b"abc".to_vec(), b"abc".to_vec(), 255, ValueType::Value)),
        memtable.get(&b"abc".to_vec(), None)
    );

    assert_eq!(
        Some(Value::new(b"abc".to_vec(), b"abc".to_vec(), 99, ValueType::Value)),
        memtable.get(&b"abc".to_vec(), Some(100))
    );

    assert_eq!(
        Some(Value::new(b"abc".to_vec(), b"abc".to_vec(), 0, ValueType::Value)),
        memtable.get(&b"abc".to_vec(), Some(50))
    );
}

#[test]
fn mod_test_memtable_get() {
    let mut memtable = MemTable::default();
    let value = Value::new(b"abc".to_vec(), b"abc".to_vec(), 0, ValueType::Value);
    memtable.insert(value.clone());
    assert_eq!(Some(value), memtable.get(&b"abc".to_vec(), None));
}

#[test]
fn mod_test_memtable_get_highest_seqno() {
    let mut memtable = MemTable::default();
    for seqno in 0..5 {
        memtable.insert(Value::new(b"abc".to_vec(), b"abc".to_vec(), seqno, ValueType::Value));
    }
    assert_eq!(
        Some(Value::new(b"abc".to_vec(), b"abc".to_vec(), 4, ValueType::Value)),
        memtable.get(&b"abc".to_vec(), None)
    );
}

#[test]
fn mod_test_memtable_get_prefix() {
    let mut memtable = MemTable::default();
    memtable.insert(Value::new(b"abc0".to_vec(), b"abc".to_vec(), 0, ValueType::Value));
    memtable.insert(Value::new(b"abc".to_vec(), b"abc".to_vec(), 255, ValueType::Value));
    assert_eq!(
        Some(Value::new(b"abc".to_vec(), b"abc".to_vec(), 255, ValueType::Value)),
        memtable.get(&b"abc".to_vec(), None)
    );
    assert_eq!(
        Some(Value::new(b"abc0".to_vec(), b"abc".to_vec(), 0, ValueType::Value)),
        memtable.get(&b"abc0".to_vec(), None)
    );
}

#[test]
fn mod_test_memtable_get_old_version() {
    let mut memtable = MemTable::default();
    memtable.insert(Value::new(b"abc".to_vec(), b"abc".to_vec(), 0, ValueType::Value));
    memtable.insert(Value::new(b"abc".to_vec(), b"abc".to_vec(), 99, ValueType::Value));
    memtable.insert(Value::new(b"abc".to_vec(), b"abc".to_vec(), 255, ValueType::Value));
    assert_eq!(
        Some(Value::new(b"abc".to_vec(), b"abc".to_vec(), 255, ValueType::Value)),
        memtable.get(&b"abc".to_vec(), None)
    );
    assert_eq!(
        Some(Value::new(b"abc".to_vec(), b"abc".to_vec(), 99, ValueType::Value)),
        memtable.get(&b"abc".to_vec(), Some(100))
    );
    assert_eq!(
        Some(Value::new(b"abc".to_vec(), b"abc".to_vec(), 0, ValueType::Value)),
        memtable.get(&b"abc".to_vec(), Some(50))
    );
}

#[test]
fn memtable_next_seqno_counts_past_the_top() {
    let mut memtable = MemTable::default();
    assert_eq!(0, memtable.get_next_seqno());
    memtable.insert(Value::new(b"a".to_vec(), b"x".to_vec(), 7, ValueType::Value));
    memtable.insert(Value::new(b"b".to_vec(), b"y".to_vec(), 3, ValueType::Tombstone));
    assert_eq!(8, memtable.get_next_seqno());
}

#[test]
fn memtable_tombstones_are_returned_as_tombstones() {
    let mut memtable = MemTable::default();
    memtable.insert(Value::new(b"k".to_vec(), b"v".to_vec(), 1, ValueType::Value));
    memtable.insert(Value::new(b"k".to_vec(), Vec::new(), 2, ValueType::Tombstone));
    let got = memtable.get(&b"k".to_vec(), None).unwrap();
    assert_eq!(ValueType::Tombstone, got.value_type);
    assert_eq!(2, got.seqno);
}
