//! Segment ids, configuration and the prefix reader.

use lsm_core::config::{CompactionChoice, Config};
use lsm_core::error::Error;
use lsm_core::id::{format_segment_id, generate_segment_id, to_base36};
use lsm_core::memtable::MemTable;
use lsm_core::prefix::{Prefix, PrefixIterator};
use lsm_core::value::{Value, ValueType};

#[test]
fn base36_renders_like_the_reference_values() {
    assert_eq!("0", to_base36(0));
    assert_eq!("9", to_base36(9));
    assert_eq!("a", to_base36(10));
    assert_eq!("z", to_base36(35));
    assert_eq!("10", to_base36(36));
    assert_eq!("zz", to_base36(1295));
    assert_eq!("100", to_base36(1296));
}

#[test]
fn segment_ids_join_the_fields_with_underscores() {
    assert_eq!("12_34_5_6", format_segment_id(1, 2, 3, 4, 5, 6));
    assert_eq!("ab_cd_zz_10", format_segment_id(10, 11, 12, 13, 1295, 36));

    let id = generate_segment_id();
    assert_eq!(3, id.chars().filter(|c| *c == '_').count());
    assert!(id.chars().all(|c| c == '_' || c.is_ascii_lowercase() || c.is_ascii_digit()));
}

#[test]
fn config_defaults_and_builders() {
    let c = Config::new(b"/data/tree".to_vec());
    assert_eq!(4096, c.block_size);
    assert_eq!(1024, c.block_cache_size);
    assert_eq!(64 * 1024 * 1024, c.max_memtable_size);
    assert_eq!(7, c.levels);
    assert_eq!(4, c.flush_threads);
    assert_eq!(CompactionChoice::SizeTiered, c.compaction_strategy);

    let c = c
        .flush_threads(8)
        .level_count(5)
        .max_memtable_size(1 << 20)
        .block_size(2048)
        .block_cache_size(77)
        .compaction_strategy(CompactionChoice::SizeTiered);
    assert_eq!(8, c.flush_threads);
    assert_eq!(5, c.levels);
    assert_eq!(1 << 20, c.max_memtable_size);
    assert_eq!(2048, c.block_size);
    assert_eq!(77, c.block_cache_size);
    assert_eq!(b"/data/tree".to_vec(), c.path);
}

#[test]
fn prefix_read_returns_newest_visible_versions_in_order() {
    let mut table = MemTable::default();
    table.insert(Value::new(b"abc".to_vec(), b"old".to_vec(), 1, ValueType::Value));
    table.insert(Value::new(b"abc".to_vec(), b"new".to_vec(), 5, ValueType::Value));
    table.insert(Value::new(b"abcd".to_vec(), b"x".to_vec(), 2, ValueType::Value));
    table.insert(Value::new(b"abz".to_vec(), b"y".to_vec(), 3, ValueType::Value));
    table.insert(Value::new(b"b".to_vec(), b"outside".to_vec(), 4, ValueType::Value));

    let lock = Prefix::new(b"ab".to_vec(), None);
    let it = PrefixIterator::new(&table, &lock);
    let keys: Vec<Vec<u8>> = it.items.iter().map(|v| v.key.clone()).collect();
    assert_eq!(vec![b"abc".to_vec(), b"abcd".to_vec(), b"abz".to_vec()], keys);
    assert_eq!(b"new".to_vec(), it.items[0].value);
    assert_eq!(5, it.items[0].seqno);
}

#[test]
fn prefix_read_respects_the_snapshot_and_drops_tombstones() {
    let mut table = MemTable::default();
    table.insert(Value::new(b"k1".to_vec(), b"v1".to_vec(), 1, ValueType::Value));
    table.insert(Value::new(b"k1".to_vec(), Vec::new(), 6, ValueType::Tombstone));
    table.insert(Value::new(b"k2".to_vec(), b"v2".to_vec(), 2, ValueType::Value));

    // without a snapshot the newest version of k1 is a tombstone: dropped
    let it = PrefixIterator::new(&table, &Prefix::new(b"k".to_vec(), None));
    let keys: Vec<Vec<u8>> = it.items.iter().map(|v| v.key.clone()).collect();
    assert_eq!(vec![b"k2".to_vec()], keys);

    // at a snapshot before the deletion the old value is visible again
    let it = PrefixIterator::new(&table, &Prefix::new(b"k".to_vec(), Some(5)));
    let keys: Vec<Vec<u8>> = it.items.iter().map(|v| v.key.clone()).collect();
    assert_eq!(vec![b"k1".to_vec(), b"k2".to_vec()], keys);
    assert_eq!(2, it.len());

    // a prefix adjacent in byte order matches nothing
    let it = PrefixIterator::new(&table, &Prefix::new(b"k3".to_vec(), None));
    assert_eq!(0, it.len());
}

#[test]
fn error_descriptions_name_each_kind() {
    assert_eq!("i/o error", Error::Io.describe());
    assert_eq!("serialization failed", Error::Serialize.describe());
    assert_eq!("deserialization failed", Error::Deserialize.describe());
    assert_eq!("decompression failed", Error::Decompress.describe());
}
