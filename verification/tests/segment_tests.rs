//! Segment writing and reading: the block codec, the checksum, the writer's
//! counters, the multi-writer's rotation and the round trip through real
//! LZ4 compression.

use lsm_core::error::Error;
use lsm_core::segment::block::{crc32, parse_block, serialize_block};
use lsm_core::segment::meta::Metadata;
use lsm_core::segment::reader::read_segment;
use lsm_core::segment::writer::{IndexEntry, MultiWriter, Options, Writer};
use lsm_core::value::{Value, ValueType};

fn make_value(i: u64) -> Value {
    Value::new(i.to_be_bytes().to_vec(), b"value".to_vec(), 0, ValueType::Value)
}

#[test]
fn test_write_and_read() {
    const ITEM_COUNT: u64 = 100;

    let mut writer = Writer::new(Options { evict_tombstones: false, block_size: 4096 });

    for i in 0..ITEM_COUNT {
        writer.write(make_value(i)).unwrap();
    }

    writer.finish().unwrap();

    let metadata = Metadata::from_writer("segment".to_string(), &writer);
    assert_eq!(ITEM_COUNT, metadata.item_count);

    let iter = read_segment(&writer.blocks, &writer.index).unwrap();
    assert_eq!(ITEM_COUNT, iter.len() as u64);
}

#[test]
fn segment_round_trip_preserves_every_item() {
    let mut writer = Writer::new(Options { evict_tombstones: false, block_size: 256 });
    let mut expected: Vec<Value> = Vec::new();
    for i in 0..50u64 {
        let v = Value::new(
            i.to_be_bytes().to_vec(),
            format!("payload-{}", i).into_bytes(),
            i,
            if i % 7 == 0 { ValueType::Tombstone } else { ValueType::Value },
        );
        expected.push(v.clone());
        writer.write(v).unwrap();
    }
    writer.finish().unwrap();
    assert!(writer.block_count > 1);

    let got = read_segment(&writer.blocks, &writer.index).unwrap();
    assert_eq!(expected, got);
}

#[test]
fn multi_writer_rotates_and_keeps_order() {
    let mut multi = MultiWriter::new(600, Options { evict_tombstones: false, block_size: 128 });
    let mut expected: Vec<Value> = Vec::new();
    for i in 0..80u64 {
        let v = make_value(i);
        expected.push(v.clone());
        multi.write(v).unwrap();
    }
    let (metas, segments) = multi.finish().unwrap();
    assert!(segments.len() > 1);
    assert_eq!(metas.len(), segments.len());

    let mut got: Vec<Value> = Vec::new();
    let mut total: u64 = 0;
    for (meta, seg) in metas.iter().zip(segments.iter()) {
        assert_eq!(meta.id, seg.id);
        assert!(meta.item_count > 0);
        total += meta.item_count;
        let mut part = read_segment(&seg.blocks, &seg.index).unwrap();
        got.append(&mut part);
    }
    assert_eq!(80, total);
    assert_eq!(expected, got);
}

#[test]
fn empty_writer_leaves_no_segment() {
    let mut writer = Writer::new(Options { evict_tombstones: false, block_size: 4096 });
    writer.finish().unwrap();
    // zero items: the embedding program removes the segment folder instead
    // of persisting anything
    assert_eq!(0, writer.item_count);
    assert_eq!(0, writer.block_count);

    let mut multi = MultiWriter::new(1024, Options { evict_tombstones: false, block_size: 4096 });
    multi.write(Value::new(b"k".to_vec(), Vec::new(), 1, ValueType::Tombstone)).unwrap();
    let (metas, segments) = {
        let mut m2 = MultiWriter::new(1024, Options { evict_tombstones: true, block_size: 4096 });
        m2.write(Value::new(b"k".to_vec(), Vec::new(), 1, ValueType::Tombstone)).unwrap();
        m2.finish().unwrap()
    };
    // the only entry was an evicted tombstone: no segment is recorded
    assert_eq!(0, metas.len());
    assert_eq!(0, segments.len());
    let (metas2, segments2) = multi.finish().unwrap();
    // without eviction the tombstone is a real entry
    assert_eq!(1, metas2.len());
    assert_eq!(1, segments2.len());
    assert_eq!(1, metas2[0].tombstone_count);
}

#[test]
fn metadata_counters_match_the_writer() {
    let mut writer = Writer::new(Options { evict_tombstones: false, block_size: 4096 });
    writer.write(Value::new(b"aaa".to_vec(), b"1".to_vec(), 5, ValueType::Value)).unwrap();
    writer.write(Value::new(b"bbb".to_vec(), b"2".to_vec(), 9, ValueType::Value)).unwrap();
    writer.write(Value::new(b"ccc".to_vec(), Vec::new(), 7, ValueType::Tombstone)).unwrap();
    writer.finish().unwrap();
    let meta = Metadata::from_writer("seg".to_string(), &writer);
    assert_eq!(3, meta.item_count);
    assert_eq!(1, meta.tombstone_count);
    assert_eq!((b"aaa".to_vec(), b"ccc".to_vec()), meta.key_range);
    assert_eq!((5, 9), meta.seqnos);
    assert!(meta.is_compressed);
    assert!(meta.key_range_contains(&b"bbb".to_vec()));
    assert!(meta.key_range_contains(&b"aaa".to_vec()));
    assert!(!meta.key_range_contains(&b"ddd".to_vec()));
    assert!(!meta.key_range_contains(&b"a".to_vec()));
}

#[test]
fn crc32_matches_the_reference_check_value() {
    assert_eq!(0xCBF43926u32, crc32(&b"123456789".to_vec()));
    assert_eq!(0, crc32(&Vec::new()) ^ 0xFFFFFFFF ^ 0xFFFFFFFF ^ crc32(&Vec::new()));
}

#[test]
fn block_codec_round_trips() {
    let items = vec![
        Value::new(b"k1".to_vec(), b"v1".to_vec(), 1, ValueType::Value),
        Value::new(b"k2".to_vec(), Vec::new(), 2, ValueType::Tombstone),
    ];
    let bytes = serialize_block(&items);
    // count (4) + two entries + crc (4)
    assert_eq!(4 + (15 + 4) + (15 + 2) + 4, bytes.len());
    let parsed = parse_block(&bytes).unwrap();
    assert_eq!(items, parsed);

    // a corrupted byte fails the checksum
    let mut broken = bytes.clone();
    let mid = broken.len() / 2;
    broken[mid] = broken[mid].wrapping_add(1);
    assert!(parse_block(&broken).is_none());
}

#[test]
fn oversized_keys_are_rejected() {
    let mut writer = Writer::new(Options { evict_tombstones: false, block_size: 4096 });
    let huge_key = vec![7u8; 70_000];
    let r = writer.write(Value::new(huge_key, b"v".to_vec(), 1, ValueType::Value));
    assert_eq!(Err(Error::Serialize), r);
}

#[test]
fn evicted_tombstones_are_dropped_before_any_check() {
    // under eviction a tombstone is dropped silently, however oversized,
    // and the writer is left untouched
    let mut writer = Writer::new(Options { evict_tombstones: true, block_size: 4096 });
    let huge_key = vec![7u8; 70_000];
    let r = writer.write(Value::new(huge_key, Vec::new(), 1, ValueType::Tombstone));
    assert_eq!(Ok(()), r);
    assert_eq!(0, writer.item_count);
    assert_eq!(0, writer.tombstone_count);
    assert_eq!(None, writer.first_key);
    writer.finish().unwrap();
    assert_eq!(0, writer.item_count);
}

#[test]
fn corrupt_segment_images_are_reported() {
    // an index record pointing at bytes that are not an LZ4 block
    let blocks = vec![0u8, 1, 2, 3, 4, 5, 6, 7, 8];
    let index = vec![IndexEntry { first_key: b"k".to_vec(), offset: 1, size: 8 }];
    match read_segment(&blocks, &index) {
        Err(Error::Decompress) | Err(Error::Deserialize) => (),
        other => panic!("expected a corruption error, got {:?}", other),
    }

    // a record reaching past the end of the blocks file
    let index2 = vec![IndexEntry { first_key: b"k".to_vec(), offset: 4, size: 100 }];
    assert_eq!(Err(Error::Deserialize), read_segment(&blocks, &index2));
}

#[test]
fn index_file_ends_with_the_sentinel() {
    let mut writer = Writer::new(Options { evict_tombstones: false, block_size: 64 });
    for i in 0..8u64 {
        writer.write(make_value(i)).unwrap();
    }
    writer.finish().unwrap();
    let bytes = writer.index_file_bytes();
    // the sentinel record: empty key, the end offset, size zero
    let tail = &bytes[bytes.len() - 14..];
    assert_eq!(&[0u8, 0u8], &tail[0..2]);
    assert_eq!(writer.file_pos.to_le_bytes().as_slice(), &tail[2..10]);
    assert_eq!(&[0u8, 0u8, 0u8, 0u8], &tail[10..14]);
}
