//! Snapshot tracker: watermark movement under open/close/gc sequences.

use lsm_core::snapshot_tracker::SnapshotTrackerInner;

#[test]
fn seqno_tracker_reverse_order() {
    let mut map = SnapshotTrackerInner::default();
    map.safety_gap = 5;

    map.open(1);
    map.open(2);
    map.open(3);
    map.open(4);
    map.open(5);
    map.open(6);
    map.open(7);
    map.open(8);
    map.open(9);
    map.open(10);

    map.close(10);
    map.close(9);
    map.close(8);
    map.close(7);
    map.close(6);
    map.close(5);
    map.close(4);
    map.close(3);
    map.close(2);
    map.close(1);

    map.open(11);
    map.close(11);
    map.gc(11);

    assert_eq!(map.get_seqno_safe_to_gc(), 6);
}

#[test]
fn seqno_tracker_simple() {
    let mut map = SnapshotTrackerInner::default();
    map.safety_gap = 5;

    map.open(1);
    assert_eq!(map.get_seqno_safe_to_gc(), 0);

    map.open(2);
    assert_eq!(map.get_seqno_safe_to_gc(), 0);

    map.open(3);
    assert_eq!(map.get_seqno_safe_to_gc(), 0);

    map.open(4);
    assert_eq!(map.get_seqno_safe_to_gc(), 0);

    map.open(5);
    assert_eq!(map.get_seqno_safe_to_gc(), 0);

    map.open(6);
    assert_eq!(map.get_seqno_safe_to_gc(), 0);

    map.close(1);
    assert_eq!(map.get_seqno_safe_to_gc(), 0);

    map.close(2);
    assert_eq!(map.get_seqno_safe_to_gc(), 0);

    map.close(3);
    assert_eq!(map.get_seqno_safe_to_gc(), 0);

    map.close(4);
    assert_eq!(map.get_seqno_safe_to_gc(), 0);

    map.close(5);
    assert_eq!(map.get_seqno_safe_to_gc(), 0);

    map.close(6);
    map.gc(6);
    assert_eq!(map.get_seqno_safe_to_gc(), 1);

    map.open(7);
    map.close(7);
    map.gc(7);
    assert_eq!(map.get_seqno_safe_to_gc(), 2);

    map.open(8);
    map.open(9);
    map.close(9);
    map.gc(9);
    assert_eq!(map.get_seqno_safe_to_gc(), 4);

    map.close(8);
    map.gc(8);
    assert_eq!(map.get_seqno_safe_to_gc(), 4);
}

#[test]
fn seqno_tracker_watermark_never_regresses() {
    let mut map = SnapshotTrackerInner::default();
    map.safety_gap = 5;
    let mut watermark = map.get_seqno_safe_to_gc();
    for seqno in 1..=40u64 {
        map.open(seqno);
        map.close(seqno);
        if seqno % 10 == 0 {
            map.gc(seqno);
        }
        let now = map.get_seqno_safe_to_gc();
        assert!(now >= watermark);
        watermark = now;
    }
    assert!(watermark >= 30);
}
