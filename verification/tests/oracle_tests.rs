//! Transaction oracle: serializable conflict detection and the bound on the
//! committed-writer log.

use lsm_core::tx::conflict_manager::ConflictChecker;
use lsm_core::tx::oracle::{CommitOutcome, Oracle};

fn run_tx(oracle: &mut Oracle) {
    // two transactions begin side by side
    let i1 = oracle.next_seqno();
    oracle.snapshot_tracker.open(i1);
    let i2 = oracle.next_seqno();
    oracle.snapshot_tracker.open(i2);

    // the first writes a key and commits
    let mut cc1 = ConflictChecker::new();
    cc1.mark_write(b"hello".to_vec());
    let r1 = oracle.with_commit(i1, cc1, || Ok::<(), ()>(())).unwrap();
    assert!(matches!(r1, CommitOutcome::Committed));

    // the second read that key before the first committed: conflicted
    let mut cc2 = ConflictChecker::new();
    cc2.mark_read(b"hello".to_vec());
    cc2.mark_write(b"hello".to_vec());
    let r2 = oracle.with_commit(i2, cc2, || Ok::<(), ()>(())).unwrap();
    assert!(matches!(r2, CommitOutcome::Conflicted));
}

#[test]
fn oracle_committed_txns_does_not_leak() {
    let mut oracle = Oracle::new(1);

    for _ in 0..250 {
        run_tx(&mut oracle);
    }

    assert!(oracle.write_serialize_lock().len() < 200);

    for _ in 0..200 {
        run_tx(&mut oracle);
    }

    assert!(oracle.write_serialize_lock().len() < 200);
}

#[test]
fn oracle_commit_conflict() {
    let mut oracle = Oracle::new(1);

    // tx1 begins and writes the key
    let i1 = oracle.next_seqno();
    oracle.snapshot_tracker.open(i1);
    // tx2 begins before tx1 commits and reads the same key
    let i2 = oracle.next_seqno();
    oracle.snapshot_tracker.open(i2);

    let mut cc1 = ConflictChecker::new();
    cc1.mark_write(b"hello".to_vec());
    let r1 = oracle.with_commit(i1, cc1, || Ok::<(), ()>(())).unwrap();
    assert!(matches!(r1, CommitOutcome::Committed));

    let mut cc2 = ConflictChecker::new();
    cc2.mark_read(b"hello".to_vec());
    cc2.mark_write(b"hello".to_vec());
    let r2 = oracle.with_commit(i2, cc2, || Ok::<(), ()>(())).unwrap();
    assert!(matches!(r2, CommitOutcome::Conflicted));
}

#[test]
fn oracle_independent_transactions_commit() {
    let mut oracle = Oracle::new(1);

    let i1 = oracle.next_seqno();
    oracle.snapshot_tracker.open(i1);
    let i2 = oracle.next_seqno();
    oracle.snapshot_tracker.open(i2);

    let mut cc1 = ConflictChecker::new();
    cc1.mark_write(b"a".to_vec());
    let r1 = oracle.with_commit(i1, cc1, || Ok::<(), ()>(())).unwrap();
    assert!(matches!(r1, CommitOutcome::Committed));

    // tx2 read a different key: no conflict
    let mut cc2 = ConflictChecker::new();
    cc2.mark_read(b"b".to_vec());
    cc2.mark_write(b"b".to_vec());
    let r2 = oracle.with_commit(i2, cc2, || Ok::<(), ()>(())).unwrap();
    assert!(matches!(r2, CommitOutcome::Committed));
}

#[test]
fn oracle_aborted_apply_reports_the_error() {
    let mut oracle = Oracle::new(1);
    let i1 = oracle.next_seqno();
    oracle.snapshot_tracker.open(i1);
    let cc = ConflictChecker::new();
    let r = oracle.with_commit(i1, cc, || Err::<(), u8>(42)).unwrap();
    match r {
        CommitOutcome::Aborted(e) => assert_eq!(42, e),
        _ => panic!("expected an aborted commit"),
    }
    // nothing was recorded as committed
    assert_eq!(0, oracle.write_serialize_lock().len());
}
