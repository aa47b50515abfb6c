//! The transaction oracle: a shared sequence counter, the committed-writer
//! log, and serializable commit validation over it.

use vstd::prelude::*;

use crate::snapshot_tracker::{close_effect, SnapshotTrackerInner};
use crate::tx::conflict_manager::{conflicts_with, ConflictChecker};
use crate::value::Instant;

verus! {

/// How a commit ended. Only `Committed` makes the transaction's writes
/// visible.
#[derive(Debug)]
pub enum CommitOutcome<E> {
    Committed,
    Aborted(E),
    Conflicted,
}

/// An error of the commit path itself (never of the transaction). This
/// crate's commit path holds the log directly and cannot poison it, so the
/// variant is never produced here; a concurrent embedding maps its mutex
/// poisoning onto it.
#[derive(Clone, Copy, PartialEq, Eq, Structural, Debug)]
pub enum Error {
    /// The write serialization lock was poisoned.
    Poisoned,
}

/// `new_log` is `log0` with the prefix of commits at or below the
/// watermark `w` dropped (the log ascends, so those form a prefix).
pub open spec fn is_pruned_log(
    log0: Seq<(u64, ConflictChecker)>,
    new_log: Seq<(u64, ConflictChecker)>,
    w: u64,
) -> bool {
    exists|k: int|
        #![trigger log0.skip(k)]
        {
            &&& 0 <= k <= log0.len()
            &&& log0.skip(k) == new_log
            &&& (forall|i: int| 0 <= i < k ==> (#[trigger] log0[i]).0 <= w)
            &&& (forall|i: int| k <= i < log0.len() ==> (#[trigger] log0[i]).0 > w)
        }
}

/// `new_log` is the pruned `log0` with `(ts, cc)` recorded at the end —
/// replacing a previous entry at `ts` if one was there.
pub open spec fn commit_recorded(
    log0: Seq<(u64, ConflictChecker)>,
    new_log: Seq<(u64, ConflictChecker)>,
    w: u64,
    ts: u64,
    cc: ConflictChecker,
) -> bool {
    exists|k: int|
        #![trigger log0.skip(k)]
        {
            &&& 0 <= k <= log0.len()
            &&& (forall|i: int| 0 <= i < k ==> (#[trigger] log0[i]).0 <= w)
            &&& (forall|i: int| k <= i < log0.len() ==> (#[trigger] log0[i]).0 > w)
            &&& new_log == (if k < log0.len() && log0[log0.len() - 1].0 == ts {
                log0.skip(k).drop_last()
            } else {
                log0.skip(k)
            }).push((ts, cc))
        }
}

/// Issues sequence numbers and validates commits against the log of
/// committed writers.
pub struct Oracle {
    /// The committed-writer log, ascending by commit seqno. (In a
    /// concurrent build this sits behind the write-serializing mutex.)
    pub write_serialize_lock: Vec<(u64, ConflictChecker)>,
    /// The shared sequence counter.
    pub seqno: u64,
    pub snapshot_tracker: SnapshotTrackerInner,
}

impl Oracle {
    /// The committed log is strictly ascending and never runs ahead of the
    /// sequence counter.
    pub open spec fn wf(&self) -> bool {
        &&& forall|i: int, j: int|
            0 <= i < j < self.write_serialize_lock@.len()
                ==> (#[trigger] self.write_serialize_lock@[i]).0 < (
            #[trigger] self.write_serialize_lock@[j]).0
        &&& forall|i: int|
            0 <= i < self.write_serialize_lock@.len()
                ==> (#[trigger] self.write_serialize_lock@[i]).0 <= self.seqno
    }

    /// A fresh oracle resuming at `seqno`.
    pub fn new(seqno: u64) -> (r: Oracle)
        ensures
            r.wf(),
            r.seqno == seqno,
            r.write_serialize_lock@.len() == 0,
            r.snapshot_tracker.model() == crate::snapshot_tracker::no_counts(),
            r.snapshot_tracker.spec_gap() == 100,
            r.snapshot_tracker.spec_watermark() == 0,
    {
        Oracle {
            write_serialize_lock: Vec::new(),
            seqno,
            snapshot_tracker: SnapshotTrackerInner::default(),
        }
    }

    /// Draws the next sequence number (also used as a read instant).
    pub fn next_seqno(&mut self) -> (r: u64)
        requires
            old(self).wf(),
            old(self).seqno < u64::MAX,
        ensures
            final(self).wf(),
            r == old(self).seqno,
            final(self).seqno == old(self).seqno + 1,
            final(self).write_serialize_lock@ == old(self).write_serialize_lock@,
            final(self).snapshot_tracker == old(self).snapshot_tracker,
    {
        let r = self.seqno;
        self.seqno = self.seqno + 1;
        r
    }

    /// The committed-writer log (behind the serializing lock in a
    /// concurrent build).
    pub fn write_serialize_lock(&self) -> (r: &Vec<(u64, ConflictChecker)>)
        ensures
            r == &self.write_serialize_lock,
    {
        &self.write_serialize_lock
    }

    /// Validates and applies one commit. The transaction conflicts — and
    /// nothing is applied — exactly when some writer committed after the
    /// transaction's read instant wrote a key it read. Whatever the
    /// outcome, the read snapshot is released and entries of the log at or
    /// below the garbage-collection watermark are dropped, which bounds the
    /// log by the distance between the watermark and the sequence counter.
    #[verifier::rlimit(100)]
    #[verifier::spinoff_prover]
    pub fn with_commit<E, F: FnOnce() -> Result<(), E>>(
        &mut self,
        instant: Instant,
        conflict_checker: ConflictChecker,
        f: F,
    ) -> (r: Result<CommitOutcome<E>, Error>)
        requires
            old(self).wf(),
            call_requires(f, ()),
            old(self).snapshot_tracker.model().dom().contains(instant) ==> old(
                self,
            ).snapshot_tracker.model()[instant] >= 1,
            old(self).snapshot_tracker.spec_gap() > 0,
            instant % old(self).snapshot_tracker.spec_gap() == 0 ==> instant >= old(
                self,
            ).snapshot_tracker.spec_gap(),
        ensures
            final(self).wf(),
            r is Ok,
            final(self).seqno == old(self).seqno,
            // serializability: conflicted exactly when an overlapping later
            // committer wrote a key this transaction read
            (r matches Ok(o) && o is Conflicted) <==> exists|i: int|
                0 <= i < old(self).write_serialize_lock@.len() && (
                #[trigger] old(self).write_serialize_lock@[i]).0 >= instant + 1 && conflicts_with(
                    &conflict_checker,
                    &old(self).write_serialize_lock@[i].1,
                ),
            // an abort reports exactly what the apply closure returned
            forall|e: E|
                (r matches Ok(o) && o == CommitOutcome::<E>::Aborted(e)) ==> call_ensures(
                    f,
                    (),
                    Err(e),
                ),
            // the log only holds commits above the watermark, plus possibly
            // this one at the current seqno
            forall|i: int|
                0 <= i < final(self).write_serialize_lock@.len() ==> (#[trigger] final(self).write_serialize_lock@[i]).0 > final(self).snapshot_tracker.spec_watermark()
                    || final(self).write_serialize_lock@[i].0 == final(self).seqno,
            // log bound: at most one entry per seqno between the watermark
            // and the counter, plus this commit
            final(self).snapshot_tracker.spec_watermark() <= final(self).seqno ==> final(self).write_serialize_lock@.len()
                <= final(self).seqno - final(self).snapshot_tracker.spec_watermark() + 1,
            // a successful commit is recorded at the current counter value
            (r matches Ok(o) && o is Committed) ==> exists|i: int|
                0 <= i < final(self).write_serialize_lock@.len()
                    && final(self).write_serialize_lock@[i] == (old(self).seqno, conflict_checker),
            // commits above the watermark survive the pruning (the one at
            // the counter value may be superseded by this commit)
            forall|i: int|
                0 <= i < old(self).write_serialize_lock@.len()
                    && (#[trigger] old(self).write_serialize_lock@[i]).0
                    > final(self).snapshot_tracker.spec_watermark()
                    && old(self).write_serialize_lock@[i].0 != old(self).seqno ==> exists|j: int|
                    0 <= j < final(self).write_serialize_lock@.len()
                        && final(self).write_serialize_lock@[j] == old(self).write_serialize_lock@[
                    i],
            // the read snapshot is released whatever the outcome: the
            // tracker goes through close(instant), gap kept, watermark
            // never moving backward
            final(self).snapshot_tracker.spec_gap() == old(self).snapshot_tracker.spec_gap(),
            final(self).snapshot_tracker.spec_watermark()
                >= old(self).snapshot_tracker.spec_watermark(),
            close_effect(
                old(self).snapshot_tracker.model(),
                old(self).snapshot_tracker.spec_watermark(),
                old(self).snapshot_tracker.spec_gap(),
                instant,
                final(self).snapshot_tracker.model(),
                final(self).snapshot_tracker.spec_watermark(),
            ),
            // a conflicted or aborted transaction records nothing: the log
            // is only pruned
            (r matches Ok(o) && (o is Aborted || o is Conflicted)) ==> is_pruned_log(
                old(self).write_serialize_lock@,
                final(self).write_serialize_lock@,
                final(self).snapshot_tracker.spec_watermark(),
            ),
            // a successful commit records exactly this transaction on the
            // pruned log, and only after the apply closure returned Ok
            (r matches Ok(o) && o is Committed) ==> commit_recorded(
                old(self).write_serialize_lock@,
                final(self).write_serialize_lock@,
                final(self).snapshot_tracker.spec_watermark(),
                old(self).seqno,
                conflict_checker,
            ),
            (r matches Ok(o) && o is Committed) ==> call_ensures(f, (), Ok::<(), E>(())),
    {
        let ghost log0 = self.write_serialize_lock@;
        // conflict check against committers after our read instant
        let n = self.write_serialize_lock.len();
        let mut conflicted = false;
        let mut i: usize = 0;
        while i < n
            invariant
                n == self.write_serialize_lock@.len(),
                0 <= i <= n,
                log0 == self.write_serialize_lock@,
                *self == *old(self),
                conflicted <==> exists|k: int|
                    0 <= k < i && (#[trigger] log0[k]).0 >= instant + 1 && conflicts_with(
                        &conflict_checker,
                        &log0[k].1,
                    ),
            decreases n - i,
        {
            let e = &self.write_serialize_lock[i];
            if e.0 >= instant && e.0 - instant >= 1 {
                if conflict_checker.has_conflict(&e.1) {
                    conflicted = true;
                }
            }
            i = i + 1;
        }
        // release the read snapshot; this may advance the watermark
        self.snapshot_tracker.close(instant);
        let safe_to_gc = self.snapshot_tracker.get_seqno_safe_to_gc();
        // drop committed entries at or below the watermark (a prefix of the
        // ascending log)
        let mut idx: usize = 0;
        let mut j: usize = 0;
        while j < n
            invariant
                n == self.write_serialize_lock@.len(),
                0 <= idx <= j <= n,
                log0 == self.write_serialize_lock@,
                self.seqno == old(self).seqno,
                self.wf(),
                forall|k: int| 0 <= k < idx ==> (#[trigger] log0[k]).0 <= safe_to_gc,
                forall|k: int| idx <= k < j ==> (#[trigger] log0[k]).0 > safe_to_gc,
            decreases n - j,
        {
            if self.write_serialize_lock[j].0 <= safe_to_gc {
                proof {
                    if idx < j {
                        assert(log0[idx as int].0 > safe_to_gc);
                        assert(log0[idx as int].0 < log0[j as int].0);
                    }
                }
                idx = j + 1;
            }
            j = j + 1;
        }
        let tail = self.write_serialize_lock.split_off(idx);
        self.write_serialize_lock = tail;
        proof {
            assert(self.write_serialize_lock@ == log0.skip(idx as int));
            assert forall|k: int|
                0 <= k < self.write_serialize_lock@.len()
                    implies (#[trigger] self.write_serialize_lock@[k]).0 > safe_to_gc by {
                assert(log0[idx + k].0 > safe_to_gc);
            }
            lemma_log_len_bound(self.write_serialize_lock@, safe_to_gc, self.seqno);
            assert forall|i: int|
                0 <= i < log0.len() && (#[trigger] log0[i]).0 > safe_to_gc implies exists|j: int|
                0 <= j < self.write_serialize_lock@.len() && self.write_serialize_lock@[j] == log0[
                i] by {
                assert(i >= idx) by {
                    if i < idx {
                        assert(log0[i].0 <= safe_to_gc);
                    }
                }
                assert(log0.skip(idx as int)[i - idx] == log0[i]);
                assert(self.write_serialize_lock@[i - idx] == log0[i]);
            }
        }
        let ghost pruned = self.write_serialize_lock@;
        if conflicted {
            return Ok(CommitOutcome::Conflicted);
        }
        let res = f();
        let ghost res_g = res;
        match res {
            Err(e) => {
                return Ok(CommitOutcome::Aborted(e));
            },
            Ok(u) => {
                proof {
                    assert(res_g == Ok::<(), E>(()));
                    assert(call_ensures(f, (), Ok::<(), E>(())));
                }
            },
        }
        // record this commit at the current counter value
        let ts = self.seqno;
        let ghost popped = pruned.len() > 0 && pruned[pruned.len() - 1].0 == ts;
        let m = self.write_serialize_lock.len();
        if m > 0 && self.write_serialize_lock[m - 1].0 == ts {
            let _ = self.write_serialize_lock.pop();
        }
        self.write_serialize_lock.push((ts, conflict_checker));
        proof {
            lemma_log_len_bound(self.write_serialize_lock@, safe_to_gc, self.seqno);
            let fin = self.write_serialize_lock@;
            assert(ts == old(self).seqno);
            assert(fin[fin.len() - 1] == (ts, conflict_checker));
            assert forall|i: int|
                0 <= i < log0.len() && (#[trigger] log0[i]).0 > safe_to_gc && log0[i].0 != ts
                    implies exists|j: int| 0 <= j < fin.len() && fin[j] == log0[i] by {
                let j = choose|j: int| 0 <= j < pruned.len() && pruned[j] == log0[i];
                if popped {
                    assert(j != pruned.len() - 1) by {
                        if j == pruned.len() - 1 {
                            assert(pruned[j].0 == ts);
                        }
                    }
                }
                assert(fin[j] == pruned[j]);
            }
        }
        Ok(CommitOutcome::Committed)
    }
}

/// A strictly ascending log whose entries all lie in `(lo, hi]`, except
/// possibly a final entry at `hi`, has at most `hi - lo + 1` entries.
proof fn lemma_log_len_bound(s: Seq<(u64, ConflictChecker)>, lo: u64, hi: u64)
    requires
        forall|i: int, j: int| 0 <= i < j < s.len() ==> (#[trigger] s[i]).0 < (#[trigger] s[j]).0,
        forall|i: int| 0 <= i < s.len() ==> (#[trigger] s[i]).0 > lo || s[i].0 == hi,
        forall|i: int| 0 <= i < s.len() ==> (#[trigger] s[i]).0 <= hi,
    ensures
        lo <= hi ==> s.len() <= hi - lo + 1,
    decreases s.len(),
{
    if lo <= hi && s.len() > 0 {
        let rest = s.skip(1);
        assert forall|i: int, j: int|
            0 <= i < j < rest.len() implies (#[trigger] rest[i]).0 < (#[trigger] rest[j]).0 by {
            assert(s[i + 1].0 < s[j + 1].0);
        }
        let lo2 = s[0].0;
        assert forall|i: int| 0 <= i < rest.len() implies (#[trigger] rest[i]).0 > lo2 by {
            assert(s[0].0 < s[i + 1].0);
        }
        assert forall|i: int| 0 <= i < rest.len() implies (#[trigger] rest[i]).0 <= hi by {
            assert(rest[i] == s[i + 1]);
        }
        if s[0].0 == hi {
            // everything after the first entry would exceed hi
            assert(rest.len() == 0) by {
                if rest.len() > 0 {
                    assert(rest[0].0 > lo2 && rest[0].0 <= hi);
                }
            }
        } else {
            lemma_log_len_bound(rest, lo2, hi);
        }
    }
}

} // verus!
