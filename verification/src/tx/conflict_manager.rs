//! Per-transaction conflict summaries: the keys a transaction read and
//! wrote, enough to decide whether two transactions overlap.

use vstd::prelude::*;

use crate::value::bytes_eq;

verus! {

/// The read- and write-key sets of one transaction.
#[derive(Debug)]
pub struct ConflictChecker {
    pub reads: Vec<Vec<u8>>,
    pub writes: Vec<Vec<u8>>,
}

/// Transaction `a` read a key that transaction `b` wrote.
pub open spec fn conflicts_with(a: &ConflictChecker, b: &ConflictChecker) -> bool {
    exists|i: int, j: int|
        0 <= i < a.reads@.len() && 0 <= j < b.writes@.len() && a.reads@[i]@ == b.writes@[j]@
}

impl ConflictChecker {
    /// An empty summary.
    pub fn new() -> (r: ConflictChecker)
        ensures
            r.reads@.len() == 0,
            r.writes@.len() == 0,
    {
        ConflictChecker { reads: Vec::new(), writes: Vec::new() }
    }

    /// Records that the transaction read `key`.
    pub fn mark_read(&mut self, key: Vec<u8>)
        ensures
            final(self).reads@ == old(self).reads@.push(key),
            final(self).writes@ == old(self).writes@,
    {
        self.reads.push(key);
    }

    /// Records that the transaction wrote `key`.
    pub fn mark_write(&mut self, key: Vec<u8>)
        ensures
            final(self).writes@ == old(self).writes@.push(key),
            final(self).reads@ == old(self).reads@,
    {
        self.writes.push(key);
    }

    /// True exactly when a key this transaction read was written by
    /// `other`.
    pub fn has_conflict(&self, other: &ConflictChecker) -> (r: bool)
        ensures
            r == conflicts_with(self, other),
    {
        let nr = self.reads.len();
        let nw = other.writes.len();
        let mut i: usize = 0;
        while i < nr
            invariant
                nr == self.reads@.len(),
                nw == other.writes@.len(),
                0 <= i <= nr,
                forall|a: int, b: int|
                    0 <= a < i && 0 <= b < nw ==> (#[trigger] self.reads@[a]@) != (
                    #[trigger] other.writes@[b]@),
            decreases nr - i,
        {
            let mut j: usize = 0;
            while j < nw
                invariant
                    nr == self.reads@.len(),
                    nw == other.writes@.len(),
                    0 <= i < nr,
                    0 <= j <= nw,
                    forall|b: int| 0 <= b < j ==> (#[trigger] other.writes@[b]@) != self.reads@[
                        i as int
                    ]@,
                decreases nw - j,
            {
                if bytes_eq(&self.reads[i], &other.writes[j]) {
                    return true;
                }
                j = j + 1;
            }
            i = i + 1;
        }
        false
    }
}

} // verus!
