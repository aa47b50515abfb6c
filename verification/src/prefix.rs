//! Prefix reads: one ordered seek that yields, for every user key beginning
//! with the prefix, the newest version visible at the read snapshot —
//! ascending by key, with deletions filtered out. Merging further sources
//! (immutable memtables and segments) is left to the iterator glue around
//! the core.

use vstd::prelude::*;

use crate::memtable::{is_candidate, range_start, entry_key, MemTable};
use crate::value::{
    bytes_eq, bytes_starts_with, copy_bytes, enc_lt, key_model, lemma_enc_total, lemma_lex_total,
    lemma_lex_trans, lemma_prefix_interval, lex_le, lex_lt, starts_with, EncodedKey, KeyModel,
    SeqNo, Value, ValueType,
};

verus! {

/// A pending prefix read: the prefix and the snapshot it runs at.
pub struct Prefix {
    pub prefix: Vec<u8>,
    pub seqno: Option<SeqNo>,
}

impl Prefix {
    pub fn new(prefix: Vec<u8>, seqno: Option<SeqNo>) -> (r: Prefix)
        ensures
            r.prefix@ == prefix@,
            r.seqno == seqno,
    {
        Prefix { prefix, seqno }
    }
}

/// `t` is the newest version of its user key that a seek for `prefix` at
/// snapshot `snap` can see.
pub open spec fn newest_visible(
    m: Map<KeyModel, Seq<u8>>,
    prefix: Seq<u8>,
    snap: Option<SeqNo>,
    t: KeyModel,
) -> bool {
    &&& is_candidate(m, prefix, snap, t)
    &&& forall|t2: KeyModel|
        is_candidate(m, prefix, snap, t2) && t2.0 == t.0 && t2 != t ==> enc_lt(t, t2)
}

/// `a <= b <= c` with `b` different from `c` makes `a` strictly below `c`.
proof fn lemma_lex_le_lt(a: Seq<u8>, b: Seq<u8>, c: Seq<u8>)
    requires
        lex_le(a, b),
        lex_le(b, c),
        b != c,
    ensures
        lex_lt(a, c),
{
    lemma_lex_total(b, c);
    assert(lex_lt(b, c));
    if a == b {
    } else {
        lemma_lex_trans(a, b, c);
    }
}

/// The finished result of a prefix read over one memtable.
pub struct PrefixIterator {
    /// The visible, live entries, ascending by user key.
    pub items: Vec<Value>,
}

impl PrefixIterator {
    /// Runs the prefix read against the given memtable. The result holds,
    /// for each user key beginning with the prefix whose newest visible
    /// version is not a tombstone, exactly that version — in ascending key
    /// order, each key once.
    pub fn new(table: &MemTable, lock: &Prefix) -> (r: PrefixIterator)
        requires
            table.wf(),
        ensures
            forall|a: int, b: int|
                0 <= a < b < r.items@.len() ==> lex_lt(
                    (#[trigger] r.items@[a])@.key,
                    (#[trigger] r.items@[b])@.key,
                ),
            forall|a: int|
                0 <= a < r.items@.len() ==> starts_with(
                    (#[trigger] r.items@[a])@.key,
                    lock.prefix@,
                ),
            forall|a: int|
                0 <= a < r.items@.len() ==> newest_visible(
                    table.model(),
                    lock.prefix@,
                    lock.seqno,
                    entry_key((#[trigger] r.items@[a])@),
                ) && table.model()[entry_key(r.items@[a]@)] == r.items@[a]@.value && r.items@[
                    a
                ]@.value_type == ValueType::Value,
            forall|t: KeyModel|
                #[trigger] newest_visible(table.model(), lock.prefix@, lock.seqno, t) && t.2 == 0
                    ==> exists|a: int| 0 <= a < r.items@.len() && r.items@[a]@.key == t.0,
    {
        let start: EncodedKey = (copy_bytes(&lock.prefix), 0u64, 1u8);
        proof {
            assert(key_model(start) == range_start(lock.prefix@));
        }
        let tail = table.tail_from(start);
        let ghost m = table.model();
        let ghost pfx = lock.prefix@;
        let snap = lock.seqno;
        let n = tail.len();
        let mut items: Vec<Value> = Vec::new();
        let mut last: Option<Vec<u8>> = None;
        let mut i: usize = 0;
        let mut done = false;
        while i < n && !done
            invariant
                table.wf(),
                m == table.model(),
                pfx == lock.prefix@,
                snap == lock.seqno,
                n == tail@.len(),
                0 <= i <= n,
                done ==> i < n && !starts_with(key_model(tail@[i as int].0).0, pfx),
                forall|k: int|
                    0 <= k < n ==> #[trigger] m.contains_pair(key_model(tail@[k].0), tail@[k].1@)
                        && !enc_lt(key_model(tail@[k].0), range_start(pfx)),
                forall|k: int, l: int|
                    0 <= k < l < n ==> enc_lt(key_model(tail@[k].0), key_model(tail@[l].0)),
                forall|t: KeyModel|
                    #[trigger] m.dom().contains(t) && !enc_lt(t, range_start(pfx))
                        ==> exists|k: int| 0 <= k < n && key_model(tail@[k].0) == t,
                // every candidate already passed has a key at or below `last`
                forall|k: int|
                    0 <= k < i && is_candidate(m, pfx, snap, #[trigger] key_model(tail@[k].0))
                        ==> (last matches Some(lk) && lex_le(key_model(tail@[k].0).0, lk@)),
                // `last` was set from an already-passed candidate
                last matches Some(lk) ==> exists|k: int|
                    0 <= k < i && (#[trigger] key_model(tail@[k].0)).0 == lk@ && is_candidate(
                        m,
                        pfx,
                        snap,
                        key_model(tail@[k].0),
                    ),
                // the emitted items are correct and ascending
                forall|a: int, b: int|
                    0 <= a < b < items@.len() ==> lex_lt(
                        (#[trigger] items@[a])@.key,
                        (#[trigger] items@[b])@.key,
                    ),
                forall|a: int|
                    0 <= a < items@.len() ==> newest_visible(
                        m,
                        pfx,
                        snap,
                        entry_key((#[trigger] items@[a])@),
                    ) && m[entry_key(items@[a]@)] == items@[a]@.value && items@[a]@.value_type
                        == ValueType::Value && starts_with(items@[a]@.key, pfx),
                // item keys never exceed `last`
                last is None ==> items@.len() == 0,
                forall|a: int|
                    0 <= a < items@.len() ==> (last matches Some(lk) && lex_le(
                        (#[trigger] items@[a])@.key,
                        lk@,
                    )),
                // keys already decided are complete in the output
                forall|t: KeyModel|
                    #[trigger] newest_visible(m, pfx, snap, t) && t.2 == 0 && (exists|k: int|
                        0 <= k < i && key_model(tail@[k].0) == t) ==> exists|a: int|
                        0 <= a < items@.len() && items@[a]@.key == t.0,
            decreases n - i, (if done { 0int } else { 1int }),
        {
            let e = &tail[i];
            let ghost t = key_model(e.0);
            let ghost last0: Option<Seq<u8>> = match &last {
                Some(lk) => Some(lk@),
                None => None,
            };
            let ghost items0 = items@;
            proof {
                assert(m.contains_pair(key_model(tail@[i as int].0), tail@[i as int].1@));
                if last is Some {
                    // `last` came from an earlier entry, so its key is at
                    // or below the current one
                    let lk = last->Some_0;
                    let kl = choose|k: int|
                        0 <= k < i && (#[trigger] key_model(tail@[k].0)).0 == lk@ && is_candidate(
                            m,
                            pfx,
                            snap,
                            key_model(tail@[k].0),
                        );
                    assert(enc_lt(key_model(tail@[kl].0), key_model(tail@[i as int].0)));
                    assert(lex_le(lk@, t.0));
                }
            }
            if !bytes_starts_with(&e.0.0, &lock.prefix) {
                done = true;
            } else {
                let skip_key = match &last {
                    Some(lk) => bytes_eq(lk, &e.0.0),
                    None => false,
                };
                let visible: bool = match snap {
                    None => true,
                    Some(s) => u64::MAX - e.0.1 < s,
                };
                if !skip_key && visible {
                    proof {
                        assert(is_candidate(m, pfx, snap, t));
                        assert forall|t2: KeyModel|
                            is_candidate(m, pfx, snap, t2) && t2.0 == t.0 && t2 != t
                            implies enc_lt(t, t2) by {
                            let k2 = choose|k2: int| 0 <= k2 < n && key_model(tail@[k2].0) == t2;
                            if k2 < i {
                                // its key would already be recorded in `last`
                                let lk0 = last0->Some_0;
                                assert(lex_le(t2.0, lk0));
                                assert(lex_le(lk0, t.0));
                                assert(lk0 != t.0);
                                lemma_lex_le_lt(t2.0, lk0, t.0);
                                lemma_lex_total(t2.0, t.0);
                                assert(false);
                            } else if k2 == i as int {
                                assert(t2 == t);
                            } else {
                                assert(enc_lt(key_model(tail@[i as int].0), key_model(
                                    tail@[k2].0,
                                )));
                            }
                        }
                        assert(newest_visible(m, pfx, snap, t));
                    }
                    if e.0.2 == 0 {
                        let out = Value {
                            key: copy_bytes(&e.0.0),
                            value: copy_bytes(&e.1),
                            seqno: u64::MAX - e.0.1,
                            value_type: ValueType::Value,
                        };
                        proof {
                            assert(entry_key(out@) == t) by {
                                assert(t.2 == 0);
                            }
                            assert(m[t] == out@.value);
                            assert forall|a: int|
                                0 <= a < items0.len() implies lex_lt(
                                (#[trigger] items0[a])@.key,
                                out@.key,
                            ) by {
                                let lk0 = last0->Some_0;
                                assert(lex_le(items0[a]@.key, lk0));
                                assert(lex_le(lk0, t.0));
                                assert(lk0 != t.0);
                                lemma_lex_le_lt(items0[a]@.key, lk0, t.0);
                            }
                        }
                        items.push(out);
                    }
                    last = Some(copy_bytes(&e.0.0));
                } else {
                    proof {
                        if !visible {
                            assert(!is_candidate(m, pfx, snap, t));
                        } else {
                            // a visible version of this key was already
                            // passed, so this one is not the newest
                            let lk0 = last0->Some_0;
                            assert(t.0 == lk0);
                            let kl = choose|k: int|
                                0 <= k < i && (#[trigger] key_model(tail@[k].0)).0 == lk0
                                    && is_candidate(m, pfx, snap, key_model(tail@[k].0));
                            let t2 = key_model(tail@[kl].0);
                            assert(enc_lt(t2, t));
                            assert(t2 != t) by {
                                if t2 == t {
                                    lemma_enc_total(t, t);
                                }
                            }
                            assert(!newest_visible(m, pfx, snap, t)) by {
                                if newest_visible(m, pfx, snap, t) {
                                    assert(enc_lt(t, t2));
                                    lemma_enc_total(t, t2);
                                }
                            }
                        }
                    }
                }
                proof {
                    // the scan invariants advance by one entry
                    assert forall|k: int|
                        0 <= k < i + 1 && is_candidate(
                            m,
                            pfx,
                            snap,
                            #[trigger] key_model(tail@[k].0),
                        ) implies (last matches Some(lk) && lex_le(
                        key_model(tail@[k].0).0,
                        lk@,
                    )) by {
                        let tk = key_model(tail@[k].0);
                        if k < i {
                            let lk0 = last0->Some_0;
                            assert(lex_le(tk.0, lk0));
                            if !skip_key && visible {
                                assert(last->Some_0@ == t.0);
                                assert(lex_le(lk0, t.0));
                                if tk.0 == lk0 || lk0 == t.0 {
                                } else {
                                    lemma_lex_trans(tk.0, lk0, t.0);
                                }
                            }
                        } else {
                            // the current entry
                            if is_candidate(m, pfx, snap, tk) {
                                if !skip_key && visible {
                                    assert(last->Some_0@ == t.0);
                                } else if skip_key {
                                    assert(tk.0 == last->Some_0@);
                                }
                            }
                        }
                    }
                    assert forall|a: int|
                        0 <= a < items@.len() implies (last matches Some(lk) && lex_le(
                        (#[trigger] items@[a])@.key,
                        lk@,
                    )) by {
                        if !skip_key && visible {
                            if a < items0.len() {
                                let lk0 = last0->Some_0;
                                assert(lex_le(items0[a]@.key, lk0));
                                assert(lex_le(lk0, t.0));
                                if items0[a]@.key == lk0 || lk0 == t.0 {
                                } else {
                                    lemma_lex_trans(items0[a]@.key, lk0, t.0);
                                }
                            }
                        }
                    }
                    assert forall|t3: KeyModel|
                        #[trigger] newest_visible(m, pfx, snap, t3) && t3.2 == 0 && (exists|k: int|
                            0 <= k < i + 1 && key_model(tail@[k].0) == t3) implies exists|a: int|
                        0 <= a < items@.len() && items@[a]@.key == t3.0 by {
                        let k3 = choose|k: int| 0 <= k < i + 1 && key_model(tail@[k].0) == t3;
                        if k3 < i {
                            let a = choose|a: int|
                                0 <= a < items0.len() && items0[a]@.key == t3.0;
                            assert(items@[a]@.key == t3.0);
                        } else {
                            // the current entry is the newest visible one
                            assert(t3 == t);
                            assert(is_candidate(m, pfx, snap, t));
                            assert(!skip_key && visible && t.2 == 0);
                            assert(items@[items@.len() - 1]@.key == t.0);
                        }
                    }
                }
                i = i + 1;
            }
        }
        proof {
            assert forall|t: KeyModel|
                #[trigger] newest_visible(m, pfx, snap, t) && t.2 == 0 implies exists|a: int|
                0 <= a < items@.len() && items@[a]@.key == t.0 by {
                assert(is_candidate(m, pfx, snap, t));
                assert(m.dom().contains(t));
                let k = choose|k: int| 0 <= k < n && key_model(tail@[k].0) == t;
                if k >= i {
                    // the scan stopped early: the key at `i` leaves the
                    // prefix, so nothing at or past it can match it either
                    assert(done);
                    assert(!starts_with(key_model(tail@[i as int].0).0, pfx));
                    let ti = key_model(tail@[i as int].0);
                    assert(m.contains_pair(key_model(tail@[i as int].0), tail@[i as int].1@));
                    assert(lex_le(pfx, ti.0)) by {
                        assert(!enc_lt(ti, range_start(pfx)));
                        lemma_lex_total(ti.0, pfx);
                    }
                    assert(lex_le(ti.0, t.0)) by {
                        if k > i {
                            assert(enc_lt(key_model(tail@[i as int].0), key_model(tail@[k].0)));
                        }
                    }
                    lemma_prefix_interval(pfx, ti.0, t.0);
                    assert(false);
                }
            }
        }
        PrefixIterator { items }
    }

    /// How many entries the read produced.
    pub fn len(&self) -> (r: usize)
        ensures
            r == self.items@.len(),
    {
        self.items.len()
    }
}

} // verus!
