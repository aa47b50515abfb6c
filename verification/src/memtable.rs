//! The memtable: the sorted in-memory write buffer of one partition.
//!
//! Entries live in a lock-free ordered map keyed by the encoded internal key
//! (user key, complemented seqno, kind code), so that one ordered seek to
//! `(key, SeqNo::MAX)` finds the newest version of `key` first.

use vstd::prelude::*;

use crate::value::{
    key_model, lex_le, lex_lt, seqno_of, starts_with, enc_lt, bytes_starts_with, copy_bytes,
    lemma_lex_total, lemma_lex_trans, lemma_prefix_interval, lemma_starts_with_ge, Entry,
    EncodedKey, KeyModel, ParsedInternalKey, SeqNo, Value, ValueType, ENTRY_OVERHEAD,
};

verus! {

/// The lock-free ordered map the memtable stores its entries in.
pub type EntryMap = crossbeam_skiplist::SkipMap<EncodedKey, Vec<u8>>;

/// What an ordered map of encoded keys to value bytes holds.
pub uninterp spec fn skipmap_view(m: EntryMap) -> Map<KeyModel, Seq<u8>>;

/// The empty store of entries.
pub open spec fn no_entries() -> Map<KeyModel, Seq<u8>> {
    Map::empty()
}

#[verifier::external_type_specification]
#[verifier::external_body]
#[verifier::reject_recursive_types(K)]
#[verifier::reject_recursive_types(V)]
pub struct ExSkipMap<K, V>(crossbeam_skiplist::SkipMap<K, V>);

/// Relies on `crossbeam_skiplist::SkipMap::new`: creates an empty map.
#[verifier::external_body]
fn skipmap_new() -> (res: EntryMap)
    ensures
        skipmap_view(res) == no_entries(),
{
    crossbeam_skiplist::SkipMap::new()
}

/// Relies on `crossbeam_skiplist::SkipMap::insert`: inserts the pair,
/// removing any existing entry with an equal key first.
#[verifier::external_body]
fn skipmap_insert(
    m: &mut EntryMap,
    key: EncodedKey,
    value: Vec<u8>,
)
    ensures
        skipmap_view(*final(m)) == skipmap_view(*old(m)).insert(key_model(key), value@),
{
    m.insert(key, value);
}

/// Relies on `crossbeam_skiplist::SkipMap::range`: yields exactly the entries
/// whose key is at least the bound, in ascending key order, where the key
/// order is the standard tuple order (lexicographic bytes, then integer,
/// then integer).
#[verifier::external_body]
fn skipmap_tail(
    m: &EntryMap,
    lo: EncodedKey,
) -> (r: Vec<(EncodedKey, Vec<u8>)>)
    ensures
        forall|i: int|
            0 <= i < r@.len() ==> #[trigger] skipmap_view(*m).contains_pair(
                key_model(r@[i].0),
                r@[i].1@,
            ) && !enc_lt(key_model(r@[i].0), key_model(lo)),
        forall|i: int, j: int|
            0 <= i < j < r@.len() ==> enc_lt(key_model(r@[i].0), key_model(r@[j].0)),
        forall|t: KeyModel|
            #[trigger] skipmap_view(*m).dom().contains(t) && !enc_lt(t, key_model(lo))
                ==> exists|i: int| 0 <= i < r@.len() && key_model(r@[i].0) == t,
{
    let mut out: Vec<(EncodedKey, Vec<u8>)> = Vec::new();
    for e in m.range(lo..) {
        out.push((e.key().clone(), e.value().clone()));
    }
    out
}

/// Where the seek for `prefix` starts: `(prefix, SeqNo::MAX, Tombstone)`
/// in encoded form.
pub open spec fn range_start(prefix: Seq<u8>) -> KeyModel {
    (prefix, 0u64, 1u8)
}

/// An entry of the map that a seek for `prefix` at snapshot `snap` may
/// return: it lies in the seek range, its user key begins with `prefix`,
/// and, when a snapshot is given, it is older than the snapshot.
pub open spec fn is_candidate(
    m: Map<KeyModel, Seq<u8>>,
    prefix: Seq<u8>,
    snap: Option<SeqNo>,
    t: KeyModel,
) -> bool {
    &&& m.dom().contains(t)
    &&& !enc_lt(t, range_start(prefix))
    &&& starts_with(t.0, prefix)
    &&& match snap {
        Some(s) => seqno_of(t) < s,
        None => true,
    }
}

/// The sort key an entry is stored under.
pub open spec fn entry_key(e: Entry) -> KeyModel {
    (e.key, (u64::MAX - e.seqno) as u64, e.value_type.spec_code())
}

/// An entry's contribution to the approximate-size counter, clamped to
/// the counter's width.
pub open spec fn entry_weight(e: Entry) -> u32 {
    if e.key.len() + e.value.len() + ENTRY_OVERHEAD > u32::MAX {
        u32::MAX
    } else {
        (e.key.len() + e.value.len() + ENTRY_OVERHEAD) as u32
    }
}

/// Saturating add on the approximate-size counter.
pub open spec fn sat_add32(a: u32, b: u32) -> u32 {
    if a + b > u32::MAX {
        u32::MAX
    } else {
        (a + b) as u32
    }
}

/// The model of an optional returned entry.
pub open spec fn opt_entry(r: Option<Value>) -> Option<Entry> {
    match r {
        Some(v) => Some(v@),
        None => None,
    }
}

/// What `MemTable::get` returns: `None` exactly when no entry qualifies,
/// otherwise the qualifying entry with the least sort key — the one with the
/// smallest matching user key and, within it, the newest visible version.
pub open spec fn is_lookup_result(
    m: Map<KeyModel, Seq<u8>>,
    prefix: Seq<u8>,
    snap: Option<SeqNo>,
    r: Option<Entry>,
) -> bool {
    match r {
        None => forall|t: KeyModel| !is_candidate(m, prefix, snap, t),
        Some(e) => {
            &&& is_candidate(m, prefix, snap, entry_key(e))
            &&& m[entry_key(e)] == e.value
            &&& forall|t: KeyModel|
                is_candidate(m, prefix, snap, t) && t != entry_key(e) ==> enc_lt(entry_key(e), t)
        },
    }
}

/// Every byte string begins with itself.
pub proof fn lemma_starts_with_refl(k: Seq<u8>)
    ensures
        starts_with(k, k),
{
    assert(k.subrange(0, k.len() as int) =~= k);
}

/// Newest wins: when some version of key `k` is stored (and is not the
/// unreachable `(SeqNo::MAX, Value)` corner of the seek range), a lookup of
/// `k` with no snapshot returns an entry for exactly `k`, carrying the
/// highest stored seqno of `k`.
pub proof fn lemma_memtable_newest_wins(
    m: Map<KeyModel, Seq<u8>>,
    k: Seq<u8>,
    r: Option<Entry>,
)
    requires
        is_lookup_result(m, k, None, r),
        exists|t: KeyModel|
            #[trigger] m.dom().contains(t) && t.0 == k && !(t.1 == 0 && t.2 == 0),
    ensures
        r matches Some(e) && e.key == k && forall|t: KeyModel|
            #[trigger] m.dom().contains(t) && t.0 == k && !(t.1 == 0 && t.2 == 0)
                ==> seqno_of(t) <= e.seqno,
{
    let t0 = choose|t: KeyModel|
        #[trigger] m.dom().contains(t) && t.0 == k && !(t.1 == 0 && t.2 == 0);
    lemma_starts_with_refl(k);
    lemma_lex_total(k, k);
    assert(is_candidate(m, k, None, t0));
    assert(r is Some) by {
        if r is None {
            assert(!is_candidate(m, k, None, t0));
        }
    }
    let e = r->Some_0;
    let ek = entry_key(e);
    assert(e.key == k) by {
        lemma_starts_with_ge(ek.0, k);
        if ek != t0 {
            assert(enc_lt(ek, t0));
            if ek.0 != k {
                assert(lex_lt(ek.0, k));
                lemma_lex_total(k, ek.0);
                if lex_lt(k, ek.0) {
                    lemma_lex_trans(k, ek.0, k);
                    lemma_lex_total(k, k);
                }
            }
        }
    }
    assert forall|t: KeyModel|
        #[trigger] m.dom().contains(t) && t.0 == k && !(t.1 == 0 && t.2 == 0)
            implies seqno_of(t) <= e.seqno by {
        assert(is_candidate(m, k, None, t));
        if t != ek {
            assert(enc_lt(ek, t));
            lemma_lex_total(k, k);
            assert(ek.1 <= t.1);
        }
    }
}

/// Point-in-time read: when key `k` has a version older than the snapshot
/// `snap`, a lookup of `k` at `snap` returns an entry for exactly `k` with
/// the largest stored seqno of `k` that is below `snap`.
pub proof fn lemma_memtable_point_in_time(
    m: Map<KeyModel, Seq<u8>>,
    k: Seq<u8>,
    snap: SeqNo,
    r: Option<Entry>,
)
    requires
        is_lookup_result(m, k, Some(snap), r),
        exists|t: KeyModel| #[trigger] m.dom().contains(t) && t.0 == k && seqno_of(t) < snap,
    ensures
        r matches Some(e) && e.key == k && e.seqno < snap && forall|t: KeyModel|
            #[trigger] m.dom().contains(t) && t.0 == k && seqno_of(t) < snap
                ==> seqno_of(t) <= e.seqno,
{
    let t0 = choose|t: KeyModel|
        #[trigger] m.dom().contains(t) && t.0 == k && seqno_of(t) < snap;
    lemma_starts_with_refl(k);
    lemma_lex_total(k, k);
    assert(!(t0.1 == 0 && t0.2 == 0)) by {
        if t0.1 == 0 {
            assert(seqno_of(t0) == u64::MAX);
        }
    }
    assert(is_candidate(m, k, Some(snap), t0));
    assert(r is Some) by {
        if r is None {
            assert(!is_candidate(m, k, Some(snap), t0));
        }
    }
    let e = r->Some_0;
    let ek = entry_key(e);
    assert(is_candidate(m, k, Some(snap), ek));
    assert(e.key == k) by {
        lemma_starts_with_ge(ek.0, k);
        if ek != t0 {
            assert(enc_lt(ek, t0));
            if ek.0 != k {
                assert(lex_lt(ek.0, k));
                lemma_lex_total(k, ek.0);
                if lex_lt(k, ek.0) {
                    lemma_lex_trans(k, ek.0, k);
                    lemma_lex_total(k, k);
                }
            }
        }
    }
    assert(seqno_of(ek) == e.seqno);
    assert forall|t: KeyModel|
        #[trigger] m.dom().contains(t) && t.0 == k && seqno_of(t) < snap
            implies seqno_of(t) <= e.seqno by {
        assert(!(t.1 == 0 && t.2 == 0)) by {
            if t.1 == 0 {
                assert(seqno_of(t) == u64::MAX);
            }
        }
        assert(is_candidate(m, k, Some(snap), t));
        if t != ek {
            assert(enc_lt(ek, t));
            lemma_lex_total(k, k);
            assert(ek.1 <= t.1);
        }
    }
}

/// Intermediary storage for new items: once it grows too large it is frozen
/// and flushed to disk as a segment. Entries are never removed; a deletion
/// is a new entry with [`ValueType::Tombstone`].
pub struct MemTable {
    items: EntryMap,
    /// Approximate byte size of the buffered entries; never an overcount.
    pub approximate_size: u32,
}

impl MemTable {
    /// The entries currently held, keyed by encoded internal key.
    pub closed spec fn model(&self) -> Map<KeyModel, Seq<u8>> {
        skipmap_view(self.items)
    }

    /// The current value of the approximate-size counter.
    pub closed spec fn spec_approximate_size(&self) -> u32 {
        self.approximate_size
    }

    /// Every stored kind code is one of the two kinds.
    pub open spec fn wf(&self) -> bool {
        forall|t: KeyModel| #[trigger]
            self.model().dom().contains(t) ==> t.2 == 0 || t.2 == 1
    }

    /// Inserts an entry. Entries are keyed by (user key, seqno, kind), so a
    /// new version never displaces an older one.
    pub fn insert(&mut self, entry: Value)
        requires
            old(self).wf(),
        ensures
            final(self).wf(),
            final(self).model() == old(self).model().insert(entry_key(entry@), entry@.value),
            final(self).spec_approximate_size() == sat_add32(
                old(self).spec_approximate_size(),
                entry_weight(entry@),
            ),
    {
        let ghost ev = entry@;
        let sz_kv = entry.key.len().saturating_add(entry.value.len());
        let sz = sz_kv.saturating_add(ENTRY_OVERHEAD);
        let sz32: u32 = if sz > u32::MAX as usize {
            u32::MAX
        } else {
            sz as u32
        };
        self.approximate_size = self.approximate_size.saturating_add(sz32);
        let ghost m0 = self.model();
        let key = ParsedInternalKey::new(entry.key, entry.seqno, entry.value_type);
        skipmap_insert(&mut self.items, key.encode(), entry.value);
        proof {
            let tk = entry_key(ev);
            assert(m0 == old(self).model());
            assert(self.model() == m0.insert(tk, ev.value));
            assert(tk.2 == 0 || tk.2 == 1);
            assert forall|t: KeyModel| #[trigger]
                self.model().dom().contains(t) implies t.2 == 0 || t.2 == 1 by {
                if t != tk {
                    assert(m0.insert(tk, ev.value).dom().contains(t));
                    assert(old(self).model().dom().contains(t));
                }
            }
        }
    }

    /// Returns the first entry, in internal-key order, whose user key begins
    /// with `key` — and, when `seqno` is given, whose seqno is strictly
    /// below it. For an exact key this is the newest visible version.
    pub fn get(&self, key: &Vec<u8>, seqno: Option<SeqNo>) -> (r: Option<Value>)
        requires
            self.wf(),
        ensures
            is_lookup_result(self.model(), key@, seqno, opt_entry(r)),
    {
        let start: EncodedKey = (copy_bytes(key), 0u64, 1u8);
        proof {
            assert(key_model(start) == range_start(key@));
        }
        let tail = skipmap_tail(&self.items, start);
        let ghost m = self.model();
        let ghost pfx = key@;
        let n = tail.len();
        let mut i: usize = 0;
        while i < n
            invariant
                self.wf(),
                m == self.model(),
                pfx == key@,
                n == tail@.len(),
                0 <= i <= n,
                forall|k: int|
                    0 <= k < n ==> #[trigger] m.contains_pair(key_model(tail@[k].0), tail@[k].1@)
                        && !enc_lt(key_model(tail@[k].0), range_start(pfx)),
                forall|k: int, l: int|
                    0 <= k < l < n ==> enc_lt(key_model(tail@[k].0), key_model(tail@[l].0)),
                forall|t: KeyModel|
                    #[trigger] m.dom().contains(t) && !enc_lt(t, range_start(pfx))
                        ==> exists|k: int| 0 <= k < n && key_model(tail@[k].0) == t,
                forall|k: int| 0 <= k < i ==> !is_candidate(m, pfx, seqno, key_model(tail@[k].0)),
            decreases n - i,
        {
            let e = &tail[i];
            let ghost t = key_model(e.0);
            if !bytes_starts_with(&e.0.0, key) {
                proof {
                    assert forall|t2: KeyModel| !is_candidate(m, pfx, seqno, t2) by {
                        if is_candidate(m, pfx, seqno, t2) {
                            let k = choose|k: int|
                                0 <= k < n && key_model(tail@[k].0) == t2;
                            if k < i {
                                assert(!is_candidate(m, pfx, seqno, key_model(tail@[k].0)));
                            } else if k == i as int {
                                assert(starts_with(t.0, pfx));
                            } else {
                                // entries are sorted, so the key here lies between the
                                // prefix and a key that begins with it
                                assert(m.contains_pair(
                                    key_model(tail@[i as int].0),
                                    tail@[i as int].1@,
                                ));
                                assert(enc_lt(t, t2));
                                assert(!enc_lt(t, range_start(pfx)));
                                assert(lex_le(pfx, t.0)) by {
                                    lemma_lex_total(t.0, pfx);
                                }
                                assert(lex_le(t.0, t2.0));
                                lemma_prefix_interval(pfx, t.0, t2.0);
                            }
                        }
                    }
                    assert(is_lookup_result(self.model(), key@, seqno, opt_entry(None::<Value>)));
                }
                return None;
            }
            let visible: bool = match seqno {
                None => true,
                Some(s) => u64::MAX - e.0.1 < s,
            };
            if visible {
                let vt = if e.0.2 == 0 {
                    ValueType::Value
                } else {
                    ValueType::Tombstone
                };
                proof {
                    assert(m.contains_pair(key_model(tail@[i as int].0), tail@[i as int].1@));
                    assert(m.dom().contains(t));
                    assert(t.2 == 0 || t.2 == 1);
                    assert(vt.spec_code() == t.2);
                }
                let out = Value {
                    key: copy_bytes(&e.0.0),
                    value: copy_bytes(&e.1),
                    seqno: u64::MAX - e.0.1,
                    value_type: vt,
                };
                proof {
                    assert(entry_key(out@) == t);
                    assert(is_candidate(m, pfx, seqno, t));
                    assert(m[t] == out@.value) by {
                        assert(m.contains_pair(key_model(tail@[i as int].0), tail@[i as int].1@));
                    }
                    assert forall|t2: KeyModel|
                        is_candidate(m, pfx, seqno, t2) && t2 != t implies enc_lt(t, t2) by {
                        let k = choose|k: int| 0 <= k < n && key_model(tail@[k].0) == t2;
                        if k < i {
                            assert(!is_candidate(m, pfx, seqno, key_model(tail@[k].0)));
                        } else if k == i as int {
                            assert(t2 == t);
                        } else {
                            assert(enc_lt(key_model(tail@[i as int].0), key_model(tail@[k].0)));
                        }
                    }
                    assert(is_lookup_result(self.model(), key@, seqno, opt_entry(Some(out))));
                }
                return Some(out);
            }
            proof {
                assert(!is_candidate(m, pfx, seqno, t));
            }
            i = i + 1;
        }
        proof {
            assert forall|t2: KeyModel| !is_candidate(m, pfx, seqno, t2) by {
                if is_candidate(m, pfx, seqno, t2) {
                    let k = choose|k: int| 0 <= k < n && key_model(tail@[k].0) == t2;
                    assert(!is_candidate(m, pfx, seqno, key_model(tail@[k].0)));
                }
            }
            assert(is_lookup_result(self.model(), key@, seqno, opt_entry(None::<Value>)));
        }
        None
    }

    /// The entries at or after `lo` in encoded-key order, for the range
    /// and prefix readers.
    pub(crate) fn tail_from(&self, lo: EncodedKey) -> (r: Vec<(EncodedKey, Vec<u8>)>)
        ensures
            forall|i: int|
                0 <= i < r@.len() ==> #[trigger] self.model().contains_pair(
                    key_model(r@[i].0),
                    r@[i].1@,
                ) && !enc_lt(key_model(r@[i].0), key_model(lo)),
            forall|i: int, j: int|
                0 <= i < j < r@.len() ==> enc_lt(key_model(r@[i].0), key_model(r@[j].0)),
            forall|t: KeyModel|
                #[trigger] self.model().dom().contains(t) && !enc_lt(t, key_model(lo))
                    ==> exists|i: int| 0 <= i < r@.len() && key_model(r@[i].0) == t,
    {
        skipmap_tail(&self.items, lo)
    }

    /// The seqno a recovered counter should resume at: the highest seqno in
    /// the table plus one, or zero when the table is empty.
    pub fn get_next_seqno(&self) -> (r: SeqNo)
        requires
            self.wf(),
            forall|t: KeyModel| #[trigger]
                self.model().dom().contains(t) ==> seqno_of(t) < u64::MAX,
        ensures
            self.model().dom() == Set::<KeyModel>::empty() ==> r == 0,
            self.model().dom() != Set::<KeyModel>::empty() ==> exists|t: KeyModel|
                #[trigger] self.model().dom().contains(t) && r == seqno_of(t) + 1,
            forall|t: KeyModel| #[trigger]
                self.model().dom().contains(t) ==> seqno_of(t) < r,
    {
        let start: EncodedKey = (Vec::new(), 0u64, 0u8);
        proof {
            assert forall|t: KeyModel| !enc_lt(t, key_model(start)) by {
                assert(!lex_lt(t.0, Seq::<u8>::empty()));
            }
        }
        let tail = skipmap_tail(&self.items, start);
        let ghost m = self.model();
        let n = tail.len();
        let mut next: u64 = 0;
        let mut i: usize = 0;
        while i < n
            invariant
                self.wf(),
                m == self.model(),
                n == tail@.len(),
                0 <= i <= n,
                forall|t: KeyModel| #[trigger] m.dom().contains(t) ==> seqno_of(t) < u64::MAX,
                forall|k: int|
                    0 <= k < n ==> #[trigger] m.contains_pair(key_model(tail@[k].0), tail@[k].1@),
                forall|t: KeyModel|
                    #[trigger] m.dom().contains(t) ==> exists|k: int|
                        0 <= k < n && key_model(tail@[k].0) == t,
                next == 0 ==> i == 0,
                next > 0 ==> exists|k: int|
                    0 <= k < i && next == seqno_of(#[trigger] key_model(tail@[k].0)) + 1,
                forall|k: int| 0 <= k < i ==> seqno_of(#[trigger] key_model(tail@[k].0)) < next,
            decreases n - i,
        {
            let e = &tail[i];
            let es: u64 = u64::MAX - e.0.1;
            proof {
                assert(m.contains_pair(key_model(tail@[i as int].0), tail@[i as int].1@));
                assert(m.dom().contains(key_model(tail@[i as int].0)));
                assert(es == seqno_of(key_model(tail@[i as int].0)));
                assert(es < u64::MAX);
            }
            if es + 1 > next {
                next = es + 1;
            }
            i = i + 1;
        }
        proof {
            if n == 0 {
                assert forall|t: KeyModel| !(#[trigger] m.dom().contains(t)) by {
                    if m.dom().contains(t) {
                        let k = choose|k: int| 0 <= k < n && key_model(tail@[k].0) == t;
                    }
                }
                assert(m.dom() =~= Set::<KeyModel>::empty());
            } else {
                assert(next > 0);
                assert(m.contains_pair(key_model(tail@[0].0), tail@[0].1@));
                assert(m.dom().contains(key_model(tail@[0].0)));
                let k = choose|k: int|
                    0 <= k < i && next == seqno_of(#[trigger] key_model(tail@[k].0)) + 1;
                assert(m.contains_pair(key_model(tail@[k].0), tail@[k].1@));
                assert(m.dom().contains(key_model(tail@[k].0)));
                assert(m.dom().contains(key_model(tail@[k].0)) && next == seqno_of(
                    key_model(tail@[k].0),
                ) + 1);
            }
            assert forall|t: KeyModel| #[trigger] m.dom().contains(t) implies seqno_of(t) < next by {
                let k = choose|k: int| 0 <= k < n && key_model(tail@[k].0) == t;
                assert(seqno_of(key_model(tail@[k].0)) < next);
            }
        }
        next
    }
}

impl Default for MemTable {
    /// An empty memtable.
    fn default() -> (r: MemTable)
        ensures
            r.wf(),
            r.model() == Map::<KeyModel, Seq<u8>>::empty(),
            r.spec_approximate_size() == 0,
    {
        MemTable { items: skipmap_new(), approximate_size: 0 }
    }
}

} // verus!
