//! The snapshot tracker: reference counts of open read instants and a
//! monotonic "safe to garbage-collect below" watermark, kept a safety gap
//! behind the newest freed instants.

use vstd::prelude::*;

use crate::value::Instant;

verus! {

/// The concurrent map the tracker keeps its reference counts in.
pub type CountMap = dashmap::DashMap<
    u64,
    usize,
    std::hash::BuildHasherDefault<ahash::AHasher>,
>;

/// What a count map holds.
pub uninterp spec fn count_map_view(m: CountMap) -> Map<u64, usize>;

#[verifier::external_type_specification]
#[verifier::external_body]
pub struct ExAHasher(ahash::AHasher);

#[verifier::external_type_specification]
#[verifier::external_body]
#[verifier::reject_recursive_types(H)]
pub struct ExBuildHasherDefault<H>(std::hash::BuildHasherDefault<H>);

#[verifier::external_type_specification]
#[verifier::external_body]
#[verifier::reject_recursive_types(K)]
#[verifier::reject_recursive_types(V)]
#[verifier::reject_recursive_types(S)]
pub struct ExDashMap<K, V, S>(dashmap::DashMap<K, V, S>);

/// The empty count map.
pub open spec fn no_counts() -> Map<u64, usize> {
    Map::empty()
}

/// Relies on `dashmap::DashMap::default`: an empty map.
#[verifier::external_body]
fn dm_new() -> (res: CountMap)
    ensures
        count_map_view(res) == no_counts(),
{
    dashmap::DashMap::default()
}

/// Relies on `dashmap::DashMap::get`: the value stored under the key, if
/// any.
#[verifier::external_body]
fn dm_get(m: &CountMap, k: u64) -> (r: Option<usize>)
    ensures
        r == if count_map_view(*m).dom().contains(k) {
            Some(count_map_view(*m)[k])
        } else {
            None::<usize>
        },
{
    m.get(&k).map(|v| *v)
}

/// Relies on `dashmap::DashMap::insert`: maps the key to the value,
/// replacing any previous value.
#[verifier::external_body]
fn dm_insert(m: &mut CountMap, k: u64, v: usize)
    ensures
        count_map_view(*final(m)) == count_map_view(*old(m)).insert(k, v),
{
    m.insert(k, v);
}

/// Relies on `dashmap::DashMap::remove`: drops the key's entry, if any.
#[verifier::external_body]
fn dm_remove(m: &mut CountMap, k: u64)
    ensures
        count_map_view(*final(m)) == count_map_view(*old(m)).remove(k),
{
    m.remove(&k);
}

/// Relies on `dashmap::DashMap::iter`: visits every entry exactly once, in
/// no particular order.
#[verifier::external_body]
fn dm_pairs(m: &CountMap) -> (r: Vec<(u64, usize)>)
    ensures
        forall|i: int|
            0 <= i < r@.len() ==> #[trigger] count_map_view(*m).contains_pair(
                r@[i].0,
                r@[i].1,
            ),
        forall|i: int, j: int| 0 <= i < j < r@.len() ==> r@[i].0 != r@[j].0,
        forall|k: u64|
            #[trigger] count_map_view(*m).dom().contains(k) ==> exists|i: int|
                0 <= i < r@.len() && r@[i].0 == k,
{
    m.iter().map(|e| (*e.key(), *e.value())).collect()
}

/// A count-map entry that survives a garbage collection at `threshold`:
/// it is still referenced, or it is newer than the threshold.
pub open spec fn retained(m: Map<u64, usize>, threshold: u64, k: u64) -> bool {
    m.dom().contains(k) && (m[k] > 0 || k > threshold)
}

/// `k` is the smallest retained instant.
pub open spec fn is_min_retained(m: Map<u64, usize>, threshold: u64, k: u64) -> bool {
    retained(m, threshold, k) && forall|k2: u64| retained(m, threshold, k2) ==> k <= k2
}

/// Keeps track of open snapshots and of the seqno below which no live or
/// future reader can observe anything.
pub struct SnapshotTrackerInner {
    /// Reference count per open read instant. Private: the map is interior
    /// mutable, and every change must go through the tracked operations.
    data: CountMap,
    /// Slack window kept between the newest freed instants and the
    /// published watermark.
    pub safety_gap: u64,
    /// The published watermark; never moves backward.
    pub lowest_freed_instant: Instant,
}

impl SnapshotTrackerInner {
    /// The tracked reference counts.
    pub closed spec fn model(&self) -> Map<u64, usize> {
        count_map_view(self.data)
    }

    /// The configured safety gap.
    pub closed spec fn spec_gap(&self) -> u64 {
        self.safety_gap
    }

    /// The published watermark.
    pub closed spec fn spec_watermark(&self) -> Instant {
        self.lowest_freed_instant
    }

    /// Registers one more reader at `seqno`.
    pub fn open(&mut self, seqno: Instant)
        requires
            old(self).model().dom().contains(seqno) ==> old(self).model()[seqno] < usize::MAX,
        ensures
            final(self).model() == old(self).model().insert(
                seqno,
                if old(self).model().dom().contains(seqno) {
                    (old(self).model()[seqno] + 1) as usize
                } else {
                    1usize
                },
            ),
            final(self).spec_gap() == old(self).spec_gap(),
            final(self).spec_watermark() == old(self).spec_watermark(),
    {
        let cur = dm_get(&self.data, seqno);
        match cur {
            Some(v) => dm_insert(&mut self.data, seqno, v + 1),
            None => dm_insert(&mut self.data, seqno, 1),
        }
    }

    /// Releases one reader at `seqno`; every `safety_gap`-th instant also
    /// runs a garbage collection. The watermark never moves backward.
    pub fn close(&mut self, seqno: Instant)
        requires
            old(self).model().dom().contains(seqno) ==> old(self).model()[seqno] >= 1,
            old(self).spec_gap() > 0,
            seqno % old(self).spec_gap() == 0 ==> seqno >= old(self).spec_gap(),
        ensures
            final(self).spec_gap() == old(self).spec_gap(),
            final(self).spec_watermark() >= old(self).spec_watermark(),
            close_effect(
                old(self).model(),
                old(self).spec_watermark(),
                old(self).spec_gap(),
                seqno,
                final(self).model(),
                final(self).spec_watermark(),
            ),
    {
        let cur = dm_get(&self.data, seqno);
        match cur {
            Some(v) => dm_insert(&mut self.data, seqno, v - 1),
            None => (),
        }
        proof {
            assert(self.model() =~= decremented(old(self).model(), seqno));
        }
        if seqno % self.safety_gap == 0 {
            self.gc(seqno);
        }
    }

    /// The seqno at or below which no live reader exists and no future
    /// reader will be issued.
    pub fn get_seqno_safe_to_gc(&self) -> (r: Instant)
        ensures
            r == self.spec_watermark(),
    {
        self.lowest_freed_instant
    }

    /// Garbage collection: drops entries that are unreferenced and at or
    /// below `watermark - safety_gap`, then raises the watermark to just
    /// under the lowest retained instant — never lowering it.
    pub fn gc(&mut self, watermark: Instant)
        requires
            watermark >= old(self).spec_gap(),
        ensures
            final(self).spec_gap() == old(self).spec_gap(),
            final(self).spec_watermark() >= old(self).spec_watermark(),
            gc_effect(
                old(self).model(),
                old(self).spec_watermark(),
                old(self).spec_gap(),
                watermark,
                final(self).model(),
                final(self).spec_watermark(),
            ),
    {
        let threshold = watermark - self.safety_gap;
        let ghost m0 = self.model();
        let pairs = dm_pairs(&self.data);
        let n = pairs.len();
        let mut lowest: Option<u64> = None;
        let mut i: usize = 0;
        while i < n
            invariant
                n == pairs@.len(),
                0 <= i <= n,
                m0 == count_map_view(self.data),
                forall|j: int| 0 <= j < n ==> #[trigger] m0.contains_pair(pairs@[j].0, pairs@[j].1),
                forall|j: int, l: int| 0 <= j < l < n ==> pairs@[j].0 != pairs@[l].0,
                forall|k: u64|
                    #[trigger] m0.dom().contains(k) ==> exists|j: int|
                        0 <= j < n && pairs@[j].0 == k,
                lowest is None ==> forall|j: int|
                    0 <= j < i ==> !retained(m0, threshold, (#[trigger] pairs@[j].0)),
                lowest matches Some(lo) ==> retained(m0, threshold, lo) && (forall|j: int|
                    0 <= j < i && retained(m0, threshold, (#[trigger] pairs@[j].0)) ==> lo
                        <= pairs@[j].0) && (exists|j: int| 0 <= j < i && pairs@[j].0 == lo),
            decreases n - i,
        {
            let p = &pairs[i];
            let keep = p.1 > 0 || p.0 > threshold;
            proof {
                assert(m0.contains_pair(pairs@[i as int].0, pairs@[i as int].1));
                assert(keep == retained(m0, threshold, p.0));
            }
            if keep {
                lowest = match lowest {
                    None => Some(p.0),
                    Some(lo) => if p.0 < lo {
                        Some(p.0)
                    } else {
                        Some(lo)
                    },
                };
            }
            i = i + 1;
        }
        // second pass: drop what is not retained
        let mut j: usize = 0;
        while j < n
            invariant
                n == pairs@.len(),
                0 <= j <= n,
                self.safety_gap == old(self).safety_gap,
                self.lowest_freed_instant == old(self).lowest_freed_instant,
                m0 == old(self).model(),
                forall|l: int, l2: int| 0 <= l < l2 < n ==> pairs@[l].0 != pairs@[l2].0,
                forall|l: int| 0 <= l < n ==> #[trigger] m0.contains_pair(pairs@[l].0, pairs@[l].1),
                forall|k: u64|
                    #[trigger] count_map_view(self.data).dom().contains(k) <==> m0.dom().contains(
                        k,
                    ) && !(exists|l: int|
                        0 <= l < j && (#[trigger] pairs@[l].0) == k && !retained(
                            m0,
                            threshold,
                            k,
                        )),
                forall|k: u64|
                    #[trigger] count_map_view(self.data).dom().contains(k) ==> count_map_view(
                        self.data,
                    )[k] == m0[k],
            decreases n - j,
        {
            let p = &pairs[j];
            let keep = p.1 > 0 || p.0 > threshold;
            proof {
                assert(m0.contains_pair(pairs@[j as int].0, pairs@[j as int].1));
            }
            if !keep {
                dm_remove(&mut self.data, p.0);
            }
            j = j + 1;
        }
        proof {
            assert forall|k: u64|
                count_map_view(self.data).dom().contains(k) <==> retained(m0, threshold, k) by {
                if m0.dom().contains(k) {
                    let l = choose|l: int| 0 <= l < n && pairs@[l].0 == k;
                    if !retained(m0, threshold, k) {
                        assert(0 <= l < n && pairs@[l].0 == k && !retained(m0, threshold, k));
                    }
                }
            }
        }
        let lowest_retained: u64 = match lowest {
            Some(lo) => lo,
            None => 0,
        };
        proof {
            if lowest is Some {
                let lo = lowest->Some_0;
                assert forall|k2: u64| retained(m0, threshold, k2) implies lo <= k2 by {
                    let l = choose|l: int| 0 <= l < n && pairs@[l].0 == k2;
                    assert(retained(m0, threshold, pairs@[l].0));
                }
                assert(is_min_retained(m0, threshold, lo));
            } else {
                assert forall|k: u64| !retained(m0, threshold, k) by {
                    if m0.dom().contains(k) {
                        let l = choose|l: int| 0 <= l < n && pairs@[l].0 == k;
                        assert(!retained(m0, threshold, pairs@[l].0));
                    }
                }
            }
            assert forall|k: u64| #[trigger] is_min_retained(m0, threshold, k) implies (
            lowest matches Some(lo) && lo == k) by {
                if lowest is None {
                    assert(!retained(m0, threshold, k));
                } else {
                    let lo = lowest->Some_0;
                    assert(is_min_retained(m0, threshold, lo));
                    assert(k <= lo && lo <= k);
                }
            }
        }
        let floor = if lowest_retained == 0 {
            0
        } else {
            lowest_retained - 1
        };
        if floor > self.lowest_freed_instant {
            self.lowest_freed_instant = floor;
        }
    }
}

/// `max` of two instants.
pub open spec fn spec_max(a: u64, b: u64) -> u64 {
    if a >= b {
        a
    } else {
        b
    }
}

/// The counts after one reader at `seqno` is released: untouched when the
/// instant is unknown.
pub open spec fn decremented(m: Map<u64, usize>, seqno: u64) -> Map<u64, usize> {
    if m.dom().contains(seqno) {
        m.insert(seqno, (m[seqno] - 1) as usize)
    } else {
        m
    }
}

impl Default for SnapshotTrackerInner {
    /// A tracker with no open snapshots and the default safety gap.
    fn default() -> (r: SnapshotTrackerInner)
        ensures
            r.model() == no_counts(),
            r.spec_gap() == 100,
            r.spec_watermark() == 0,
    {
        SnapshotTrackerInner { data: dm_new(), safety_gap: 100, lowest_freed_instant: 0 }
    }
}

/// What one garbage collection at `watermark` does, given the counts `m0`
/// and the published watermark `w0` beforehand: entries survive exactly
/// when still referenced or above `watermark - gap`, surviving counts keep
/// their values, and the watermark rises to just under the lowest survivor
/// (staying put when nothing survives), never falling.
pub open spec fn gc_effect(
    m0: Map<u64, usize>,
    w0: u64,
    gap: u64,
    watermark: u64,
    post_m: Map<u64, usize>,
    post_w: u64,
) -> bool
    recommends
        watermark >= gap,
{
    let thr = (watermark - gap) as u64;
    &&& post_w >= w0
    &&& (forall|k: u64| post_m.dom().contains(k) <==> retained(m0, thr, k))
    &&& (forall|k: u64| #[trigger] post_m.dom().contains(k) ==> post_m[k] == m0[k])
    &&& ((forall|k: u64| !(#[trigger] retained(m0, thr, k))) ==> post_w == w0)
    &&& (forall|k: u64|
        #[trigger] is_min_retained(m0, thr, k) ==> post_w == spec_max(
            w0,
            (if k == 0 {
                0u64
            } else {
                (k - 1) as u64
            }),
        ))
}

/// What one `close(seqno)` does: the reader's count drops, and on every
/// `gap`-th instant a garbage collection at `seqno` follows.
pub open spec fn close_effect(
    m0: Map<u64, usize>,
    w0: u64,
    gap: u64,
    seqno: u64,
    post_m: Map<u64, usize>,
    post_w: u64,
) -> bool
    recommends
        gap > 0,
{
    if seqno % gap != 0 {
        post_m == decremented(m0, seqno) && post_w == w0
    } else {
        gc_effect(decremented(m0, seqno), w0, gap, seqno, post_m, post_w)
    }
}

/// Watermark correctness: once every snapshot at or below `s` is closed, a
/// garbage collection whose watermark is at least `s + safety_gap` leaves
/// the published watermark no lower than `s - safety_gap` — provided some
/// instant survives the collection (with nothing retained the watermark
/// merely keeps its old value).
pub proof fn lemma_watermark_correct(
    m: Map<u64, usize>,
    gap: u64,
    w: u64,
    s: u64,
    old_low: u64,
    post_m: Map<u64, usize>,
    new_low: u64,
)
    requires
        w >= gap,
        w >= s + gap,
        forall|k: u64| #[trigger] m.dom().contains(k) && k <= s ==> m[k] == 0,
        exists|k: u64| #[trigger] retained(m, (w - gap) as u64, k),
        gc_effect(m, old_low, gap, w, post_m, new_low),
    ensures
        new_low >= s - gap,
        new_low >= s,
{
    let thr = (w - gap) as u64;
    // every retained instant lies above s, so the smallest one does too
    assert forall|k: u64| #[trigger] retained(m, thr, k) implies k > s by {
        if k <= s {
            assert(m[k] == 0);
            assert(k > thr);
            assert(thr >= s);
        }
    }
    let k0 = choose|k: u64| #[trigger] retained(m, thr, k);
    let km = min_retained_exists(m, thr, k0);
    assert(is_min_retained(m, thr, km));
    assert(km > s);
    assert(new_low == spec_max(old_low, (km - 1) as u64));
}

/// A nonempty retained set has a least element (found by descending from
/// any retained instant).
pub proof fn min_retained_exists(m: Map<u64, usize>, thr: u64, k0: u64) -> (km: u64)
    requires
        retained(m, thr, k0),
    ensures
        is_min_retained(m, thr, km),
        km <= k0,
    decreases k0,
{
    if forall|k2: u64| retained(m, thr, k2) ==> k0 <= k2 {
        k0
    } else {
        let k1 = choose|k2: u64| retained(m, thr, k2) && !(k0 <= k2);
        assert(retained(m, thr, k1) && k1 < k0);
        let km = min_retained_exists(m, thr, k1);
        km
    }
}

} // verus!
