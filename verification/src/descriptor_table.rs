//! The file-descriptor table: a bounded pool of reusable open file handles
//! shared across reader threads, with least-recently-used eviction over
//! segment ids. The table tracks each descriptor's in-use flag and hands
//! out guards; the embedding program pairs each (id, epoch, slot) with a
//! real open file.

use vstd::prelude::*;

use crate::value::{bytes_eq, copy_bytes};

verus! {

/// A least-recently-used list of segment ids; the front is the oldest.
/// Reporting the victim also rotates it to the back, so the oldest entry is
/// reconsidered on the next pass.
pub struct LruList {
    pub items: Vec<Vec<u8>>,
}

/// The ids in the list, oldest first.
pub open spec fn lru_model(l: LruList) -> Seq<Seq<u8>> {
    l.items@.map_values(|v: Vec<u8>| v@)
}

/// `s` with every occurrence of `k` removed.
pub open spec fn without(s: Seq<Seq<u8>>, k: Seq<u8>) -> Seq<Seq<u8>>
    decreases s.len(),
{
    if s.len() == 0 {
        Seq::empty()
    } else if s[0] == k {
        without(s.skip(1), k)
    } else {
        seq![s[0]] + without(s.skip(1), k)
    }
}

pub proof fn lemma_without_push(s: Seq<Seq<u8>>, k: Seq<u8>, x: Seq<u8>)
    ensures
        without(s.push(x), k) == if x == k {
            without(s, k)
        } else {
            without(s, k).push(x)
        },
    decreases s.len(),
{
    let p = s.push(x);
    assert(p.len() > 0);
    if s.len() == 0 {
        assert(p[0] == x);
        assert(p.skip(1) =~= Seq::<Seq<u8>>::empty());
        assert(without(p.skip(1), k) == Seq::<Seq<u8>>::empty());
        assert(without(s, k) == Seq::<Seq<u8>>::empty());
        if x != k {
            assert(without(p, k) =~= without(s, k).push(x));
        }
    } else {
        assert(p[0] == s[0]);
        assert(p.skip(1) =~= s.skip(1).push(x));
        lemma_without_push(s.skip(1), k, x);
        if s[0] != k && x != k {
            assert(without(p, k) =~= without(s, k).push(x));
        }
    }
}

impl LruList {
    /// Drops every occurrence of `item`.
    pub fn remove(&mut self, item: &Vec<u8>)
        ensures
            lru_model(*final(self)) == without(lru_model(*old(self)), item@),
    {
        let n = self.items.len();
        let mut kept: Vec<Vec<u8>> = Vec::new();
        let mut i: usize = 0;
        while i < n
            invariant
                n == self.items@.len(),
                0 <= i <= n,
                self.items@ == old(self).items@,
                lru_model(LruList { items: kept }) == without(
                    lru_model(*old(self)).take(i as int),
                    item@,
                ),
            decreases n - i,
        {
            let ghost pre = lru_model(LruList { items: kept });
            let ghost m = lru_model(*old(self));
            if !bytes_eq(&self.items[i], item) {
                kept.push(copy_bytes(&self.items[i]));
            }
            proof {
                assert(m.take(i + 1) =~= m.take(i as int).push(m[i as int]));
                lemma_without_push(m.take(i as int), item@, m[i as int]);
                assert(m[i as int] == self.items@[i as int]@);
                if m[i as int] != item@ {
                    assert(lru_model(LruList { items: kept }) =~= pre.push(m[i as int]));
                }
            }
            i = i + 1;
        }
        self.items = kept;
        proof {
            assert(lru_model(*old(self)).take(n as int) =~= lru_model(*old(self)));
        }
    }

    /// Moves `item` to the back (the most recently used spot).
    pub fn refresh(&mut self, item: Vec<u8>)
        ensures
            lru_model(*final(self)) == without(lru_model(*old(self)), item@).push(item@),
    {
        self.remove(&item);
        let ghost mid = lru_model(*self);
        self.items.push(item);
        proof {
            assert(lru_model(*self) =~= mid.push(item@));
        }
    }

    /// Reports the oldest id — and rotates it to the back, so eviction is a
    /// rotation, not a removal.
    pub fn get_least_recently_used(&mut self) -> (r: Option<Vec<u8>>)
        ensures
            lru_model(*old(self)).len() == 0 ==> r is None && lru_model(*final(self)) == lru_model(
                *old(self),
            ),
            lru_model(*old(self)).len() > 0 ==> (r matches Some(v) && v@ == lru_model(
                *old(self),
            )[0] && lru_model(*final(self)) == without(
                lru_model(*old(self)).skip(1),
                v@,
            ).push(v@)),
    {
        if self.items.len() == 0 {
            return None;
        }
        let front = self.items.remove(0);
        proof {
            assert(lru_model(*self) =~= lru_model(*old(self)).skip(1));
        }
        let out = copy_bytes(&front);
        self.refresh(front);
        Some(out)
    }
}

impl Default for LruList {
    /// An empty list.
    fn default() -> (r: LruList)
        ensures
            lru_model(r).len() == 0,
    {
        LruList { items: Vec::new() }
    }
}

/// The identity of one pooled descriptor: which segment, which incarnation
/// of its pool, and which slot of it.
#[derive(Debug)]
pub struct FileDescriptorWrapper {
    pub id: Vec<u8>,
    pub epoch: u64,
    pub slot: usize,
}

/// Exclusive use of one pooled descriptor. Hand it back with
/// [`FileDescriptorTable::release`].
#[derive(Debug)]
pub struct FileGuard {
    pub fd: FileDescriptorWrapper,
}

/// The descriptor pool of one segment. `epoch` counts the times the pool
/// has been (re)created, so descriptors of dropped pools are never confused
/// with their successors.
#[derive(Debug)]
pub struct FileHandle {
    pub descriptors: Vec<bool>,
    pub path: Vec<u8>,
    pub epoch: u64,
}

pub struct FileDescriptorTableInner {
    pub table: Vec<(Vec<u8>, FileHandle)>,
    pub lru: LruList,
    pub size: usize,
}

/// Bounded pool of open file handles: at most `limit` handles in total
/// (best effort, via LRU eviction), `concurrency` per segment.
pub struct FileDescriptorTable {
    pub inner: FileDescriptorTableInner,
    pub concurrency: usize,
    pub limit: usize,
}

/// Total number of open descriptors over all pools.
pub open spec fn pools_total(t: Seq<(Vec<u8>, FileHandle)>) -> int
    decreases t.len(),
{
    if t.len() == 0 {
        0int
    } else {
        t[0].1.descriptors@.len() + pools_total(t.skip(1))
    }
}

pub proof fn lemma_pools_total_update(t: Seq<(Vec<u8>, FileHandle)>, i: int, e: (Vec<u8>, FileHandle))
    requires
        0 <= i < t.len(),
    ensures
        pools_total(t.update(i, e)) == pools_total(t) - t[i].1.descriptors@.len()
            + e.1.descriptors@.len(),
    decreases t.len(),
{
    let u = t.update(i, e);
    assert(u.len() == t.len());
    if i == 0 {
        assert(u[0] == e);
        assert(u.skip(1) =~= t.skip(1));
    } else {
        assert(u[0] == t[0]);
        assert(u.skip(1) =~= t.skip(1).update(i - 1, e));
        lemma_pools_total_update(t.skip(1), i - 1, e);
    }
}

pub proof fn lemma_pools_total_remove(t: Seq<(Vec<u8>, FileHandle)>, i: int)
    requires
        0 <= i < t.len(),
    ensures
        pools_total(t.remove(i)) == pools_total(t) - t[i].1.descriptors@.len(),
    decreases t.len(),
{
    let u = t.remove(i);
    if i == 0 {
        assert(u =~= t.skip(1));
    } else {
        assert(u[0] == t[0]);
        assert(u.skip(1) =~= t.skip(1).remove(i - 1));
        lemma_pools_total_remove(t.skip(1), i - 1);
    }
}

pub proof fn lemma_pools_total_push(t: Seq<(Vec<u8>, FileHandle)>, e: (Vec<u8>, FileHandle))
    ensures
        pools_total(t.push(e)) == pools_total(t) + e.1.descriptors@.len(),
    decreases t.len(),
{
    let p = t.push(e);
    assert(p.len() > 0);
    if t.len() == 0 {
        assert(p[0] == e);
        assert(p.skip(1) =~= Seq::<(Vec<u8>, FileHandle)>::empty());
        assert(pools_total(p.skip(1)) == 0int);
        assert(pools_total(t) == 0int);
    } else {
        assert(p[0] == t[0]);
        assert(p.skip(1) =~= t.skip(1).push(e));
        lemma_pools_total_push(t.skip(1), e);
    }
}

/// The descriptor total is nonnegative and dominates every single pool.
pub proof fn lemma_pools_total_bounds(t: Seq<(Vec<u8>, FileHandle)>, i: int)
    requires
        0 <= i < t.len(),
    ensures
        pools_total(t) >= t[i].1.descriptors@.len(),
        pools_total(t) >= 0,
    decreases t.len(),
{
    lemma_pools_total_nonneg(t.skip(1));
    if i == 0 {
    } else {
        lemma_pools_total_bounds(t.skip(1), i - 1);
    }
}

pub proof fn lemma_pools_total_nonneg(t: Seq<(Vec<u8>, FileHandle)>)
    ensures
        pools_total(t) >= 0,
    decreases t.len(),
{
    if t.len() > 0 {
        lemma_pools_total_nonneg(t.skip(1));
    }
}

/// What filling an empty pool does around entry `i`: the counter rises by
/// the pool size, and when that pushed the old count past the limit the
/// least-recently-used id is rotated to the back of the LRU and — unless it
/// is the accessed id itself, or unknown — its pool is drained and deducted.
pub open spec fn eviction_effect(pre: FileDescriptorTable, post: FileDescriptorTable, i: int) -> bool {
    let t = pre.inner.table@;
    let lru0 = lru_model(pre.inner.lru);
    if pre.inner.size + 1 <= pre.limit || lru0.len() == 0 {
        &&& post.inner.size == pre.inner.size + pre.concurrency
        &&& lru_model(post.inner.lru) == lru0
        &&& (forall|j: int|
            0 <= j < t.len() && j != i ==> #[trigger] post.inner.table@[j] == t[j])
    } else {
        let victim = lru0[0];
        &&& lru_model(post.inner.lru) == without(lru0.skip(1), victim).push(victim)
        &&& if victim == t[i].0@ || (forall|j: int| 0 <= j < t.len() ==> (#[trigger] t[j]).0@ != victim) {
            &&& post.inner.size == pre.inner.size + pre.concurrency
            &&& (forall|j: int|
                0 <= j < t.len() && j != i ==> #[trigger] post.inner.table@[j] == t[j])
        } else {
            exists|j: int|
                #![trigger t[j]]
                {
                    &&& 0 <= j < t.len() && j != i
                    &&& t[j].0@ == victim
                    &&& post.inner.table@[j].0@ == victim
                    &&& post.inner.table@[j].1.epoch == t[j].1.epoch
                    &&& post.inner.table@[j].1.descriptors@.len() == 0
                    &&& post.inner.size == pre.inner.size + pre.concurrency
                        - t[j].1.descriptors@.len()
                    &&& (forall|j2: int|
                        0 <= j2 < t.len() && j2 != i && j2 != j
                            ==> #[trigger] post.inner.table@[j2] == t[j2])
                }
        }
    }
}

/// What an access that found entry `i`'s pool empty does: the pool is
/// recreated at `concurrency` descriptors under the next epoch, the last one
/// handed out in use, and the budget is enforced as `eviction_effect` says.
pub open spec fn fill_effect(
    pre: FileDescriptorTable,
    post: FileDescriptorTable,
    i: int,
    g: FileGuard,
) -> bool {
    let t = pre.inner.table@;
    let c = pre.concurrency as int;
    &&& post.inner.table@.len() == t.len()
    &&& g.fd.id@ == t[i].0@
    &&& g.fd.epoch == t[i].1.epoch + 1
    &&& g.fd.slot == c - 1
    &&& post.inner.table@[i].0@ == t[i].0@
    &&& post.inner.table@[i].1.epoch == t[i].1.epoch + 1
    &&& post.inner.table@[i].1.descriptors@.len() == c
    &&& (forall|s2: int| 0 <= s2 < c - 1 ==> !(#[trigger] post.inner.table@[i].1.descriptors@[s2]))
    &&& post.inner.table@[i].1.descriptors@[c - 1]
    &&& eviction_effect(pre, post, i)
}

/// What an access that reused a live pool does: the first free descriptor
/// of entry `i` is marked in use; nothing else moves.
pub open spec fn take_effect(
    pre: FileDescriptorTable,
    post: FileDescriptorTable,
    i: int,
    g: FileGuard,
) -> bool {
    let t = pre.inner.table@;
    &&& post.inner.table@.len() == t.len()
    &&& g.fd.id@ == t[i].0@
    &&& g.fd.epoch == t[i].1.epoch
    &&& 0 <= g.fd.slot < t[i].1.descriptors@.len()
    &&& !t[i].1.descriptors@[g.fd.slot as int]
    &&& (forall|s2: int| 0 <= s2 < g.fd.slot ==> (#[trigger] t[i].1.descriptors@[s2]))
    &&& post.inner.table@[i].0@ == t[i].0@
    &&& post.inner.table@[i].1.epoch == t[i].1.epoch
    &&& post.inner.table@[i].1.descriptors@ == t[i].1.descriptors@.update(g.fd.slot as int, true)
    &&& (forall|j: int| 0 <= j < t.len() && j != i ==> #[trigger] post.inner.table@[j] == t[j])
    &&& post.inner.size == pre.inner.size
    &&& lru_model(post.inner.lru) == lru_model(pre.inner.lru)
}

/// The guard refers to a descriptor that the table currently holds and has
/// marked in use.
pub open spec fn guard_live(t: FileDescriptorTable, g: FileGuard) -> bool {
    exists|i: int|
        0 <= i < t.inner.table@.len() && (#[trigger] t.inner.table@[i]).0@ == g.fd.id@
            && t.inner.table@[i].1.epoch == g.fd.epoch && g.fd.slot
            < t.inner.table@[i].1.descriptors@.len() && t.inner.table@[i].1.descriptors@[
            g.fd.slot as int
        ]
}

impl FileDescriptorTable {
    /// Ids are unique, the size counter equals the open descriptors, and
    /// every pool is either drained or fully sized.
    pub open spec fn wf(&self) -> bool {
        &&& self.concurrency >= 1
        &&& forall|i: int, j: int|
            0 <= i < j < self.inner.table@.len() ==> (#[trigger] self.inner.table@[i]).0@ != (
            #[trigger] self.inner.table@[j]).0@
        &&& self.inner.size == pools_total(self.inner.table@)
        &&& forall|i: int|
            0 <= i < self.inner.table@.len() ==> (#[trigger] self.inner.table@[i]).1.descriptors@.len()
                == 0 || self.inner.table@[i].1.descriptors@.len() == self.concurrency
    }

    /// The index of `id` in the table, if present.
    pub open spec fn spec_find(&self, id: Seq<u8>) -> Option<int> {
        if exists|i: int| 0 <= i < self.inner.table@.len() && (#[trigger] self.inner.table@[i]).0@ == id {
            Some(choose|i: int| 0 <= i < self.inner.table@.len() && (#[trigger] self.inner.table@[i]).0@ == id)
        } else {
            None
        }
    }

    /// A fresh table with the given budget and per-segment pool size.
    pub fn new(limit: usize, concurrency: usize) -> (r: FileDescriptorTable)
        requires
            concurrency >= 1,
        ensures
            r.wf(),
            r.inner.table@.len() == 0,
            r.inner.size == 0,
            r.limit == limit,
            r.concurrency == concurrency,
    {
        FileDescriptorTable {
            inner: FileDescriptorTableInner {
                table: Vec::new(),
                lru: LruList::default(),
                size: 0,
            },
            concurrency,
            limit,
        }
    }

    /// Number of open descriptors.
    pub fn size(&self) -> (r: usize)
        ensures
            r == self.inner.size,
    {
        self.inner.size
    }

    /// Index of `id`'s entry.
    fn find_idx(&self, id: &Vec<u8>) -> (r: Option<usize>)
        ensures
            match r {
                Some(i) => i < self.inner.table@.len() && self.inner.table@[i as int].0@ == id@,
                None => forall|i: int|
                    0 <= i < self.inner.table@.len() ==> (#[trigger] self.inner.table@[i]).0@
                        != id@,
            },
    {
        let n = self.inner.table.len();
        let mut i: usize = 0;
        while i < n
            invariant
                n == self.inner.table@.len(),
                0 <= i <= n,
                forall|k: int|
                    0 <= k < i ==> (#[trigger] self.inner.table@[k]).0@ != id@,
            decreases n - i,
        {
            if bytes_eq(&self.inner.table[i].0, id) {
                return Some(i);
            }
            i = i + 1;
        }
        None
    }

    /// Closes all file descriptors and forgets every segment.
    pub fn clear(&mut self)
        requires
            old(self).wf(),
        ensures
            final(self).wf(),
            final(self).inner.table@.len() == 0,
            final(self).inner.size == 0,
            final(self).concurrency == old(self).concurrency,
            final(self).limit == old(self).limit,
    {
        let c = self.concurrency;
        let l = self.limit;
        *self = FileDescriptorTable {
            inner: FileDescriptorTableInner {
                table: Vec::new(),
                lru: LruList::default(),
                size: 0,
            },
            concurrency: c,
            limit: l,
        }
    }

    /// Registers a segment; its pool starts empty and its id becomes the
    /// most recently used. Re-registering an id drains its pool; every
    /// other entry is untouched.
    pub fn insert(&mut self, path: Vec<u8>, id: Vec<u8>)
        requires
            old(self).wf(),
        ensures
            final(self).wf(),
            final(self).concurrency == old(self).concurrency,
            final(self).limit == old(self).limit,
            exists|i: int|
                0 <= i < final(self).inner.table@.len()
                    && (#[trigger] final(self).inner.table@[i]).0@ == id@
                    && final(self).inner.table@[i].1.descriptors@.len() == 0,
            old(self).spec_find(id@) is None ==> {
                &&& final(self).inner.table@.len() == old(self).inner.table@.len() + 1
                &&& (forall|j: int|
                    0 <= j < old(self).inner.table@.len()
                        ==> #[trigger] final(self).inner.table@[j] == old(self).inner.table@[j])
                &&& final(self).inner.size == old(self).inner.size
            },
            old(self).spec_find(id@) matches Some(i) ==> {
                &&& final(self).inner.table@.len() == old(self).inner.table@.len()
                &&& (forall|j: int|
                    0 <= j < old(self).inner.table@.len() && j != i
                        ==> #[trigger] final(self).inner.table@[j] == old(self).inner.table@[j])
                &&& final(self).inner.size == old(self).inner.size - old(
                    self,
                ).inner.table@[i].1.descriptors@.len()
            },
            lru_model(final(self).inner.lru) == without(lru_model(old(self).inner.lru), id@).push(
                id@,
            ),
    {
        let idx = self.find_idx(&id);
        match idx {
            Some(i) => {
                let ghost t0 = self.inner.table@;
                let old_len = self.inner.table[i].1.descriptors.len();
                let epoch = self.inner.table[i].1.epoch;
                let entry = (copy_bytes(&id), FileHandle { descriptors: Vec::new(), path, epoch });
                proof {
                    lemma_pools_total_bounds(t0, i as int);
                }
                self.inner.table.set(i, entry);
                proof {
                    lemma_pools_total_update(t0, i as int, (entry.0, FileHandle {
                        descriptors: entry.1.descriptors,
                        path: entry.1.path,
                        epoch,
                    }));
                }
                self.inner.size = self.inner.size - old_len;
                self.inner.lru.refresh(id);
                proof {
                    assert(self.inner.table@[i as int].0@ == id@);
                    assert(self.inner.table@[i as int].1.descriptors@.len() == 0);
                }
            },
            None => {
                let ghost t0 = self.inner.table@;
                let entry = (copy_bytes(&id), FileHandle { descriptors: Vec::new(), path, epoch: 0 });
                self.inner.table.push(entry);
                proof {
                    lemma_pools_total_push(t0, (entry.0, FileHandle {
                        descriptors: entry.1.descriptors,
                        path: entry.1.path,
                        epoch: 0,
                    }));
                    let m = self.inner.table@.len() - 1;
                    assert(self.inner.table@[m].0@ == id@);
                    assert(self.inner.table@[m].1.descriptors@.len() == 0);
                    assert forall|a: int, b: int|
                        0 <= a < b < self.inner.table@.len() implies (
                    #[trigger] self.inner.table@[a]).0@ != (#[trigger] self.inner.table@[b]).0@ by {
                        if b < m {
                            assert(t0[a].0@ != t0[b].0@);
                        } else {
                            assert(t0[a].0@ != id@);
                        }
                    }
                }
                self.inner.lru.refresh(id);
            },
        }
    }

    /// Takes exclusive use of one of `id`'s descriptors. An empty pool is
    /// filled to `concurrency` descriptors first — evicting the least
    /// recently used pool when the budget is passed — and never fails. On a
    /// full pool the call returns `None` only when every descriptor is
    /// taken; the caller retries. The returned descriptor was free before
    /// the call and is exclusively held after it.
    pub fn access(&mut self, id: &Vec<u8>) -> (r: Option<FileGuard>)
        requires
            old(self).wf(),
            old(self).spec_find(id@) is Some,
            old(self).inner.size + old(self).concurrency <= usize::MAX,
            forall|i: int|
                0 <= i < old(self).inner.table@.len()
                    ==> (#[trigger] old(self).inner.table@[i]).1.epoch < u64::MAX,
        ensures
            final(self).wf(),
            final(self).concurrency == old(self).concurrency,
            final(self).limit == old(self).limit,
            r matches Some(g) ==> g.fd.id@ == id@ && !guard_live(*old(self), g) && guard_live(
                *final(self),
                g,
            ),
            r matches Some(g) ==> (if old(self).inner.table@[old(self).spec_find(
                id@,
            )->Some_0].1.descriptors@.len() == 0 {
                fill_effect(*old(self), *final(self), old(self).spec_find(id@)->Some_0, g)
            } else {
                take_effect(*old(self), *final(self), old(self).spec_find(id@)->Some_0, g)
            }),
            r is None ==> *final(self) == *old(self),
            r is None ==> exists|i: int|
                0 <= i < old(self).inner.table@.len()
                    && (#[trigger] old(self).inner.table@[i]).0@ == id@
                    && old(self).inner.table@[i].1.descriptors@.len() > 0 && (forall|s: int|
                    0 <= s < old(self).inner.table@[i].1.descriptors@.len()
                        ==> old(self).inner.table@[i].1.descriptors@[s]),
    {
        let idx_opt = self.find_idx(id);
        let i = match idx_opt {
            Some(i) => i,
            None => {
                proof {
                    let k = old(self).spec_find(id@)->Some_0;
                    assert(old(self).inner.table@[k].0@ == id@);
                }
                return None;
            },
        };
        let pool_len = self.inner.table[i].1.descriptors.len();
        if pool_len == 0 {
            // lazily create the pool; the last descriptor is handed out
            let ghost t0 = self.inner.table@;
            let mut pool: Vec<bool> = Vec::new();
            let mut c: usize = 0;
            while c < self.concurrency - 1
                invariant
                    0 <= c <= self.concurrency - 1,
                    pool@.len() == c,
                    forall|s: int| 0 <= s < c ==> !(#[trigger] pool@[s]),
                    *self == *old(self),
                decreases self.concurrency - c,
            {
                pool.push(false);
                c = c + 1;
            }
            pool.push(true);
            let epoch = self.inner.table[i].1.epoch + 1;
            let path = copy_bytes(&self.inner.table[i].1.path);
            let slot = pool.len() - 1;
            let entry = (copy_bytes(id), FileHandle { descriptors: pool, path, epoch });
            let ghost new_entry = (entry.0, FileHandle {
                descriptors: entry.1.descriptors,
                path: entry.1.path,
                epoch,
            });
            self.inner.table.set(i, entry);
            proof {
                lemma_pools_total_update(t0, i as int, new_entry);
            }
            self.inner.size = self.inner.size + self.concurrency;
            let size_now = self.inner.size - self.concurrency + 1;
            if size_now > self.limit {
                let oldest_opt = self.inner.lru.get_least_recently_used();
                if let Some(oldest) = oldest_opt {
                    if !bytes_eq(&oldest, id) {
                        let vic = self.find_idx(&oldest);
                        if let Some(v) = vic {
                            let ghost t1 = self.inner.table@;
                            let vic_len = self.inner.table[v].1.descriptors.len();
                            let vic_epoch = self.inner.table[v].1.epoch;
                            let vic_path = copy_bytes(&self.inner.table[v].1.path);
                            let vic_entry = (
                                copy_bytes(&oldest),
                                FileHandle { descriptors: Vec::new(), path: vic_path, epoch: vic_epoch },
                            );
                            let ghost vic_ghost = (vic_entry.0, FileHandle {
                                descriptors: vic_entry.1.descriptors,
                                path: vic_entry.1.path,
                                epoch: vic_epoch,
                            });
                            proof {
                                lemma_pools_total_bounds(t1, v as int);
                            }
                            self.inner.table.set(v, vic_entry);
                            proof {
                                lemma_pools_total_update(t1, v as int, vic_ghost);
                            }
                            self.inner.size = self.inner.size - vic_len;
                            proof {
                                assert(v != i) by {
                                    assert(t1[v as int].0@ == oldest@);
                                    assert(t1[i as int].0@ == id@);
                                }
                                assert(self.inner.table@[i as int].1.epoch == epoch);
                            }
                        }
                    }
                }
            }
            let g = FileGuard {
                fd: FileDescriptorWrapper { id: copy_bytes(id), epoch, slot },
            };
            proof {
                assert(self.inner.table@[i as int].0@ == id@);
                assert(self.inner.table@[i as int].1.epoch == epoch);
                assert(self.inner.table@[i as int].1.descriptors@[slot as int]);
                assert(guard_live(*self, g));
                assert(!guard_live(*old(self), g)) by {
                    if guard_live(*old(self), g) {
                        let k = choose|k: int|
                            0 <= k < t0.len() && (#[trigger] t0[k]).0@ == g.fd.id@ && t0[k].1.epoch
                                == g.fd.epoch && g.fd.slot < t0[k].1.descriptors@.len()
                                && t0[k].1.descriptors@[g.fd.slot as int];
                        assert(k == i as int);
                        assert(t0[k].1.epoch < epoch);
                    }
                }
            }
            Some(g)
        } else {
            // scan the pool for a free descriptor
            let mut s: usize = 0;
            while s < pool_len
                invariant
                    *self == *old(self),
                    old(self).wf(),
                    0 <= s <= pool_len,
                    i < self.inner.table@.len(),
                    self.inner.table@[i as int].0@ == id@,
                    pool_len == self.inner.table@[i as int].1.descriptors@.len(),
                    forall|k: int|
                        0 <= k < s ==> (#[trigger] self.inner.table@[i as int].1.descriptors@[k]),
                decreases pool_len - s,
            {
                if !self.inner.table[i].1.descriptors[s] {
                    let ghost t1 = self.inner.table@;
                    let epoch = self.inner.table[i].1.epoch;
                    let path = copy_bytes(&self.inner.table[i].1.path);
                    let mut pool = copy_bools(&self.inner.table[i].1.descriptors);
                    pool.set(s, true);
                    let entry = (copy_bytes(id), FileHandle { descriptors: pool, path, epoch });
                    let ghost entry_ghost = (entry.0, FileHandle {
                        descriptors: entry.1.descriptors,
                        path: entry.1.path,
                        epoch,
                    });
                    self.inner.table.set(i, entry);
                    proof {
                        lemma_pools_total_update(t1, i as int, entry_ghost);
                    }
                    let g = FileGuard {
                        fd: FileDescriptorWrapper { id: copy_bytes(id), epoch, slot: s },
                    };
                    proof {
                        assert(self.inner.table@[i as int].0@ == g.fd.id@);
                        assert(self.inner.table@[i as int].1.epoch == g.fd.epoch);
                        assert(self.inner.table@[i as int].1.descriptors@ == t1[
                            i as int
                        ].1.descriptors@.update(s as int, true));
                        assert(self.inner.table@[i as int].1.descriptors@[s as int]);
                        assert(guard_live(*self, g));
                        assert(!guard_live(*old(self), g)) by {
                            if guard_live(*old(self), g) {
                                let k = choose|k: int|
                                    0 <= k < old(self).inner.table@.len() && (#[trigger] old(
                                    self,
                                ).inner.table@[k]).0@ == g.fd.id@ && old(self).inner.table@[
                                    k].1.epoch == g.fd.epoch && g.fd.slot < old(
                                    self,
                                ).inner.table@[k].1.descriptors@.len() && old(
                                    self,
                                ).inner.table@[k].1.descriptors@[g.fd.slot as int];
                                assert(old(self).inner.table@[i as int].0@ == id@);
                                if k != i as int {
                                    if k < i as int {
                                        assert((old(self).inner.table@[k]).0@ != (old(
                                            self,
                                        ).inner.table@[i as int]).0@);
                                    } else {
                                        assert((old(self).inner.table@[i as int]).0@ != (old(
                                            self,
                                        ).inner.table@[k]).0@);
                                    }
                                }
                                assert(k == i as int);
                                assert(old(self).inner.table@[i as int].1.descriptors@[s as int]);
                                assert(!t1[i as int].1.descriptors@[s as int]);
                            }
                        }
                    }
                    return Some(g);
                }
                s = s + 1;
            }
            None
        }
    }

    /// Hands a descriptor back, clearing its in-use flag. A guard whose
    /// pool has since been dropped or recreated is simply forgotten.
    pub fn release(&mut self, g: FileGuard)
        requires
            old(self).wf(),
        ensures
            final(self).wf(),
            final(self).concurrency == old(self).concurrency,
            final(self).limit == old(self).limit,
            !guard_live(*final(self), g),
    {
        let idx = self.find_idx(&g.fd.id);
        if let Some(i) = idx {
            let same_epoch = self.inner.table[i].1.epoch == g.fd.epoch;
            let in_range = g.fd.slot < self.inner.table[i].1.descriptors.len();
            if same_epoch && in_range {
                let ghost t0 = self.inner.table@;
                let epoch = g.fd.epoch;
                let path = copy_bytes(&self.inner.table[i].1.path);
                let mut pool = copy_bools(&self.inner.table[i].1.descriptors);
                pool.set(g.fd.slot, false);
                let entry = (copy_bytes(&g.fd.id), FileHandle { descriptors: pool, path, epoch });
                let ghost entry_ghost = (entry.0, FileHandle {
                    descriptors: entry.1.descriptors,
                    path: entry.1.path,
                    epoch,
                });
                self.inner.table.set(i, entry);
                proof {
                    lemma_pools_total_update(t0, i as int, entry_ghost);
                    assert(!guard_live(*self, g)) by {
                        if guard_live(*self, g) {
                            let k = choose|k: int|
                                0 <= k < self.inner.table@.len() && (
                                #[trigger] self.inner.table@[k]).0@ == g.fd.id@ && self.inner.table@[
                                k].1.epoch == g.fd.epoch && g.fd.slot < self.inner.table@[
                                k].1.descriptors@.len() && self.inner.table@[k].1.descriptors@[
                                g.fd.slot as int];
                            assert(k == i as int);
                        }
                    }
                }
            } else {
                proof {
                    assert(!guard_live(*self, g)) by {
                        if guard_live(*self, g) {
                            let k = choose|k: int|
                                0 <= k < self.inner.table@.len() && (
                                #[trigger] self.inner.table@[k]).0@ == g.fd.id@ && self.inner.table@[
                                k].1.epoch == g.fd.epoch && g.fd.slot < self.inner.table@[
                                k].1.descriptors@.len() && self.inner.table@[k].1.descriptors@[
                                g.fd.slot as int];
                            assert(k == i as int);
                        }
                    }
                }
            }
        } else {
            proof {
                assert(!guard_live(*self, g)) by {
                    if guard_live(*self, g) {
                        let k = choose|k: int|
                            0 <= k < self.inner.table@.len() && (#[trigger] self.inner.table@[
                            k]).0@ == g.fd.id@ && self.inner.table@[k].1.epoch == g.fd.epoch
                                && g.fd.slot < self.inner.table@[k].1.descriptors@.len()
                                && self.inner.table@[k].1.descriptors@[g.fd.slot as int];
                    }
                }
            }
        }
    }

    /// Unregisters a segment, closing its pooled descriptors; every other
    /// entry is untouched.
    pub fn remove(&mut self, id: &Vec<u8>)
        requires
            old(self).wf(),
        ensures
            final(self).wf(),
            final(self).concurrency == old(self).concurrency,
            final(self).limit == old(self).limit,
            forall|i: int|
                0 <= i < final(self).inner.table@.len()
                    ==> (#[trigger] final(self).inner.table@[i]).0@ != id@,
            old(self).spec_find(id@) is None ==> final(self).inner.size == old(self).inner.size
                && final(self).inner.table@ == old(self).inner.table@,
            old(self).spec_find(id@) matches Some(i) ==> final(self).inner.table@ == old(
                self,
            ).inner.table@.remove(i) && final(self).inner.size == old(self).inner.size - old(
                self,
            ).inner.table@[i].1.descriptors@.len(),
            lru_model(final(self).inner.lru) == without(lru_model(old(self).inner.lru), id@),
    {
        let idx = self.find_idx(id);
        if let Some(i) = idx {
            let ghost t0 = self.inner.table@;
            let len = self.inner.table[i].1.descriptors.len();
            proof {
                lemma_pools_total_bounds(t0, i as int);
            }
            let _ = self.inner.table.remove(i);
            proof {
                lemma_pools_total_remove(t0, i as int);
                assert forall|k: int|
                    0 <= k < self.inner.table@.len() implies (#[trigger] self.inner.table@[k]).0@
                    != id@ by {
                    if k < i {
                        assert(t0[k].0@ != t0[i as int].0@);
                    } else {
                        assert(t0[k + 1].0@ != t0[i as int].0@);
                    }
                }
            }
            self.inner.size = self.inner.size - len;
        } else {
            proof {
                if old(self).spec_find(id@) is Some {
                    let k = old(self).spec_find(id@)->Some_0;
                    assert(old(self).inner.table@[k].0@ == id@);
                }
            }
        }
        self.inner.lru.remove(id);
    }
}

/// Descriptor exclusivity: a guard that is still live when another access
/// is made can never be the guard that access returns, since `access` only
/// hands out descriptors that were free (or freshly created under a new
/// epoch) at call time. So two live guards never name the same descriptor.
pub proof fn lemma_guards_exclusive(t: FileDescriptorTable, g1: FileGuard, g2: FileGuard)
    requires
        guard_live(t, g1),
        !guard_live(t, g2),
    ensures
        g1.fd.id@ != g2.fd.id@ || g1.fd.epoch != g2.fd.epoch || g1.fd.slot != g2.fd.slot,
{
    if g1.fd.id@ == g2.fd.id@ && g1.fd.epoch == g2.fd.epoch && g1.fd.slot == g2.fd.slot {
        let i = choose|i: int|
            0 <= i < t.inner.table@.len() && (#[trigger] t.inner.table@[i]).0@ == g1.fd.id@
                && t.inner.table@[i].1.epoch == g1.fd.epoch && g1.fd.slot
                < t.inner.table@[i].1.descriptors@.len() && t.inner.table@[i].1.descriptors@[
                g1.fd.slot as int
            ];
        assert(0 <= i < t.inner.table@.len() && (t.inner.table@[i]).0@ == g2.fd.id@
            && t.inner.table@[i].1.epoch == g2.fd.epoch && g2.fd.slot
            < t.inner.table@[i].1.descriptors@.len() && t.inner.table@[i].1.descriptors@[
            g2.fd.slot as int
        ]);
    }
}

/// A fresh vector with the same flags.
fn copy_bools(v: &Vec<bool>) -> (r: Vec<bool>)
    ensures
        r@ == v@,
{
    let mut r: Vec<bool> = Vec::new();
    let n = v.len();
    let mut i: usize = 0;
    while i < n
        invariant
            n == v@.len(),
            0 <= i <= n,
            r@ == v@.subrange(0, i as int),
        decreases n - i,
    {
        r.push(v[i]);
        proof {
            assert(r@ =~= v@.subrange(0, i + 1 as int));
        }
        i = i + 1;
    }
    proof {
        assert(v@.subrange(0, n as int) =~= v@);
    }
    r
}

} // verus!
