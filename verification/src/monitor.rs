//! The monitor: the backpressure policy that decides which partitions must
//! rotate their memtables when the journal or the shared write buffer
//! passes half of its configured limit. The embedding program gathers the
//! inputs, performs the chosen rotations, and reports back whether the
//! monitor was idle.

use vstd::prelude::*;

use vstd::multiset::Multiset;

use crate::value::{bytes_eq, copy_bytes};

verus! {

/// What the monitor reads on one tick.
pub struct MonitorInput {
    /// Bytes the journal currently occupies on disk.
    pub journal_disk_space: u64,
    /// Partitions holding references into the oldest journal segment.
    pub partitions_pinning_oldest_journal: Vec<Vec<u8>>,
    /// Partitions that already have a flush task queued.
    pub partitions_with_queued_tasks: Vec<Vec<u8>>,
    /// The shared write-buffer counter.
    pub write_buffer_size: u64,
    /// Bytes already sitting in the flush queue.
    pub queued_size: u64,
    /// Every partition with the size of its active memtable.
    pub partitions: Vec<(Vec<u8>, u64)>,
}

/// What one tick decided.
pub struct MonitorDecision {
    /// Rotate the memtable of each of these partitions.
    pub journal_rotations: Vec<Vec<u8>>,
    /// Try these in order and stop after the first rotation that happens.
    pub write_buffer_rotations: Vec<Vec<u8>>,
    /// Neither threshold was passed.
    pub idle: bool,
}

/// Monitors write-buffer and journal size.
pub struct Monitor {
    /// Total journal footprint allowed across partitions.
    pub max_journaling_size_in_bytes: u64,
    /// Total active memtable bytes allowed.
    pub max_write_buffer_size_in_bytes: u64,
}

/// `name` is not among the queued partitions.
pub open spec fn not_queued(queued: Seq<Vec<u8>>, name: Seq<u8>) -> bool {
    forall|i: int| 0 <= i < queued.len() ==> (#[trigger] queued[i])@ != name
}

/// The names of `src`, in order, without those already queued.
pub open spec fn names_not_queued(src: Seq<(Seq<u8>, u64)>, queued: Seq<Vec<u8>>) -> Seq<Seq<u8>>
    decreases src.len(),
{
    if src.len() == 0 {
        Seq::empty()
    } else if not_queued(queued, src[0].0) {
        seq![src[0].0] + names_not_queued(src.skip(1), queued)
    } else {
        names_not_queued(src.skip(1), queued)
    }
}

/// Models of a name list.
pub open spec fn name_views(s: Seq<Vec<u8>>) -> Seq<Seq<u8>> {
    s.map_values(|v: Vec<u8>| v@)
}

/// Models of a partition list.
pub open spec fn partition_views(s: Seq<(Vec<u8>, u64)>) -> Seq<(Seq<u8>, u64)> {
    s.map_values(|p: (Vec<u8>, u64)| (p.0@, p.1))
}

/// The write-buffer plan: the names of the not-yet-queued partitions, in
/// order of descending active memtable size.
pub open spec fn is_wb_plan(
    out: Seq<Seq<u8>>,
    parts: Seq<(Seq<u8>, u64)>,
    queued: Seq<Vec<u8>>,
) -> bool {
    exists|ps: Seq<(Seq<u8>, u64)>|
        (#[trigger] ps.to_multiset()) == parts.to_multiset() && (forall|i: int, j: int|
            0 <= i < j < ps.len() ==> (#[trigger] ps[i]).1 >= (#[trigger] ps[j]).1) && out
            == names_not_queued(ps, queued)
}

impl Monitor {
    /// A monitor over the keyspace's two thresholds.
    pub fn new(max_journaling_size_in_bytes: u64, max_write_buffer_size_in_bytes: u64) -> (r:
        Monitor)
        ensures
            r.max_journaling_size_in_bytes == max_journaling_size_in_bytes,
            r.max_write_buffer_size_in_bytes == max_write_buffer_size_in_bytes,
    {
        Monitor { max_journaling_size_in_bytes, max_write_buffer_size_in_bytes }
    }

    /// One tick. Journal pressure (over half the journal budget) asks every
    /// partition pinning the oldest journal segment — and not already
    /// queued — to rotate. Write-buffer pressure (unqueued buffered bytes
    /// over half the buffer budget) lists the unqueued partitions by
    /// descending memtable size; the caller rotates until one succeeds.
    /// The tick is idle exactly when neither threshold is passed.
    pub fn run(&self, input: &MonitorInput) -> (d: MonitorDecision)
        ensures
            d.idle <==> !(input.journal_disk_space > self.max_journaling_size_in_bytes / 2) && !(
            sub_saturating(input.write_buffer_size, input.queued_size)
                > self.max_write_buffer_size_in_bytes / 2),
            input.journal_disk_space > self.max_journaling_size_in_bytes / 2 ==> name_views(
                d.journal_rotations@,
            ) == names_not_queued(
                partition_names(input.partitions_pinning_oldest_journal@),
                input.partitions_with_queued_tasks@,
            ),
            !(input.journal_disk_space > self.max_journaling_size_in_bytes / 2)
                ==> d.journal_rotations@.len() == 0,
            sub_saturating(input.write_buffer_size, input.queued_size)
                > self.max_write_buffer_size_in_bytes / 2 ==> is_wb_plan(
                name_views(d.write_buffer_rotations@),
                partition_views(input.partitions@),
                input.partitions_with_queued_tasks@,
            ),
            !(sub_saturating(input.write_buffer_size, input.queued_size)
                > self.max_write_buffer_size_in_bytes / 2) ==> d.write_buffer_rotations@.len()
                == 0,
    {
        let mut idle = true;
        let mut journal_rotations: Vec<Vec<u8>> = Vec::new();
        if input.journal_disk_space > self.max_journaling_size_in_bytes / 2 {
            idle = false;
            journal_rotations = filter_unqueued_names(
                &input.partitions_pinning_oldest_journal,
                &input.partitions_with_queued_tasks,
            );
        }
        // the shared counter should never lag the queued bytes; subtract
        // defensively all the same
        let buffer_size_without_queued_size = if input.write_buffer_size >= input.queued_size {
            input.write_buffer_size - input.queued_size
        } else {
            0
        };
        let mut write_buffer_rotations: Vec<Vec<u8>> = Vec::new();
        if buffer_size_without_queued_size > self.max_write_buffer_size_in_bytes / 2 {
            idle = false;
            let sorted = sort_partitions_desc(&input.partitions);
            write_buffer_rotations = filter_unqueued_partitions(
                &sorted,
                &input.partitions_with_queued_tasks,
            );
            proof {
                let ps = partition_views(sorted@);
                assert(ps.to_multiset() == partition_views(input.partitions@).to_multiset());
                assert(name_views(write_buffer_rotations@) == names_not_queued(
                    ps,
                    input.partitions_with_queued_tasks@,
                ));
            }
        }
        MonitorDecision { journal_rotations, write_buffer_rotations, idle }
    }
}

/// `a - b`, floored at zero.
pub open spec fn sub_saturating(a: u64, b: u64) -> u64 {
    if a >= b {
        (a - b) as u64
    } else {
        0u64
    }
}

/// A bare name list read as partitions of unknown size zero, so one filter
/// serves both pressures.
pub open spec fn partition_names(s: Seq<Vec<u8>>) -> Seq<(Seq<u8>, u64)> {
    s.map_values(|v: Vec<u8>| (v@, 0u64))
}

/// Keeps the names that have no queued flush task.
fn filter_unqueued_names(src: &Vec<Vec<u8>>, queued: &Vec<Vec<u8>>) -> (r: Vec<Vec<u8>>)
    ensures
        name_views(r@) == names_not_queued(partition_names(src@), queued@),
{
    let n = src.len();
    let mut out: Vec<Vec<u8>> = Vec::new();
    let mut i: usize = 0;
    proof {
        assert(partition_names(src@).skip(0) =~= partition_names(src@));
        assert(name_views(out@) =~= Seq::<Seq<u8>>::empty());
    }
    while i < n
        invariant
            n == src@.len(),
            0 <= i <= n,
            names_not_queued(partition_names(src@), queued@) == name_views(out@)
                + names_not_queued(partition_names(src@).skip(i as int), queued@),
        decreases n - i,
    {
        let q = is_queued(&src[i], queued);
        let ghost rest = partition_names(src@).skip(i as int);
        proof {
            assert(rest[0] == (src@[i as int]@, 0u64));
            assert(rest.skip(1) =~= partition_names(src@).skip(i + 1));
        }
        if !q {
            let ghost pre = name_views(out@);
            out.push(copy_bytes(&src[i]));
            proof {
                assert(name_views(out@) =~= pre.push(src@[i as int]@));
                assert(pre.push(src@[i as int]@) =~= pre + seq![rest[0].0]);
                assert(name_views(out@) + names_not_queued(rest.skip(1), queued@) =~= pre + (seq![
                    rest[0].0,
                ] + names_not_queued(rest.skip(1), queued@)));
            }
        }
        i = i + 1;
    }
    proof {
        assert(partition_names(src@).skip(n as int) =~= Seq::<(Seq<u8>, u64)>::empty());
        assert(name_views(out@) + Seq::<Seq<u8>>::empty() =~= name_views(out@));
    }
    out
}

/// Keeps, in order, the names of the partitions that have no queued task.
fn filter_unqueued_partitions(src: &Vec<(Vec<u8>, u64)>, queued: &Vec<Vec<u8>>) -> (r: Vec<
    Vec<u8>,
>)
    ensures
        name_views(r@) == names_not_queued(partition_views(src@), queued@),
{
    let n = src.len();
    let mut out: Vec<Vec<u8>> = Vec::new();
    let mut i: usize = 0;
    proof {
        assert(partition_views(src@).skip(0) =~= partition_views(src@));
        assert(name_views(out@) =~= Seq::<Seq<u8>>::empty());
    }
    while i < n
        invariant
            n == src@.len(),
            0 <= i <= n,
            names_not_queued(partition_views(src@), queued@) == name_views(out@)
                + names_not_queued(partition_views(src@).skip(i as int), queued@),
        decreases n - i,
    {
        let q = is_queued(&src[i].0, queued);
        let ghost rest = partition_views(src@).skip(i as int);
        proof {
            assert(rest[0] == (src@[i as int].0@, src@[i as int].1));
            assert(rest.skip(1) =~= partition_views(src@).skip(i + 1));
        }
        if !q {
            let ghost pre = name_views(out@);
            out.push(copy_bytes(&src[i].0));
            proof {
                assert(name_views(out@) =~= pre.push(src@[i as int].0@));
                assert(pre.push(src@[i as int].0@) =~= pre + seq![rest[0].0]);
                assert(name_views(out@) + names_not_queued(rest.skip(1), queued@) =~= pre + (seq![
                    rest[0].0,
                ] + names_not_queued(rest.skip(1), queued@)));
            }
        }
        i = i + 1;
    }
    proof {
        assert(partition_views(src@).skip(n as int) =~= Seq::<(Seq<u8>, u64)>::empty());
        assert(name_views(out@) + Seq::<Seq<u8>>::empty() =~= name_views(out@));
    }
    out
}

/// Whether `name` already has a queued flush task.
fn is_queued(name: &Vec<u8>, queued: &Vec<Vec<u8>>) -> (r: bool)
    ensures
        r == !not_queued(queued@, name@),
{
    let n = queued.len();
    let mut i: usize = 0;
    while i < n
        invariant
            n == queued@.len(),
            0 <= i <= n,
            forall|k: int| 0 <= k < i ==> (#[trigger] queued@[k])@ != name@,
        decreases n - i,
    {
        if bytes_eq(&queued[i], name) {
            return true;
        }
        i = i + 1;
    }
    false
}

/// Sorts partitions by active memtable size, biggest first (selection of
/// the maximum, repeatedly).
fn sort_partitions_desc(src: &Vec<(Vec<u8>, u64)>) -> (r: Vec<(Vec<u8>, u64)>)
    ensures
        partition_views(r@).to_multiset() == partition_views(src@).to_multiset(),
        forall|i: int, j: int|
            0 <= i < j < r@.len() ==> (#[trigger] partition_views(r@)[i]).1 >= (
            #[trigger] partition_views(r@)[j]).1,
{
    let mut rest: Vec<(Vec<u8>, u64)> = Vec::new();
    let n = src.len();
    let mut i: usize = 0;
    while i < n
        invariant
            n == src@.len(),
            0 <= i <= n,
            partition_views(rest@) == partition_views(src@).subrange(0, i as int),
        decreases n - i,
    {
        let name = copy_bytes(&src[i].0);
        let ghost r0 = rest@;
        rest.push((name, src[i].1));
        proof {
            assert(partition_views(rest@) =~= partition_views(r0).push(
                (src@[i as int].0@, src@[i as int].1),
            ));
            assert(partition_views(rest@) =~= partition_views(src@).subrange(0, i + 1));
        }
        i = i + 1;
    }
    proof {
        assert(partition_views(src@).subrange(0, n as int) =~= partition_views(src@));
    }
    let mut out: Vec<(Vec<u8>, u64)> = Vec::new();
    proof {
        broadcast use vstd::seq_lib::group_seq_properties;

        assert(partition_views(out@).to_multiset() =~= Multiset::<(Seq<u8>, u64)>::empty()) by {
            assert(partition_views(out@) =~= Seq::<(Seq<u8>, u64)>::empty());
            Seq::<(Seq<u8>, u64)>::empty().to_multiset_ensures();
        }
    }
    while rest.len() > 0
        invariant
            partition_views(out@).to_multiset().add(partition_views(rest@).to_multiset())
                == partition_views(src@).to_multiset(),
            forall|i2: int, j2: int|
                0 <= i2 < j2 < out@.len() ==> (#[trigger] partition_views(out@)[i2]).1 >= (
                #[trigger] partition_views(out@)[j2]).1,
            forall|i2: int, j2: int|
                0 <= i2 < out@.len() && 0 <= j2 < rest@.len() ==> (#[trigger] partition_views(
                    out@,
                )[i2]).1 >= (#[trigger] partition_views(rest@)[j2]).1,
        decreases rest@.len(),
    {
        // find the largest remaining size
        let m = rest.len();
        let mut best: usize = 0;
        let mut k: usize = 1;
        while k < m
            invariant
                m == rest@.len(),
                0 < m,
                0 <= best < m,
                1 <= k <= m,
                forall|l: int| 0 <= l < k ==> (#[trigger] rest@[l]).1 <= rest@[best as int].1,
            decreases m - k,
        {
            if rest[k].1 > rest[best].1 {
                best = k;
            }
            k = k + 1;
        }
        let ghost rest0 = rest@;
        let ghost out0 = out@;
        let picked = rest.remove(best);
        out.push(picked);
        proof {
            let pv = partition_views(rest0);
            let pe = pv[best as int];
            assert(partition_views(rest@) =~= pv.remove(best as int));
            pv.to_multiset_ensures();
            assert(pv.remove(best as int).to_multiset() =~= pv.to_multiset().remove(pe));
            assert(partition_views(out@) =~= partition_views(out0).push(pe));
            partition_views(out0).to_multiset_ensures();
            assert(partition_views(out0).push(pe).to_multiset() =~= partition_views(
                out0,
            ).to_multiset().insert(pe));
            assert(pv.to_multiset().contains(pe)) by {
                pv.to_multiset_ensures();
                assert(pv.contains(pe));
            }
            assert(partition_views(out@).to_multiset().add(
                partition_views(rest@).to_multiset(),
            ) =~= partition_views(src@).to_multiset());
            assert forall|i2: int, j2: int|
                0 <= i2 < out@.len() && 0 <= j2 < rest@.len() implies (
            #[trigger] partition_views(out@)[i2]).1 >= (#[trigger] partition_views(
                rest@,
            )[j2]).1 by {
                assert(partition_views(rest@)[j2] == if j2 < best as int {
                    pv[j2]
                } else {
                    pv[j2 + 1]
                });
                if i2 < out0.len() {
                    assert(partition_views(out@)[i2] == partition_views(out0)[i2]);
                } else {
                    assert(partition_views(out@)[i2] == pe);
                }
            }
        }
    }
    proof {
        assert(partition_views(rest@) =~= Seq::<(Seq<u8>, u64)>::empty());
        Seq::<(Seq<u8>, u64)>::empty().to_multiset_ensures();
        assert(partition_views(out@).to_multiset() =~= partition_views(src@).to_multiset());
    }
    out
}

} // verus!
