use vstd::prelude::*;

use crate::bitmap::{
    all_ones, all_zeros, count_ones, fill, lemma_count_bound, lemma_count_constant,
    lemma_zero_run_bounds_count, zero_run, Bitmap,
};

verus! {

/// Whether frame `i` lies in the range of `count` frames from `start` given as `(start, count)`.
pub open spec fn in_range(r: (usize, usize), i: int) -> bool {
    r.0 <= i < r.0 + r.1
}

/// Whether some range of `rs` holds frame `i`.
pub open spec fn covered(rs: Seq<(usize, usize)>, i: int) -> bool {
    exists|j: int| 0 <= j < rs.len() && #[trigger] in_range(rs[j], i)
}

/// Whether every range of `rs` ends within `capacity` frames.
pub open spec fn ranges_fit(rs: Seq<(usize, usize)>, capacity: int) -> bool {
    forall|j: int| 0 <= j < rs.len() ==> #[trigger] rs[j].0 + rs[j].1 <= capacity
}

/// Occupancy of every physical page frame, with a running count of the free ones.
///
/// Frame `i` is in use exactly when bit `i` of `used` is set, and `free` is the number of
/// unset bits.
pub struct PhysicalMemory {
    used: Bitmap,
    free: usize,
}

impl PhysicalMemory {
    /// Occupancy of each frame: entry `i` holds when frame `i` is in use.
    pub closed spec fn frames(&self) -> Seq<bool> {
        self.used@
    }

    /// The cached number of free frames.
    pub closed spec fn free_frames(&self) -> nat {
        self.free as nat
    }

    /// The bitmap is well formed and the cached count matches it.
    pub closed spec fn wf(&self) -> bool {
        &&& self.used.wf()
        &&& self.free + count_ones(self.used@) == self.used@.len()
    }

    /// An allocator over the frames that `used` describes, `free` of which are unset.
    pub fn new(used: Bitmap, free: usize) -> (r: PhysicalMemory)
        requires
            used.wf(),
            free + count_ones(used@) == used@.len(),
        ensures
            r.wf(),
            r.frames() == used@,
            r.free_frames() == free,
    {
        PhysicalMemory { used, free }
    }

    /// The placeholder allocator: no frames, none of them free.
    pub fn empty() -> (r: PhysicalMemory)
        ensures
            r.wf(),
            r.frames().len() == 0,
            r.free_frames() == 0,
    {
        let used = Bitmap::empty();
        PhysicalMemory { used, free: 0 }
    }

    /// The allocator for a memory map of `capacity` frames: every frame starts in use, the
    /// `usable` ranges are then freed, and the `reserved` ranges are marked in use again.
    ///
    /// Ranges are `(first frame, number of frames)`. Returns `None`, and builds nothing, when
    /// a range reaches past `capacity`.
    pub fn from_memory_map(
        capacity: usize,
        usable: &Vec<(usize, usize)>,
        reserved: &Vec<(usize, usize)>,
    ) -> (r: Option<PhysicalMemory>)
        ensures
            r is Some <==> ranges_fit(usable@, capacity as int) && ranges_fit(
                reserved@,
                capacity as int,
            ),
            r matches Some(pm) ==> {
                &&& pm.wf()
                &&& pm.frames().len() == capacity
                &&& forall|i: int|
                    0 <= i < capacity ==> pm.frames()[i] == (!covered(usable@, i) || covered(
                        reserved@,
                        i,
                    ))
            },
    {
        if !Self::fits(usable, capacity) || !Self::fits(reserved, capacity) {
            return None;
        }
        let used = Bitmap::new(capacity);
        proof {
            lemma_count_constant(used@, false);
        }
        let mut pm = PhysicalMemory::new(used, capacity);
        pm.mark_used(0, capacity);
        let mut j: usize = 0;
        while j < usable.len()
            invariant
                pm.wf(),
                pm.frames().len() == capacity,
                ranges_fit(usable@, capacity as int),
                j <= usable.len(),
                forall|i: int|
                    0 <= i < capacity ==> pm.frames()[i] == !covered(usable@.take(j as int), i),
            decreases usable.len() - j,
        {
            let (start, count) = usable[j];
            assert(usable@[j as int].0 + usable@[j as int].1 <= capacity);
            pm.mark_free(start, count);
            proof {
                let prev = usable@.take(j as int);
                let next = usable@.take(j + 1);
                assert forall|i: int| 0 <= i < capacity implies pm.frames()[i] == !covered(
                    next,
                    i,
                ) by {
                    if covered(prev, i) {
                        let w = choose|w: int| 0 <= w < prev.len() && #[trigger] in_range(prev[w], i);
                        assert(next[w] == prev[w]);
                    }
                    if in_range(usable@[j as int], i) {
                        assert(next[j as int] == usable@[j as int]);
                    }
                    if covered(next, i) {
                        let w = choose|w: int| 0 <= w < next.len() && #[trigger] in_range(next[w], i);
                        if w < j {
                            assert(prev[w] == next[w]);
                        }
                    }
                }
            }
            j = j + 1;
        }
        assert(usable@.take(usable.len() as int) =~= usable@);
        let mut j: usize = 0;
        while j < reserved.len()
            invariant
                pm.wf(),
                pm.frames().len() == capacity,
                ranges_fit(reserved@, capacity as int),
                j <= reserved.len(),
                forall|i: int|
                    0 <= i < capacity ==> pm.frames()[i] == (!covered(usable@, i) || covered(
                        reserved@.take(j as int),
                        i,
                    )),
            decreases reserved.len() - j,
        {
            let (start, count) = reserved[j];
            assert(reserved@[j as int].0 + reserved@[j as int].1 <= capacity);
            pm.mark_used(start, count);
            proof {
                let prev = reserved@.take(j as int);
                let next = reserved@.take(j + 1);
                assert forall|i: int| 0 <= i < capacity implies pm.frames()[i] == (!covered(
                    usable@,
                    i,
                ) || covered(next, i)) by {
                    if covered(prev, i) {
                        let w = choose|w: int| 0 <= w < prev.len() && #[trigger] in_range(prev[w], i);
                        assert(next[w] == prev[w]);
                    }
                    if in_range(reserved@[j as int], i) {
                        assert(next[j as int] == reserved@[j as int]);
                    }
                    if covered(next, i) {
                        let w = choose|w: int| 0 <= w < next.len() && #[trigger] in_range(next[w], i);
                        if w < j {
                            assert(prev[w] == next[w]);
                        }
                    }
                }
            }
            j = j + 1;
        }
        assert(reserved@.take(reserved.len() as int) =~= reserved@);
        Some(pm)
    }

    fn fits(rs: &Vec<(usize, usize)>, capacity: usize) -> (r: bool)
        ensures
            r == ranges_fit(rs@, capacity as int),
    {
        let mut j: usize = 0;
        while j < rs.len()
            invariant
                j <= rs.len(),
                ranges_fit(rs@.take(j as int), capacity as int),
            decreases rs.len() - j,
        {
            let (start, count) = rs[j];
            if count > capacity || start > capacity - count {
                assert(rs@[j as int].0 + rs@[j as int].1 > capacity);
                return false;
            }
            assert(rs@.take(j + 1)[j as int] == rs@[j as int]);
            assert forall|w: int| 0 <= w < j implies rs@.take(j + 1)[w] == rs@.take(j as int)[w] by {}
            j = j + 1;
        }
        assert(rs@.take(rs.len() as int) =~= rs@);
        true
    }

    /// Marks the `count` frames from `frame_start` as in use.
    ///
    /// The free count drops by the number of those frames that were free before, which is
    /// `count` whenever none of them was in use.
    pub fn mark_used(&mut self, frame_start: usize, count: usize)
        requires
            old(self).wf(),
            frame_start + count <= old(self).frames().len(),
        ensures
            final(self).wf(),
            final(self).frames() == fill(
                old(self).frames(),
                frame_start as int,
                frame_start + count,
                true,
            ),
            final(self).free_frames() + count_ones(final(self).frames())
                == final(self).frames().len(),
            all_zeros(old(self).frames(), frame_start as int, frame_start + count)
                ==> final(self).free_frames() == old(self).free_frames() - count,
    {
        proof {
            self.used.lemma_len_fits();
        }
        let changed = self.used.set_ones(frame_start, frame_start + count);
        proof {
            lemma_count_bound(self.used@);
        }
        self.free = self.free - changed;
    }

    /// Marks the `count` frames from `frame_start` as free.
    ///
    /// The free count grows by the number of those frames that were in use before, which is
    /// `count` whenever all of them were.
    pub fn mark_free(&mut self, frame_start: usize, count: usize)
        requires
            old(self).wf(),
            frame_start + count <= old(self).frames().len(),
        ensures
            final(self).wf(),
            final(self).frames() == fill(
                old(self).frames(),
                frame_start as int,
                frame_start + count,
                false,
            ),
            final(self).free_frames() + count_ones(final(self).frames())
                == final(self).frames().len(),
            all_ones(old(self).frames(), frame_start as int, frame_start + count)
                ==> final(self).free_frames() == old(self).free_frames() + count,
    {
        proof {
            self.used.lemma_len_fits();
        }
        let changed = self.used.set_zeros(frame_start, frame_start + count);
        self.free = self.free + changed;
    }

    /// The start of the first run of `count` consecutive free frames, if there is one.
    ///
    /// Nothing is allocated: a caller that wants the frames follows with `mark_used` while
    /// still holding the lock that guards this allocator.
    pub fn find_free(&mut self, count: usize) -> (r: Option<usize>)
        requires
            old(self).wf(),
        ensures
            *final(self) == *old(self),
            match r {
                Some(s) => {
                    &&& zero_run(old(self).frames(), s as int, count as int)
                    &&& forall|t: int|
                        0 <= t < s ==> !zero_run(old(self).frames(), t, count as int)
                },
                None => forall|t: int| 0 <= t ==> !zero_run(old(self).frames(), t, count as int),
            },
            count == 0 ==> r == Some(0usize),
            count > old(self).frames().len() ==> r is None,
    {
        if self.free < count {
            proof {
                assert forall|t: int| 0 <= t implies !zero_run(self.used@, t, count as int) by {
                    if zero_run(self.used@, t, count as int) {
                        lemma_zero_run_bounds_count(self.used@, t, count as int);
                    }
                }
            }
            return None;
        }
        let r = self.used.consecutive_zeros(count, 0);
        proof {
            assert(zero_run(self.used@, 0, 0));
        }
        r
    }

    /// The number of frames tracked.
    pub fn capacity(&self) -> (r: usize)
        ensures
            r == self.frames().len(),
    {
        self.used.len()
    }

    /// The number of free frames.
    pub fn free(&self) -> (r: usize)
        ensures
            r == self.free_frames(),
    {
        self.free
    }

    /// Whether `frame` is in use.
    pub fn is_used(&self, frame: usize) -> (r: bool)
        requires
            self.wf(),
            frame < self.frames().len(),
        ensures
            r == self.frames()[frame as int],
    {
        self.used.get(frame)
    }
}

/// Whatever sequence of `new`, `empty`, `mark_used` and `mark_free` produced a well-formed
/// allocator, its free count equals its capacity minus the number of frames in use.
pub proof fn lemma_free_count_exact(pm: PhysicalMemory)
    requires
        pm.wf(),
    ensures
        pm.free_frames() == pm.frames().len() - count_ones(pm.frames()),
{
}

/// Marking free frames used and then freeing them again gives back the same occupancy and the
/// same free count, and the range is again a run that `find_free` can report.
pub proof fn lemma_use_then_free_restores(
    before: PhysicalMemory,
    taken: PhysicalMemory,
    after: PhysicalMemory,
    start: int,
    count: int,
)
    requires
        before.wf(),
        taken.wf(),
        after.wf(),
        all_zeros(before.frames(), start, start + count),
        taken.frames() == fill(before.frames(), start, start + count, true),
        after.frames() == fill(taken.frames(), start, start + count, false),
    ensures
        after.frames() == before.frames(),
        after.free_frames() == before.free_frames(),
        zero_run(after.frames(), start, count),
{
    assert(after.frames() =~= before.frames());
}

/// Once every frame is in use no frame is free, and no run of one free frame exists.
pub proof fn lemma_exhausted(pm: PhysicalMemory)
    requires
        pm.wf(),
        forall|i: int| 0 <= i < pm.frames().len() ==> pm.frames()[i],
    ensures
        pm.free_frames() == 0,
        forall|t: int| 0 <= t ==> !zero_run(pm.frames(), t, 1),
{
    lemma_count_constant(pm.frames(), true);
    assert forall|t: int| 0 <= t implies !zero_run(pm.frames(), t, 1) by {
        if t < pm.frames().len() {
            assert(pm.frames()[t]);
        }
    }
}

} // verus!
