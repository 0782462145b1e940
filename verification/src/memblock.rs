//! The early region allocator: a forward-only bump allocator over the
//! regions of the firmware's memory map. It serves the buffers that the later
//! tiers are built in, and gives nothing back.

use vstd::prelude::*;
use crate::addr::{PhysAddr, align_up, checked_align_up, lemma_align_up, lemma_align_up_least};
use crate::multiboot::{
    MemoryRegion, MultibootMmapEntry, RegionType, get_memory_region, region_list, regions_sorted,
};

verus! {

/// The address at which a request of the given alignment would start in
/// region `i`, of whose bytes `cursors[i]` were handed out.
pub open spec fn start_at(regions: Seq<MemoryRegion>, cursors: Seq<usize>, i: int, align: usize) -> int {
    align_up(regions[i].base + cursors[i], align as int)
}

/// Whether region `i` is usable and has room left for the request.
pub open spec fn fits_at(
    regions: Seq<MemoryRegion>,
    cursors: Seq<usize>,
    i: int,
    size: usize,
    align: usize,
) -> bool {
    &&& regions[i].kind == RegionType::Available
    &&& align > 0
    &&& start_at(regions, cursors, i, align) + size <= regions[i].end()
}

/// The first region from `from` on that fits the request; the number of
/// regions where none does.
pub open spec fn first_fit_from(
    regions: Seq<MemoryRegion>,
    cursors: Seq<usize>,
    size: usize,
    align: usize,
    from: int,
) -> int
    decreases regions.len() - from,
{
    if from < 0 || from >= regions.len() {
        regions.len() as int
    } else if fits_at(regions, cursors, from, size, align) {
        from
    } else {
        first_fit_from(regions, cursors, size, align, from + 1)
    }
}

/// The region list, and for each region the number of its bytes that were
/// handed out.
pub struct MemBlockAllocator {
    pub regions: Vec<MemoryRegion>,
    pub cursors: Vec<usize>,
}

impl MemBlockAllocator {
    /// The regions ascend without overlap, and no cursor is past the end of
    /// its region.
    pub open spec fn wf(&self) -> bool {
        &&& self.regions@.len() == self.cursors@.len()
        &&& regions_sorted(self.regions@)
        &&& forall|i: int|
            0 <= i < self.cursors@.len() ==> #[trigger] self.cursors@[i] <= self.regions@[i].length
    }

    /// The address at which a request of the given alignment would start in
    /// region `i`.
    pub open spec fn start_in(&self, i: int, align: usize) -> int {
        start_at(self.regions@, self.cursors@, i, align)
    }

    /// Whether region `i` is usable and has room left for the request.
    pub open spec fn fits(&self, i: int, size: usize, align: usize) -> bool {
        fits_at(self.regions@, self.cursors@, i, size, align)
    }

    /// The first region from `from` on that fits the request; the number of
    /// regions where none does.
    pub open spec fn first_fit(&self, size: usize, align: usize, from: int) -> int {
        first_fit_from(self.regions@, self.cursors@, size, align, from)
    }

    /// What one request does: served by the first region that fits, at that
    /// region's cursor rounded up to the alignment, it moves that cursor to
    /// the end of the new range; where no region fits it fails and changes
    /// nothing.
    pub open spec fn allocates(
        pre: &MemBlockAllocator,
        post: &MemBlockAllocator,
        size: usize,
        align: usize,
        r: Option<PhysAddr>,
    ) -> bool {
        let i = pre.first_fit(size, align, 0);
        &&& post.regions@ == pre.regions@
        &&& if i >= pre.regions@.len() {
            r.is_none() && post.cursors@ == pre.cursors@
        } else {
            let start = pre.start_in(i, align);
            &&& r == Some(PhysAddr { addr: start as usize })
            &&& post.cursors@ == pre.cursors@.update(
                i,
                (start + size - pre.regions@[i].base) as usize,
            )
        }
    }

    /// An allocator without regions.
    pub fn new() -> (r: MemBlockAllocator)
        ensures
            r.wf(),
            r.regions@.len() == 0,
    {
        MemBlockAllocator { regions: Vec::new(), cursors: Vec::new() }
    }

    /// Records the regions of the firmware's memory map, with nothing handed
    /// out of any.
    pub fn init(&mut self, entries: &Vec<MultibootMmapEntry>)
        ensures
            final(self).wf(),
            final(self).regions@ == region_list(entries@, entries@.len() as int),
            forall|i: int| 0 <= i < final(self).cursors@.len() ==> final(self).cursors@[i] == 0,
    {
        let regions = get_memory_region(entries);
        let mut cursors: Vec<usize> = Vec::new();
        while cursors.len() < regions.len()
            invariant
                cursors@.len() <= regions@.len(),
                forall|i: int| 0 <= i < cursors@.len() ==> cursors@[i] == 0,
            decreases regions@.len() - cursors@.len(),
        {
            cursors.push(0);
        }
        self.regions = regions;
        self.cursors = cursors;
    }

    /// The region list.
    pub fn mem_region(&self) -> (r: &Vec<MemoryRegion>)
        ensures
            r@ == self.regions@,
    {
        &self.regions
    }

    /// Finds the region that would serve a request, and the address at which
    /// it would: the first usable region with room, and its cursor rounded up
    /// to the alignment. `None` where no region has room.
    pub fn find_fit(&self, size: usize, align: usize) -> (r: Option<(usize, PhysAddr)>)
        requires
            self.wf(),
        ensures
            match r {
                Some((i, start)) => {
                    &&& i == self.first_fit(size, align, 0)
                    &&& i < self.regions@.len()
                    &&& self.fits(i as int, size, align)
                    &&& start@ == self.start_in(i as int, align)
                },
                None => self.first_fit(size, align, 0) >= self.regions@.len(),
            },
    {
        let mut i: usize = 0;
        while i < self.regions.len()
            invariant
                self.wf(),
                i <= self.regions@.len(),
                self.first_fit(size, align, 0) == self.first_fit(size, align, i as int),
            decreases self.regions@.len() - i,
        {
            let region = self.regions[i];
            if region.is_usable() {
                let cursor: usize = self.cursors[i];
                assert(region.end() <= usize::MAX);
                let end: usize = region.base + region.length;
                match checked_align_up(region.base + cursor, align) {
                    Some(start) => {
                        if start <= end && size <= end - start {
                            return Some((i, PhysAddr { addr: start }));
                        }
                    },
                    None => {},
                }
            }
            i = i + 1;
        }
        None
    }

    /// Hands out `size` bytes at a multiple of `align`, from the first usable
    /// region with room for them; `None` where no region has.
    pub fn alloc_bytes(&mut self, size: usize, align: usize) -> (r: Option<PhysAddr>)
        requires
            old(self).wf(),
        ensures
            final(self).wf(),
            Self::allocates(old(self), final(self), size, align, r),
            r.is_none() ==> *final(self) == *old(self),
    {
        match self.find_fit(size, align) {
            None => None,
            Some((i, start)) => {
                proof {
                    lemma_align_up((self.regions@[i as int].base + self.cursors@[i as int]) as int, align as int);
                }
                let base: usize = self.regions[i].base;
                self.cursors.set(i, start.addr - base + size);
                Some(start)
            },
        }
    }
}

/// Successive requests never overlap: the range that the second request is
/// given shares no byte with the range of the first.
pub proof fn lemma_successive_ranges_disjoint(
    before: &MemBlockAllocator,
    between: &MemBlockAllocator,
    after: &MemBlockAllocator,
    first_size: usize,
    first_align: usize,
    second_size: usize,
    second_align: usize,
    first: PhysAddr,
    second: PhysAddr,
)
    requires
        before.wf(),
        MemBlockAllocator::allocates(before, between, first_size, first_align, Some(first)),
        MemBlockAllocator::allocates(between, after, second_size, second_align, Some(second)),
    ensures
        first@ + first_size <= second@ || second@ + second_size <= first@,
{
    let served_first = before.first_fit(first_size, first_align, 0);
    let served_second = between.first_fit(second_size, second_align, 0);
    lemma_first_fit(before, first_size, first_align, 0);
    lemma_first_fit(between, second_size, second_align, 0);
    lemma_align_up(before.regions@[served_first].base + before.cursors@[served_first], first_align as int);
    lemma_align_up(between.regions@[served_second].base + between.cursors@[served_second], second_align as int);
    if served_first < served_second {
        assert(before.regions@[served_first].end() <= before.regions@[served_second].base);
    } else if served_second < served_first {
        assert(before.regions@[served_second].end() <= before.regions@[served_first].base);
    }
}

/// Monotonicity: where the second of two successive requests is served by
/// the region that served the first, or by a later one, its address is not
/// below the end of the first range rounded up to the second alignment.
pub proof fn lemma_successive_monotonic(
    before: &MemBlockAllocator,
    between: &MemBlockAllocator,
    after: &MemBlockAllocator,
    first_size: usize,
    first_align: usize,
    second_size: usize,
    second_align: usize,
    first: PhysAddr,
    second: PhysAddr,
)
    requires
        before.wf(),
        MemBlockAllocator::allocates(before, between, first_size, first_align, Some(first)),
        MemBlockAllocator::allocates(between, after, second_size, second_align, Some(second)),
        before.first_fit(first_size, first_align, 0) <= between.first_fit(second_size, second_align, 0),
    ensures
        second@ >= align_up(first@ + first_size, second_align as int),
{
    let served_first = before.first_fit(first_size, first_align, 0);
    let served_second = between.first_fit(second_size, second_align, 0);
    lemma_first_fit(before, first_size, first_align, 0);
    lemma_first_fit(between, second_size, second_align, 0);
    lemma_align_up(before.regions@[served_first].base + before.cursors@[served_first], first_align as int);
    lemma_align_up(between.regions@[served_second].base + between.cursors@[served_second], second_align as int);
    if served_first < served_second {
        assert(before.regions@[served_first].end() <= before.regions@[served_second].base);
        lemma_align_up_least(first@ + first_size, second_align as int, second@);
    }
}

/// The first fit from `from` on is a region that fits, unless it is the
/// number of regions.
pub proof fn lemma_first_fit(a: &MemBlockAllocator, size: usize, align: usize, from: int)
    requires
        0 <= from,
    ensures
        from <= a.first_fit(size, align, from) || a.first_fit(size, align, from) == a.regions@.len(),
        a.first_fit(size, align, from) <= a.regions@.len(),
        a.first_fit(size, align, from) < a.regions@.len() ==> a.fits(
            a.first_fit(size, align, from),
            size,
            align,
        ),
    decreases a.regions@.len() - from,
{
    if from < a.regions@.len() && !a.fits(from, size, align) {
        lemma_first_fit(a, size, align, from + 1);
    }
}

} // verus!
