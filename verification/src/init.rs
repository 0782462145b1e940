//! Bringing the memory tiers up, in one fixed order, and the entry points
//! that the rest of the kernel uses once they are up.

use vstd::prelude::*;
use crate::addr::{PhysAddr, MAX_ORDER, PAGE_SIZE};
use crate::allocator::{
    SlabHeap, class_size, is_class_of, size_class_index, MAX_CACHE_SIZE, SLAB_CACHE_COUNT,
};
use crate::slab::SlabCache;
use crate::buddy::{BuddyAllocator, empty_lists, seed_order};
use crate::error::MemoryError;
use crate::memblock::{MemBlockAllocator, first_fit_from, lemma_first_fit, start_at};
use crate::multiboot::{
    MemoryRegion, MultibootMmapEntry, get_biggest_available_segment_index, is_biggest_available,
    region_list,
};
use crate::node_pool::{Node, NodePoolAllocator};

verus! {

/// How far the memory tiers have been brought up. The stages follow one
/// another in this order, and none is entered twice.
#[derive(Clone, Copy, Debug, PartialEq, Eq, Structural)]
pub enum InitStage {
    Uninitialized,
    EarlyReady,
    NodeArenaReady,
    BuddyReady,
    SlabReady,
    EarlyDecommissioned,
}

/// The place of a stage in the order of the stages.
pub open spec fn stage_rank(stage: InitStage) -> int {
    match stage {
        InitStage::Uninitialized => 0,
        InitStage::EarlyReady => 1,
        InitStage::NodeArenaReady => 2,
        InitStage::BuddyReady => 3,
        InitStage::SlabReady => 4,
        InitStage::EarlyDecommissioned => 5,
    }
}

/// What a step answers that is taken at the wrong stage: a tier that it
/// builds on is missing, or the step was taken before.
pub open spec fn out_of_turn(stage: InitStage, expected: InitStage) -> MemoryError {
    if stage_rank(stage) < stage_rank(expected) {
        MemoryError::UninitializedAllocator
    } else {
        MemoryError::AlreadyInitialized
    }
}

/// Whether region `i` is the first region that is not empty.
pub open spec fn is_first_nonempty_region(regions: Seq<MemoryRegion>, i: int) -> bool {
    &&& 0 <= i < regions.len()
    &&& regions[i].length > 0
    &&& forall|j: int| 0 <= j < i ==> (#[trigger] regions[j]).length == 0
}

/// The number of slots that the node arena gets: the pages of the largest
/// usable region `i`.
pub open spec fn node_count(regions: Seq<MemoryRegion>, i: int) -> int {
    regions[i].length as int / PAGE_SIZE as int
}

/// Where the early allocator, with `cursors` as they stand, places the node
/// arena of `capacity` slots.
pub open spec fn arena_place(regions: Seq<MemoryRegion>, cursors: Seq<usize>, capacity: int) -> int {
    let bytes = (capacity * vstd::layout::size_of::<Node>()) as usize;
    let align = vstd::layout::align_of::<Node>() as usize;
    start_at(regions, cursors, first_fit_from(regions, cursors, bytes, align, 0), align)
}

/// Whether the node arena can be carved out: there is a usable region, the
/// bytes of the arena can be counted in a machine word, the early allocator
/// has room for them, and the place that it has is not the null address.
pub open spec fn node_pool_fits(regions: Seq<MemoryRegion>, cursors: Seq<usize>) -> bool {
    exists|i: int|
        {
            &&& #[trigger] is_biggest_available(regions, i)
            &&& node_count(regions, i) * vstd::layout::size_of::<Node>() <= usize::MAX
            &&& first_fit_from(
                regions,
                cursors,
                (node_count(regions, i) * vstd::layout::size_of::<Node>()) as usize,
                vstd::layout::align_of::<Node>() as usize,
                0,
            ) < regions.len()
            &&& arena_place(regions, cursors, node_count(regions, i)) != 0
        }
}

/// Where the node arena of `capacity` slots lies: where the early allocator,
/// with nothing handed out yet, places a request of its bytes.
pub open spec fn arena_start(regions: Seq<MemoryRegion>, capacity: usize) -> int {
    arena_place(regions, Seq::new(regions.len(), |i: int| 0usize), capacity as int)
}

/// The tiers of the kernel's memory management, each in its slot, and the
/// stage that their construction has reached.
pub struct KernelMemory {
    pub stage: InitStage,
    pub early: Option<MemBlockAllocator>,
    pub node_pool: Option<NodePoolAllocator>,
    pub buddy: Option<BuddyAllocator>,
    pub heap: Option<SlabHeap>,
}

impl KernelMemory {
    /// Each stage has its slots filled: the early allocator from its
    /// construction to its teardown, the node arena until the buddy allocator
    /// takes it over, the buddy allocator until the heap takes it over.
    pub open spec fn wf(&self) -> bool {
        &&& self.early.is_some() <==> 1 <= stage_rank(self.stage) <= 4
        &&& self.node_pool.is_some() <==> stage_rank(self.stage) == 2
        &&& self.buddy.is_some() <==> stage_rank(self.stage) == 3
        &&& self.heap.is_some() <==> stage_rank(self.stage) >= 4
        &&& self.early.is_some() ==> self.early.unwrap().wf()
        &&& self.node_pool.is_some() ==> self.node_pool.unwrap().wf() && self.node_pool.unwrap().in_use()
            == 0
        &&& self.buddy.is_some() ==> self.buddy.unwrap().wf()
        &&& self.heap.is_some() ==> self.heap.unwrap().wf()
    }

    /// The state before anything was built.
    pub fn new() -> (r: KernelMemory)
        ensures
            r.wf(),
            r.stage == InitStage::Uninitialized,
    {
        KernelMemory {
            stage: InitStage::Uninitialized,
            early: None,
            node_pool: None,
            buddy: None,
            heap: None,
        }
    }

    pub fn stage(&self) -> (r: InitStage)
        ensures
            r == self.stage,
    {
        self.stage
    }

    /// Whether the step that leads on from `expected` is in turn.
    fn check_turn(&self, expected: InitStage) -> (r: Result<(), MemoryError>)
        ensures
            r == if self.stage == expected {
                Ok::<(), MemoryError>(())
            } else {
                Err::<(), MemoryError>(out_of_turn(self.stage, expected))
            },
    {
        let have = rank_of(self.stage);
        let want = rank_of(expected);
        if have == want {
            Ok(())
        } else if have < want {
            Err(MemoryError::UninitializedAllocator)
        } else {
            Err(MemoryError::AlreadyInitialized)
        }
    }

    /// First step: builds the early region allocator from the firmware's
    /// memory map.
    pub fn init_early(&mut self, entries: &Vec<MultibootMmapEntry>) -> (r: Result<(), MemoryError>)
        requires
            old(self).wf(),
        ensures
            final(self).wf(),
            match r {
                Ok(_) => {
                    &&& old(self).stage == InitStage::Uninitialized
                    &&& final(self).stage == InitStage::EarlyReady
                    &&& final(self).early.unwrap().regions@ == region_list(
                        entries@,
                        entries@.len() as int,
                    )
                    &&& final(self).early.unwrap().cursors@ == Seq::new(
                        final(self).early.unwrap().regions@.len(),
                        |i: int| 0usize,
                    )
                },
                Err(e) => {
                    &&& old(self).stage != InitStage::Uninitialized
                    &&& e == out_of_turn(old(self).stage, InitStage::Uninitialized)
                    &&& *final(self) == *old(self)
                },
            },
    {
        match self.check_turn(InitStage::Uninitialized) {
            Err(e) => {
                return Err(e);
            },
            Ok(_) => {},
        }
        let mut early = MemBlockAllocator::new();
        early.init(entries);
        assert(early.cursors@ =~= Seq::new(early.regions@.len(), |i: int| 0usize));
        self.early = Some(early);
        self.stage = InitStage::EarlyReady;
        Ok(())
    }

    /// Second step: carves the node arena out of the early allocator, with
    /// one slot for each page of the largest usable region. An arena at the
    /// null address is refused before anything is handed out.
    pub fn init_node_pool(&mut self) -> (r: Result<(), MemoryError>)
        requires
            old(self).wf(),
        ensures
            final(self).wf(),
            r.is_ok() <==> old(self).stage == InitStage::EarlyReady && node_pool_fits(
                old(self).early.unwrap().regions@,
                old(self).early.unwrap().cursors@,
            ),
            match r {
                Ok(_) => {
                    let regions = old(self).early.unwrap().regions@;
                    let pool = final(self).node_pool.unwrap();
                    &&& final(self).stage == InitStage::NodeArenaReady
                    &&& exists|i: int| #[trigger]
                        is_biggest_available(regions, i) && pool.capacity == node_count(regions, i)
                    &&& pool.base@ != 0
                    &&& MemBlockAllocator::allocates(
                        &old(self).early.unwrap(),
                        &final(self).early.unwrap(),
                        (pool.capacity * vstd::layout::size_of::<Node>()) as usize,
                        vstd::layout::align_of::<Node>() as usize,
                        Some(pool.base),
                    )
                },
                Err(e) => {
                    &&& *final(self) == *old(self)
                    &&& e == if old(self).stage == InitStage::EarlyReady {
                        MemoryError::OutOfPhysicalMemory
                    } else {
                        out_of_turn(old(self).stage, InitStage::EarlyReady)
                    }
                },
            },
    {
        match self.check_turn(InitStage::EarlyReady) {
            Err(e) => {
                return Err(e);
            },
            Ok(_) => {},
        }
        let mut early = self.early.take().unwrap();
        let ghost regions = early.regions@;
        let ghost cursors = early.cursors@;
        let index = match get_biggest_available_segment_index(early.mem_region()) {
            Some(index) => index,
            None => {
                self.early = Some(early);
                return Err(MemoryError::OutOfPhysicalMemory);
            },
        };
        assert(forall|i: int| is_biggest_available(regions, i) ==> i == index);
        let needed_nodes: usize = early.mem_region()[index].size() / PAGE_SIZE;
        let node_size: usize = core::mem::size_of::<Node>();
        let node_align: usize = core::mem::align_of::<Node>();
        let bytes = match needed_nodes.checked_mul(node_size) {
            Some(bytes) => bytes,
            None => {
                self.early = Some(early);
                return Err(MemoryError::OutOfPhysicalMemory);
            },
        };
        let place = match early.find_fit(bytes, node_align) {
            Some((_, place)) => place,
            None => {
                self.early = Some(early);
                return Err(MemoryError::OutOfPhysicalMemory);
            },
        };
        if place.is_null() {
            self.early = Some(early);
            return Err(MemoryError::OutOfPhysicalMemory);
        }
        let base = early.alloc_bytes(bytes, node_align).unwrap();
        assert(is_biggest_available(regions, index as int));
        self.early = Some(early);
        self.node_pool = Some(NodePoolAllocator::new(base, needed_nodes));
        self.stage = InitStage::NodeArenaReady;
        Ok(())
    }

    /// Third step: builds the buddy allocator over the span that starts at
    /// the first region that is not empty, and hands it the node arena.
    pub fn init_buddy(&mut self) -> (r: Result<(), MemoryError>)
        requires
            old(self).wf(),
        ensures
            final(self).wf(),
            final(self).early == old(self).early,
            r.is_ok() <==> old(self).stage == InitStage::NodeArenaReady && exists|i: int|
                0 <= i < old(self).early.unwrap().regions@.len()
                    && (#[trigger] old(self).early.unwrap().regions@[i]).length > 0,
            match r {
                Ok(_) => {
                    let regions = old(self).early.unwrap().regions@;
                    let buddy = final(self).buddy.unwrap();
                    &&& final(self).stage == InitStage::BuddyReady
                    &&& exists|i: int| #[trigger]
                        is_first_nonempty_region(regions, i) && buddy.base@ == regions[i].base
                    &&& buddy.nodes.capacity == old(self).node_pool.unwrap().capacity
                    &&& buddy.nodes.base == old(self).node_pool.unwrap().base
                    &&& match seed_order(buddy.base.addr, MAX_ORDER - 1) {
                        Some(k) if buddy.nodes.capacity > 0 => buddy@ == empty_lists().update(
                            k,
                            seq![buddy.base.addr],
                        ),
                        _ => buddy@ == empty_lists(),
                    }
                },
                Err(e) => {
                    &&& *final(self) == *old(self)
                    &&& e == if old(self).stage == InitStage::NodeArenaReady {
                        MemoryError::OutOfPhysicalMemory
                    } else {
                        out_of_turn(old(self).stage, InitStage::NodeArenaReady)
                    }
                },
            },
    {
        match self.check_turn(InitStage::NodeArenaReady) {
            Err(e) => {
                return Err(e);
            },
            Ok(_) => {},
        }
        let early = self.early.take().unwrap();
        let found = first_region_with_bytes(early.mem_region());
        self.early = Some(early);
        match found {
            None => Err(MemoryError::OutOfPhysicalMemory),
            Some(base) => {
                let nodes = self.node_pool.take().unwrap();
                self.buddy = Some(BuddyAllocator::new(PhysAddr { addr: base }, nodes));
                self.stage = InitStage::BuddyReady;
                Ok(())
            },
        }
    }

    /// Fourth step: builds the heap, with its eight empty slab caches, over
    /// the buddy allocator.
    pub fn init_slabs(&mut self) -> (r: Result<(), MemoryError>)
        requires
            old(self).wf(),
        ensures
            final(self).wf(),
            final(self).early == old(self).early,
            match r {
                Ok(_) => {
                    &&& old(self).stage == InitStage::BuddyReady
                    &&& final(self).stage == InitStage::SlabReady
                    &&& final(self).heap.unwrap().buddy == old(self).buddy.unwrap()
                    &&& final(self).heap.unwrap().is_empty()
                    &&& forall|a: usize| !final(self).heap.unwrap().is_live(a)
                },
                Err(e) => {
                    &&& old(self).stage != InitStage::BuddyReady
                    &&& e == out_of_turn(old(self).stage, InitStage::BuddyReady)
                    &&& *final(self) == *old(self)
                },
            },
    {
        match self.check_turn(InitStage::BuddyReady) {
            Err(e) => {
                return Err(e);
            },
            Ok(_) => {},
        }
        let buddy = self.buddy.take().unwrap();
        self.heap = Some(SlabHeap::new(buddy));
        self.stage = InitStage::SlabReady;
        Ok(())
    }

    /// Last step: tears the early region allocator down, once the heap is
    /// up. A second teardown is answered with `DoubleDecommission`.
    pub fn decommission_early(&mut self) -> (r: Result<(), MemoryError>)
        requires
            old(self).wf(),
        ensures
            final(self).wf(),
            final(self).heap == old(self).heap,
            match r {
                Ok(_) => {
                    &&& old(self).stage == InitStage::SlabReady
                    &&& final(self).stage == InitStage::EarlyDecommissioned
                    &&& final(self).early.is_none()
                },
                Err(e) => {
                    &&& old(self).stage != InitStage::SlabReady
                    &&& e == if old(self).stage == InitStage::EarlyDecommissioned {
                        MemoryError::DoubleDecommission
                    } else {
                        MemoryError::UninitializedAllocator
                    }
                    &&& *final(self) == *old(self)
                },
            },
    {
        match self.stage {
            InitStage::SlabReady => {
                let _ = self.early.take();
                self.stage = InitStage::EarlyDecommissioned;
                Ok(())
            },
            InitStage::EarlyDecommissioned => Err(MemoryError::DoubleDecommission),
            _ => Err(MemoryError::UninitializedAllocator),
        }
    }

    /// A request to the early region allocator. After the teardown it is
    /// answered with `DoubleDecommission`, whatever is asked for; before the
    /// allocator is built, with `UninitializedAllocator`; and with
    /// `OutOfPhysicalMemory` where no region has room.
    pub fn early_alloc(&mut self, size: usize, align: usize) -> (r: Result<PhysAddr, MemoryError>)
        requires
            old(self).wf(),
        ensures
            final(self).wf(),
            final(self).stage == old(self).stage,
            final(self).node_pool == old(self).node_pool,
            final(self).buddy == old(self).buddy,
            final(self).heap == old(self).heap,
            old(self).stage == InitStage::EarlyDecommissioned ==> r == Err::<PhysAddr, MemoryError>(
                MemoryError::DoubleDecommission,
            ) && *final(self) == *old(self),
            old(self).stage == InitStage::Uninitialized ==> r == Err::<PhysAddr, MemoryError>(
                MemoryError::UninitializedAllocator,
            ) && *final(self) == *old(self),
            old(self).early.is_some() ==> final(self).early.is_some() && match r {
                Ok(p) => MemBlockAllocator::allocates(
                    &old(self).early.unwrap(),
                    &final(self).early.unwrap(),
                    size,
                    align,
                    Some(p),
                ),
                Err(e) => e == MemoryError::OutOfPhysicalMemory && MemBlockAllocator::allocates(
                    &old(self).early.unwrap(),
                    &final(self).early.unwrap(),
                    size,
                    align,
                    None,
                ),
            },
    {
        match self.stage {
            InitStage::EarlyDecommissioned => {
                return Err(MemoryError::DoubleDecommission);
            },
            InitStage::Uninitialized => {
                return Err(MemoryError::UninitializedAllocator);
            },
            _ => {},
        }
        let mut early = self.early.take().unwrap();
        let found = early.alloc_bytes(size, align);
        self.early = Some(early);
        match found {
            Some(p) => Ok(p),
            None => Err(MemoryError::OutOfPhysicalMemory),
        }
    }

    /// Whether `a` is the address of an object that the heap has handed out
    /// and not taken back.
    pub open spec fn is_live(&self, a: usize) -> bool {
        self.heap.is_some() && self.heap.unwrap().is_live(a)
    }

    /// The kernel's entry point for requests of memory.
    ///
    /// A request of no bytes is answered with the null address at every
    /// stage. The size class is looked up next: a request of more than 1024
    /// bytes fails with `SizeClassOverflow`, at every stage too. Before the
    /// heap is up, every other request fails with `UninitializedAllocator`.
    /// Afterwards the heap answers.
    pub fn allocate(&mut self, size: usize, align: usize) -> (r: Result<PhysAddr, MemoryError>)
        requires
            old(self).wf(),
        ensures
            final(self).wf(),
            final(self).stage == old(self).stage,
            final(self).early == old(self).early,
            size == 0 ==> r == Ok::<PhysAddr, MemoryError>(PhysAddr { addr: 0 }),
            size > MAX_CACHE_SIZE ==> r == Err::<PhysAddr, MemoryError>(MemoryError::SizeClassOverflow),
            0 < size <= MAX_CACHE_SIZE && old(self).heap.is_none() ==> r == Err::<PhysAddr, MemoryError>(
                MemoryError::UninitializedAllocator,
            ),
            old(self).heap.is_some() ==> {
                &&& final(self).heap.is_some()
                &&& final(self).heap.unwrap().buddy.base == old(self).heap.unwrap().buddy.base
                &&& final(self).heap.unwrap().buddy.nodes.capacity == old(self).heap.unwrap().buddy.nodes.capacity
                &&& final(self).heap.unwrap().buddy.nodes.base == old(self).heap.unwrap().buddy.nodes.base
            },
            size == 0 || size > MAX_CACHE_SIZE || old(self).heap.is_none() ==> *final(self) == *old(self),
            old(self).heap.is_some() ==> forall|c: int|
                is_class_of(c, size) && size > 0 ==> SlabCache::serves(
                    &old(self).heap.unwrap().caches@[c],
                    &final(self).heap.unwrap().caches@[c],
                    &old(self).heap.unwrap().buddy,
                    &final(self).heap.unwrap().buddy,
                    r,
                ),
            old(self).heap.is_some() ==> forall|c2: int|
                0 <= c2 < SLAB_CACHE_COUNT && !is_class_of(c2, size)
                    ==> #[trigger] final(self).heap.unwrap().caches@[c2]
                    == old(self).heap.unwrap().caches@[c2],
            size == 0 || r.is_err() ==> forall|q: usize|
                final(self).is_live(q) == old(self).is_live(q),
            size > 0 ==> match r {
                Ok(p) => {
                    &&& p@ != 0
                    &&& forall|c: int| is_class_of(c, size) ==> p@ % class_size(c) == 0
                    &&& align > 0 && (exists|c: int| is_class_of(c, size) && class_size(c) % (align as int) == 0)
                        ==> p@ % (align as int) == 0
                    &&& !old(self).is_live(p.addr)
                    &&& final(self).is_live(p.addr)
                    &&& forall|c: int|
                        is_class_of(c, size) ==> (#[trigger] final(self).heap.unwrap().caches@[c]).is_live(
                            p.addr,
                        )
                    &&& forall|q: usize|
                        q != p.addr ==> final(self).is_live(q) == old(self).is_live(q)
                },
                Err(_) => true,
            },
    {
        if size == 0 {
            return Ok(PhysAddr { addr: 0 });
        }
        if size_class_index(size).is_none() {
            return Err(MemoryError::SizeClassOverflow);
        }
        match self.heap.take() {
            None => Err(MemoryError::UninitializedAllocator),
            Some(heap) => {
                let mut heap = heap;
                let r = heap.allocate(size, align);
                self.heap = Some(heap);
                r
            },
        }
    }

    /// Whether the heap is up and `ptr` is handed out at present by the cache
    /// that serves requests of `size` bytes.
    pub fn holds_object(&self, ptr: PhysAddr, size: usize) -> (r: bool)
        requires
            self.wf(),
        ensures
            r == (self.heap.is_some() && size > 0 && exists|c: int|
                is_class_of(c, size) && (#[trigger] self.heap.unwrap().caches@[c]).is_live(ptr.addr)),
            r ==> self.is_live(ptr.addr),
    {
        match &self.heap {
            None => false,
            Some(heap) => heap.holds_object(ptr, size),
        }
    }

    /// The kernel's entry point for giving memory back: `ptr` is what a
    /// request of `size` bytes was answered with, and is still handed out.
    ///
    /// The size class is looked up first: a size of more than 1024 bytes
    /// fails with `SizeClassOverflow` at every stage. Before the heap is up
    /// there is nothing to give back to, and the answer to every other size is
    /// `UninitializedAllocator`.
    pub fn deallocate(&mut self, ptr: PhysAddr, size: usize, align: usize) -> (r: Result<
        (),
        MemoryError,
    >)
        requires
            old(self).wf(),
            old(self).heap.is_some() ==> forall|c: int|
                is_class_of(c, size) && size > 0 ==> (#[trigger] old(self).heap.unwrap().caches@[c]).is_live(
                    ptr.addr,
                ),
        ensures
            final(self).wf(),
            final(self).stage == old(self).stage,
            final(self).early == old(self).early,
            old(self).heap.is_none() || size > MAX_CACHE_SIZE ==> *final(self) == *old(self),
            old(self).heap.is_some() ==> final(self).heap.is_some() && SlabHeap::takes_back(
                &old(self).heap.unwrap(),
                &final(self).heap.unwrap(),
                ptr,
                size,
            ),
            r == if size > MAX_CACHE_SIZE {
                Err::<(), MemoryError>(MemoryError::SizeClassOverflow)
            } else if old(self).heap.is_none() {
                Err::<(), MemoryError>(MemoryError::UninitializedAllocator)
            } else {
                Ok::<(), MemoryError>(())
            },
            r.is_ok() && size > 0 ==> !final(self).is_live(ptr.addr),
            forall|q: usize|
                q != ptr.addr || size == 0 || r.is_err() ==> final(self).is_live(q) == old(self).is_live(q),
    {
        if size_class_index(size).is_none() {
            return Err(MemoryError::SizeClassOverflow);
        }
        match self.heap.take() {
            None => Err(MemoryError::UninitializedAllocator),
            Some(heap) => {
                let mut heap = heap;
                let r = heap.deallocate(ptr, size, align);
                self.heap = Some(heap);
                r
            },
        }
    }
}

/// The place of a stage in the order of the stages.
fn rank_of(stage: InitStage) -> (r: u8)
    ensures
        r == stage_rank(stage),
{
    match stage {
        InitStage::Uninitialized => 0,
        InitStage::EarlyReady => 1,
        InitStage::NodeArenaReady => 2,
        InitStage::BuddyReady => 3,
        InitStage::SlabReady => 4,
        InitStage::EarlyDecommissioned => 5,
    }
}

/// The base of the first region that is not empty.
pub fn first_region_with_bytes(regions: &Vec<MemoryRegion>) -> (r: Option<usize>)
    ensures
        match r {
            Some(base) => exists|i: int| #[trigger]
                is_first_nonempty_region(regions@, i) && base == regions@[i].base,
            None => forall|i: int| 0 <= i < regions@.len() ==> (#[trigger] regions@[i]).length == 0,
        },
{
    let mut i: usize = 0;
    while i < regions.len()
        invariant
            i <= regions@.len(),
            forall|j: int| 0 <= j < i ==> (#[trigger] regions@[j]).length == 0,
        decreases regions@.len() - i,
    {
        if !regions[i].is_empty() {
            assert(is_first_nonempty_region(regions@, i as int));
            return Some(regions[i].base());
        }
        i = i + 1;
    }
    None
}

/// Brings the memory tiers up from the firmware's memory map: the early
/// region allocator, the node arena, the buddy allocator, the slab caches, and
/// at last the teardown of the early allocator.
///
/// It fails, with `OutOfPhysicalMemory`, where the node arena cannot be
/// carved out, or only at the null address, or every region is empty.
pub fn memory_init(entries: &Vec<MultibootMmapEntry>) -> (r: Result<KernelMemory, MemoryError>)
    ensures
        ({
            let regions = region_list(entries@, entries@.len() as int);
            let fresh = Seq::new(regions.len(), |i: int| 0usize);
            &&& r.is_ok() <==> node_pool_fits(regions, fresh) && exists|i: int|
                0 <= i < regions.len() && (#[trigger] regions[i]).length > 0
            &&& match r {
                Ok(memory) => {
                    let heap = memory.heap.unwrap();
                    &&& memory.wf()
                    &&& memory.stage == InitStage::EarlyDecommissioned
                    &&& memory.early.is_none()
                    &&& heap.is_empty()
                    &&& forall|a: usize| !memory.is_live(a)
                    &&& exists|i: int| #[trigger]
                        is_biggest_available(regions, i) && heap.buddy.nodes.capacity == node_count(
                            regions,
                            i,
                        )
                    &&& heap.buddy.nodes.base@ == arena_start(regions, heap.buddy.nodes.capacity)
                    &&& heap.buddy.nodes.base@ != 0
                    &&& exists|i: int| #[trigger]
                        is_first_nonempty_region(regions, i) && heap.buddy.base@ == regions[i].base
                    &&& match seed_order(heap.buddy.base.addr, MAX_ORDER - 1) {
                        Some(k) if heap.buddy.nodes.capacity > 0 => heap.buddy@
                            == empty_lists().update(k, seq![heap.buddy.base.addr]),
                        _ => heap.buddy@ == empty_lists(),
                    }
                },
                Err(e) => e == MemoryError::OutOfPhysicalMemory,
            }
        }),
{
    let mut memory = KernelMemory::new();
    match memory.init_early(entries) {
        Err(e) => {
            return Err(e);
        },
        Ok(_) => {},
    }
    let ghost fresh = memory.early.unwrap();
    match memory.init_node_pool() {
        Err(e) => {
            return Err(e);
        },
        Ok(_) => {},
    }
    proof {
        let capacity = memory.node_pool.unwrap().capacity;
        lemma_first_fit(
            &fresh,
            (capacity * vstd::layout::size_of::<Node>()) as usize,
            vstd::layout::align_of::<Node>() as usize,
            0,
        );
    }
    match memory.init_buddy() {
        Err(e) => {
            return Err(e);
        },
        Ok(_) => {},
    }
    match memory.init_slabs() {
        Err(e) => {
            return Err(e);
        },
        Ok(_) => {},
    }
    match memory.decommission_early() {
        Err(e) => {
            return Err(e);
        },
        Ok(_) => {},
    }
    Ok(memory)
}

} // verus!
