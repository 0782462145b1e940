use kernel_memory::addr::{PhysAddr, PAGE_SIZE};
use kernel_memory::allocator::{cache_size, size_class_index, SlabHeap, SLAB_CACHE_COUNT};
use kernel_memory::buddy::BuddyAllocator;
use kernel_memory::error::MemoryError;
use kernel_memory::init::{first_region_with_bytes, memory_init, InitStage, KernelMemory};
use kernel_memory::multiboot::{MemoryRegion, MultibootMmapEntry, RegionType};
use kernel_memory::node_pool::NodePoolAllocator;
use kernel_memory::slab::{carve_page, SlabCache};

fn one_region() -> Vec<MultibootMmapEntry> {
    vec![MultibootMmapEntry {
        size: 20,
        addr: 0x100000,
        len: 16 * 1024 * 1024,
        entry_type: RegionType::Available,
    }]
}

fn buddy_at(base: usize, capacity: usize) -> BuddyAllocator {
    BuddyAllocator::new(PhysAddr::new(base), NodePoolAllocator::new(PhysAddr::new(0x1000), capacity))
}

#[test]
fn memory_init_end_to_end() {
    let memory = memory_init(&one_region()).unwrap();
    assert_eq!(memory.stage(), InitStage::EarlyDecommissioned);
    assert!(memory.early.is_none());
    assert!(memory.node_pool.is_none());
    assert!(memory.buddy.is_none());
    let heap = memory.heap.as_ref().unwrap();
    assert_eq!(heap.buddy.nodes.capacity(), 4096);
    assert_eq!(heap.buddy.base, PhysAddr::new(0x100000));
    let blocks: Vec<Vec<usize>> = heap
        .buddy
        .free_lists
        .iter()
        .map(|list| list.iter().map(|block| block.addr).collect())
        .collect();
    let total: usize = blocks.iter().map(|list| list.len()).sum();
    assert_eq!(total, 1);
    assert_eq!(blocks[8], vec![0x100000]);
    assert_eq!(heap.caches.len(), 8);
    let sizes: Vec<usize> = heap.caches.iter().map(|cache| cache.object_size()).collect();
    assert_eq!(sizes, vec![8, 16, 32, 64, 128, 256, 512, 1024]);
    assert!(heap.caches.iter().all(|cache| cache.page_count() == 0));
}

#[test]
fn memory_init_without_usable_memory_fails() {
    assert_eq!(memory_init(&vec![]).err(), Some(MemoryError::OutOfPhysicalMemory));
    let reserved = vec![MultibootMmapEntry {
        size: 20,
        addr: 0x100000,
        len: 0x100000,
        entry_type: RegionType::Reserved,
    }];
    assert_eq!(memory_init(&reserved).err(), Some(MemoryError::OutOfPhysicalMemory));
    let empty = vec![MultibootMmapEntry {
        size: 20,
        addr: 0x100000,
        len: 0,
        entry_type: RegionType::Available,
    }];
    assert_eq!(memory_init(&empty).err(), Some(MemoryError::OutOfPhysicalMemory));
}

#[test]
fn stages_follow_one_another() {
    let mut memory = KernelMemory::new();
    assert_eq!(memory.stage(), InitStage::Uninitialized);
    assert_eq!(memory.init_node_pool(), Err(MemoryError::UninitializedAllocator));
    assert_eq!(memory.init_buddy(), Err(MemoryError::UninitializedAllocator));
    assert_eq!(memory.init_slabs(), Err(MemoryError::UninitializedAllocator));
    assert_eq!(memory.decommission_early(), Err(MemoryError::UninitializedAllocator));
    assert_eq!(memory.init_early(&one_region()), Ok(()));
    assert_eq!(memory.stage(), InitStage::EarlyReady);
    assert_eq!(memory.init_early(&one_region()), Err(MemoryError::AlreadyInitialized));
    assert_eq!(memory.init_node_pool(), Ok(()));
    assert_eq!(memory.stage(), InitStage::NodeArenaReady);
    assert_eq!(memory.node_pool.as_ref().unwrap().capacity(), 4096);
    assert_eq!(memory.node_pool.as_ref().unwrap().base(), PhysAddr::new(0x100000));
    assert_eq!(memory.init_node_pool(), Err(MemoryError::AlreadyInitialized));
    assert_eq!(memory.init_buddy(), Ok(()));
    assert_eq!(memory.stage(), InitStage::BuddyReady);
    assert_eq!(memory.init_slabs(), Ok(()));
    assert_eq!(memory.stage(), InitStage::SlabReady);
    assert!(memory.early.is_some());
    assert_eq!(memory.init_buddy(), Err(MemoryError::AlreadyInitialized));
    assert_eq!(memory.decommission_early(), Ok(()));
    assert_eq!(memory.stage(), InitStage::EarlyDecommissioned);
    assert!(memory.early.is_none());
}

#[test]
fn node_pool_takes_its_bytes_from_the_early_allocator() {
    let mut memory = KernelMemory::new();
    memory.init_early(&one_region()).unwrap();
    memory.init_node_pool().unwrap();
    let bytes = 4096 * std::mem::size_of::<kernel_memory::node_pool::Node>();
    assert_eq!(memory.early.as_ref().unwrap().cursors, vec![bytes]);
    let next = memory.early_alloc(1, 1).unwrap();
    assert_eq!(next, PhysAddr::new(0x100000 + bytes));
}

#[test]
fn decommission_is_final() {
    let mut memory = memory_init(&one_region()).unwrap();
    assert_eq!(memory.early_alloc(16, 8), Err(MemoryError::DoubleDecommission));
    assert_eq!(memory.early_alloc(0, 1), Err(MemoryError::DoubleDecommission));
    assert_eq!(memory.decommission_early(), Err(MemoryError::DoubleDecommission));
    assert_eq!(memory.stage(), InitStage::EarlyDecommissioned);
    assert!(memory.early.is_none());
}

#[test]
fn early_alloc_before_and_during_boot() {
    let mut memory = KernelMemory::new();
    assert_eq!(memory.early_alloc(16, 8), Err(MemoryError::UninitializedAllocator));
    memory.init_early(&one_region()).unwrap();
    assert_eq!(memory.early_alloc(16, 8), Ok(PhysAddr::new(0x100000)));
    assert_eq!(memory.early_alloc(16, 64), Ok(PhysAddr::new(0x100040)));
    assert_eq!(
        memory.early_alloc(32 * 1024 * 1024, 8),
        Err(MemoryError::OutOfPhysicalMemory)
    );
}

#[test]
fn allocate_before_the_heap_is_up() {
    let mut memory = KernelMemory::new();
    assert_eq!(memory.allocate(0, 1), Ok(PhysAddr::null()));
    assert_eq!(memory.allocate(8, 8), Err(MemoryError::UninitializedAllocator));
    assert_eq!(
        memory.deallocate(PhysAddr::new(0x1000), 8, 8),
        Err(MemoryError::UninitializedAllocator)
    );
    assert_eq!(memory.allocate(1024, 8), Err(MemoryError::UninitializedAllocator));
    assert_eq!(
        memory.deallocate(PhysAddr::new(0x1000), 0, 1),
        Err(MemoryError::UninitializedAllocator)
    );
}

#[test]
fn oversized_requests_overflow_at_every_stage() {
    let mut memory = KernelMemory::new();
    assert_eq!(memory.allocate(1025, 1), Err(MemoryError::SizeClassOverflow));
    assert_eq!(memory.allocate(4096, 8), Err(MemoryError::SizeClassOverflow));
    assert_eq!(
        memory.deallocate(PhysAddr::new(0x1000), 2048, 8),
        Err(MemoryError::SizeClassOverflow)
    );
    memory.init_early(&one_region()).unwrap();
    assert_eq!(memory.allocate(1025, 1), Err(MemoryError::SizeClassOverflow));
    assert_eq!(memory.allocate(1024, 1), Err(MemoryError::UninitializedAllocator));
    let mut ready = memory_init(&one_region()).unwrap();
    assert_eq!(ready.allocate(1025, 1), Err(MemoryError::SizeClassOverflow));
    assert_eq!(
        ready.deallocate(PhysAddr::new(0x100000), 2048, 8),
        Err(MemoryError::SizeClassOverflow)
    );
    assert!(ready.heap.as_ref().unwrap().caches.iter().all(|cache| cache.page_count() == 0));
}

#[test]
fn a_node_pool_at_the_null_address_is_refused() {
    let at_null = vec![MultibootMmapEntry {
        size: 20,
        addr: 0,
        len: 0x100000,
        entry_type: RegionType::Available,
    }];
    assert_eq!(memory_init(&at_null).err(), Some(MemoryError::OutOfPhysicalMemory));
    let mut memory = KernelMemory::new();
    memory.init_early(&at_null).unwrap();
    assert_eq!(memory.init_node_pool(), Err(MemoryError::OutOfPhysicalMemory));
    assert_eq!(memory.stage(), InitStage::EarlyReady);
    assert!(memory.node_pool.is_none());
    assert_eq!(memory.early.as_ref().unwrap().cursors, vec![0]);
    assert_eq!(memory.early_alloc(8, 8), Ok(PhysAddr::new(0)));
    assert_eq!(memory.init_node_pool(), Ok(()));
    assert_eq!(memory.node_pool.as_ref().unwrap().base(), PhysAddr::new(8));
}

#[test]
fn a_reserved_region_at_null_does_not_hinder() {
    let map = vec![
        MultibootMmapEntry { size: 20, addr: 0, len: 0x1000, entry_type: RegionType::Reserved },
        MultibootMmapEntry {
            size: 20,
            addr: 0x100000,
            len: 0x100000,
            entry_type: RegionType::Available,
        },
    ];
    let memory = memory_init(&map).unwrap();
    let heap = memory.heap.as_ref().unwrap();
    assert_eq!(heap.buddy.nodes.base(), PhysAddr::new(0x100000));
    assert_eq!(heap.buddy.nodes.capacity(), 256);
    assert_eq!(heap.buddy.base, PhysAddr::new(0));
}

#[test]
fn buddy_and_arena_stay_in_place_when_a_page_is_taken() {
    let mut memory = memory_init(&one_region()).unwrap();
    memory.allocate(64, 8).unwrap();
    let heap = memory.heap.as_ref().unwrap();
    assert_eq!(heap.buddy.base, PhysAddr::new(0x100000));
    assert_eq!(heap.buddy.nodes.capacity(), 4096);
    assert_eq!(heap.buddy.nodes.base(), PhysAddr::new(0x100000));
}

#[test]
fn allocate_routes_by_size() {
    let mut memory = memory_init(&one_region()).unwrap();
    assert_eq!(memory.allocate(0, 8), Ok(PhysAddr::null()));
    assert_eq!(memory.allocate(1025, 8), Err(MemoryError::SizeClassOverflow));
    assert_eq!(memory.deallocate(PhysAddr::new(0x100000), 1025, 8), Err(MemoryError::SizeClassOverflow));
    let a = memory.allocate(1, 1).unwrap();
    let b = memory.allocate(9, 1).unwrap();
    let c = memory.allocate(1024, 8).unwrap();
    let heap = memory.heap.as_ref().unwrap();
    let pages: Vec<usize> = heap.caches.iter().map(|cache| cache.page_count()).collect();
    assert_eq!(pages, vec![1, 1, 0, 0, 0, 0, 0, 1]);
    assert_eq!(a, PhysAddr::new(0x100000));
    assert_eq!(b, PhysAddr::new(0x101000));
    assert_eq!(c, PhysAddr::new(0x102000));
    assert_eq!(memory.deallocate(PhysAddr::null(), 0, 1), Ok(()));
}

#[test]
fn live_objects_are_distinct_aligned_and_not_null() {
    let mut memory = memory_init(&one_region()).unwrap();
    let requests: [(usize, usize); 10] = [
        (1, 1),
        (8, 8),
        (24, 8),
        (64, 64),
        (100, 4),
        (256, 256),
        (300, 16),
        (512, 512),
        (1000, 8),
        (1024, 1024),
    ];
    let mut live: Vec<(usize, usize, usize)> = Vec::new();
    for round in 0..40 {
        for (size, align) in requests {
            let p = memory.allocate(size, align).unwrap().as_usize();
            assert_ne!(p, 0);
            assert_eq!(p % align, 0);
            for (q, q_size, _) in &live {
                assert!(p + size <= *q || *q + *q_size <= p);
            }
            live.push((p, size, align));
        }
        if round % 3 == 2 {
            for _ in 0..7 {
                let (p, size, align) = live.remove(round % live.len());
                assert_eq!(memory.deallocate(PhysAddr::new(p), size, align), Ok(()));
            }
        }
    }
}

#[test]
fn a_freed_object_is_handed_out_again() {
    let mut memory = memory_init(&one_region()).unwrap();
    let a = memory.allocate(32, 8).unwrap();
    let b = memory.allocate(32, 8).unwrap();
    assert_eq!(a, PhysAddr::new(0x100000));
    assert_eq!(b, PhysAddr::new(0x100020));
    assert_eq!(memory.deallocate(a, 32, 8), Ok(()));
    assert_eq!(memory.allocate(32, 8), Ok(a));
    assert_eq!(memory.allocate(32, 8), Ok(PhysAddr::new(0x100040)));
}

#[test]
fn size_classes_are_fixed() {
    assert_eq!(SLAB_CACHE_COUNT, 8);
    let sizes: Vec<usize> = (0..8).map(cache_size).collect();
    assert_eq!(sizes, vec![8, 16, 32, 64, 128, 256, 512, 1024]);
    assert_eq!(size_class_index(0), Some(0));
    assert_eq!(size_class_index(1), Some(0));
    assert_eq!(size_class_index(8), Some(0));
    assert_eq!(size_class_index(9), Some(1));
    assert_eq!(size_class_index(16), Some(1));
    assert_eq!(size_class_index(17), Some(2));
    assert_eq!(size_class_index(128), Some(4));
    assert_eq!(size_class_index(513), Some(7));
    assert_eq!(size_class_index(1024), Some(7));
    assert_eq!(size_class_index(1025), None);
    assert_eq!(size_class_index(usize::MAX), None);
}

#[test]
fn carve_page_lists_every_slot_once() {
    let slots = carve_page(0x5000, 1024);
    assert_eq!(slots, vec![0x5c00, 0x5800, 0x5400, 0x5000]);
    assert_eq!(carve_page(0x5000, PAGE_SIZE), vec![0x5000]);
    assert_eq!(carve_page(0x5000, 8).len(), 512);
}

#[test]
fn cache_takes_a_page_only_when_it_has_no_slot() {
    let mut buddy = buddy_at(0x8000, 8);
    let mut cache = SlabCache::new(1024);
    assert_eq!(cache.object_size(), 1024);
    assert_eq!(cache.page_count(), 0);
    let mut got = Vec::new();
    for _ in 0..4 {
        got.push(cache.alloc_object(&mut buddy).unwrap().as_usize());
    }
    assert_eq!(got, vec![0x8000, 0x8400, 0x8800, 0x8c00]);
    assert_eq!(cache.page_count(), 1);
    assert_eq!(cache.alloc_object(&mut buddy), Ok(PhysAddr::new(0x9000)));
    assert_eq!(cache.page_count(), 2);
    cache.dealloc_object(PhysAddr::new(0x8400));
    assert_eq!(cache.alloc_object(&mut buddy), Ok(PhysAddr::new(0x8400)));
    assert_eq!(cache.alloc_object(&mut buddy), Ok(PhysAddr::new(0x9400)));
    assert_eq!(cache.page_count(), 2);
}

#[test]
fn cache_fails_when_the_buddy_has_no_page() {
    let mut buddy = buddy_at(0x1000, 4);
    let mut cache = SlabCache::new(2048);
    assert_eq!(cache.alloc_object(&mut buddy), Ok(PhysAddr::new(0x1000)));
    assert_eq!(cache.alloc_object(&mut buddy), Ok(PhysAddr::new(0x1800)));
    assert_eq!(cache.alloc_object(&mut buddy), Err(MemoryError::OrderExhaustion));
    assert_eq!(cache.page_count(), 1);
    let mut tight = buddy_at(0x8000, 1);
    let mut other = SlabCache::new(64);
    assert_eq!(other.alloc_object(&mut tight), Err(MemoryError::NodeExhaustion));
    assert_eq!(other.page_count(), 0);
}

#[test]
fn heap_fails_with_the_buddy_error() {
    let mut heap = SlabHeap::new(buddy_at(0x1000, 4));
    assert_eq!(heap.allocate(4096, 8), Err(MemoryError::SizeClassOverflow));
    assert_eq!(heap.allocate(1024, 8), Ok(PhysAddr::new(0x1000)));
    assert_eq!(heap.allocate(8, 8), Err(MemoryError::OrderExhaustion));
    assert_eq!(heap.allocate(1000, 8), Ok(PhysAddr::new(0x1400)));
    assert_eq!(heap.deallocate(PhysAddr::new(0x1000), 1024, 8), Ok(()));
    assert_eq!(heap.allocate(600, 8), Ok(PhysAddr::new(0x1000)));
}

#[test]
fn first_region_with_bytes_skips_empty_regions() {
    let regions = vec![
        MemoryRegion { base: 0x1000, length: 0, kind: RegionType::Available },
        MemoryRegion { base: 0x2000, length: 0x100, kind: RegionType::Reserved },
        MemoryRegion { base: 0x4000, length: 0x100, kind: RegionType::Available },
    ];
    assert_eq!(first_region_with_bytes(&regions), Some(0x2000));
    assert_eq!(first_region_with_bytes(&regions[..1].to_vec()), None);
    assert_eq!(first_region_with_bytes(&vec![]), None);
}

#[test]
fn alignment_beyond_the_class_size_is_not_kept() {
    let mut memory = memory_init(&one_region()).unwrap();
    let a = memory.allocate(8, 64).unwrap().as_usize();
    let b = memory.allocate(8, 64).unwrap().as_usize();
    assert_eq!(a, 0x100000);
    assert_eq!(b, 0x100008);
    assert_eq!(b % 8, 0);
    assert_ne!(b % 64, 0);
}

#[test]
fn holds_object_tells_live_from_free() {
    let mut memory = KernelMemory::new();
    assert!(!memory.holds_object(PhysAddr::new(0x100000), 8));
    let mut memory = memory_init(&one_region()).unwrap();
    assert!(!memory.holds_object(PhysAddr::new(0x100000), 8));
    let a = memory.allocate(100, 4).unwrap();
    assert_eq!(a, PhysAddr::new(0x100000));
    assert!(memory.holds_object(a, 100));
    assert!(memory.holds_object(a, 128));
    assert!(!memory.holds_object(a, 8));
    assert!(!memory.holds_object(a, 0));
    assert!(!memory.holds_object(a, 2000));
    assert!(!memory.holds_object(PhysAddr::new(0x100080), 100));
    assert!(!memory.holds_object(PhysAddr::new(0x100001), 100));
    assert!(!memory.holds_object(PhysAddr::new(0x200000), 100));
    assert_eq!(memory.deallocate(a, 100, 4), Ok(()));
    assert!(!memory.holds_object(a, 100));
    let heap = memory.heap.as_ref().unwrap();
    assert!(!heap.holds_object(a, 100));
    assert!(!heap.caches[4].holds_object(a));
    assert_eq!(heap.caches[4].pages[0].free.last(), Some(&0x100000));
    assert_eq!(heap.caches[4].pages[0].free.len(), 32);
}

#[test]
fn a_fresh_page_keeps_every_slot_but_the_first() {
    let mut buddy = buddy_at(0x8000, 8);
    let mut cache = SlabCache::new(512);
    assert_eq!(cache.alloc_object(&mut buddy), Ok(PhysAddr::new(0x8000)));
    assert_eq!(cache.pages.len(), 1);
    assert_eq!(cache.pages[0].base, 0x8000);
    assert_eq!(
        cache.pages[0].free,
        vec![0x8e00, 0x8c00, 0x8a00, 0x8800, 0x8600, 0x8400, 0x8200]
    );
    assert!(cache.holds_object(PhysAddr::new(0x8000)));
    assert!(!cache.holds_object(PhysAddr::new(0x8200)));
}
