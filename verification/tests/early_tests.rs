use kernel_memory::addr::PhysAddr;
use kernel_memory::memblock::MemBlockAllocator;
use kernel_memory::multiboot::{
    check_handover, get_biggest_available_segment_index, get_memory_region, BootError,
    MemoryRegion, MultibootInfo, MultibootMmapEntry, RegionType, MAGIC_VALUE,
};

fn entry(addr: u64, len: u64, entry_type: RegionType) -> MultibootMmapEntry {
    MultibootMmapEntry { size: 20, addr, len, entry_type }
}

fn info(flags: u32) -> MultibootInfo {
    MultibootInfo {
        flags,
        mem_lower: 0,
        mem_upper: 0,
        boot_device: 0,
        cmdline: 0,
        mods_count: 0,
        mods_addr: 0,
        syms: [0; 16],
        mmap_length: 0,
        mmap_addr: 0,
        drives_length: 0,
        drives_addr: 0,
        config_table: 0,
        boot_loader_name: 0,
        apm_table: 0,
    }
}

fn early(entries: &[MultibootMmapEntry]) -> MemBlockAllocator {
    let mut allocator = MemBlockAllocator::new();
    allocator.init(&entries.to_vec());
    allocator
}

#[test]
fn handover_checks_magic_then_flags() {
    assert_eq!(check_handover(MAGIC_VALUE, &info(0x7)), Ok(()));
    assert_eq!(check_handover(MAGIC_VALUE, &info(0xfff)), Ok(()));
    assert_eq!(check_handover(MAGIC_VALUE, &info(0x3)), Err(BootError::RequiredFlagsNotSet));
    assert_eq!(check_handover(0x1badb002, &info(0x7)), Err(BootError::IncorrectMagic));
    assert_eq!(check_handover(0, &info(0)), Err(BootError::IncorrectMagic));
}

#[test]
fn region_list_keeps_records_in_order() {
    let regions = get_memory_region(&vec![
        entry(0, 0x9fc00, RegionType::Available),
        entry(0x9fc00, 0x400, RegionType::Reserved),
        entry(0x100000, 0x1000000, RegionType::Available),
    ]);
    assert_eq!(
        regions,
        vec![
            MemoryRegion { base: 0, length: 0x9fc00, kind: RegionType::Available },
            MemoryRegion { base: 0x9fc00, length: 0x400, kind: RegionType::Reserved },
            MemoryRegion { base: 0x100000, length: 0x1000000, kind: RegionType::Available },
        ]
    );
    assert_eq!(regions[2].base(), 0x100000);
    assert_eq!(regions[2].size(), 0x1000000);
    assert!(regions[2].is_usable());
    assert!(!regions[1].is_usable());
    assert!(!regions[1].is_empty());
}

#[test]
fn region_list_drops_overlapping_and_overlong_records() {
    let regions = get_memory_region(&vec![
        entry(0x1000, 0x1000, RegionType::Available),
        entry(0x1800, 0x1000, RegionType::Available),
        entry(0x800, 0x100, RegionType::Reserved),
        entry(u64::MAX - 10, 100, RegionType::Available),
        entry(0x2000, 0, RegionType::Available),
        entry(0x2000, 0x1000, RegionType::AcpiReclaimable),
    ]);
    assert_eq!(
        regions,
        vec![
            MemoryRegion { base: 0x1000, length: 0x1000, kind: RegionType::Available },
            MemoryRegion { base: 0x2000, length: 0, kind: RegionType::Available },
            MemoryRegion { base: 0x2000, length: 0x1000, kind: RegionType::AcpiReclaimable },
        ]
    );
    assert!(regions[1].is_empty());
    assert!(get_memory_region(&vec![]).is_empty());
}

#[test]
fn biggest_available_is_the_first_of_the_largest() {
    let regions = vec![
        MemoryRegion { base: 0, length: 0x1000, kind: RegionType::Available },
        MemoryRegion { base: 0x1000, length: 0x9000, kind: RegionType::Reserved },
        MemoryRegion { base: 0x10000, length: 0x4000, kind: RegionType::Available },
        MemoryRegion { base: 0x20000, length: 0x4000, kind: RegionType::Available },
    ];
    assert_eq!(get_biggest_available_segment_index(&regions), Some(2));
    let none = vec![MemoryRegion { base: 0, length: 0x1000, kind: RegionType::BadRam }];
    assert_eq!(get_biggest_available_segment_index(&none), None);
    assert_eq!(get_biggest_available_segment_index(&vec![]), None);
}

#[test]
fn early_alloc_bumps_within_a_region() {
    let mut allocator = early(&[entry(0x1000, 0x10000, RegionType::Available)]);
    assert_eq!(allocator.mem_region().len(), 1);
    assert_eq!(allocator.alloc_bytes(10, 8), Some(PhysAddr::new(0x1000)));
    assert_eq!(allocator.alloc_bytes(100, 64), Some(PhysAddr::new(0x1040)));
    assert_eq!(allocator.alloc_bytes(0, 1), Some(PhysAddr::new(0x10a4)));
    assert_eq!(allocator.alloc_bytes(1, 1), Some(PhysAddr::new(0x10a4)));
    assert_eq!(allocator.alloc_bytes(4, 4), Some(PhysAddr::new(0x10a8)));
    assert_eq!(allocator.cursors, vec![0xac]);
}

#[test]
fn successive_early_allocs_ascend_and_do_not_overlap() {
    let mut allocator = early(&[
        entry(0x1000, 0x100, RegionType::Available),
        entry(0x4000, 0x1000, RegionType::Available),
    ]);
    let layouts: [(usize, usize); 6] = [(0x40, 8), (0x30, 16), (0x80, 32), (0x200, 4096), (0x10, 2), (7, 1)];
    let mut last_end = 0usize;
    let mut got = Vec::new();
    for (size, align) in layouts {
        let p = allocator.alloc_bytes(size, align).unwrap().as_usize();
        assert_eq!(p % align, 0);
        let rounded = (last_end + align - 1) / align * align;
        assert!(p >= rounded);
        last_end = p + size;
        got.push(p);
    }
    assert_eq!(got, vec![0x1000, 0x1040, 0x1080, 0x4000, 0x4200, 0x4210]);
}

#[test]
fn first_fit_may_return_to_an_earlier_region() {
    let mut allocator = early(&[
        entry(0x1000, 0x100, RegionType::Available),
        entry(0x4000, 0x1000, RegionType::Available),
    ]);
    let big = allocator.alloc_bytes(0x200, 1).unwrap().as_usize();
    let small = allocator.alloc_bytes(0x10, 1).unwrap().as_usize();
    assert_eq!(big, 0x4000);
    assert_eq!(small, 0x1000);
    assert!(small + 0x10 <= big);
}

#[test]
fn early_alloc_skips_regions_that_are_not_usable() {
    let mut allocator = early(&[
        entry(0x1000, 0x1000, RegionType::Reserved),
        entry(0x2000, 0x1000, RegionType::Available),
    ]);
    assert_eq!(allocator.alloc_bytes(16, 16), Some(PhysAddr::new(0x2000)));
}

#[test]
fn early_alloc_fails_without_room() {
    let mut allocator = early(&[entry(0x1000, 0x100, RegionType::Available)]);
    assert_eq!(allocator.alloc_bytes(0x101, 1), None);
    assert_eq!(allocator.alloc_bytes(8, 0), None);
    assert_eq!(allocator.alloc_bytes(0x100, 1), Some(PhysAddr::new(0x1000)));
    assert_eq!(allocator.alloc_bytes(1, 1), None);
    assert_eq!(allocator.alloc_bytes(0, 1), Some(PhysAddr::new(0x1100)));
    let mut empty = MemBlockAllocator::new();
    assert_eq!(empty.alloc_bytes(1, 1), None);
}

#[test]
fn find_fit_names_the_region_and_changes_nothing() {
    let mut allocator = early(&[
        entry(0x1000, 0x100, RegionType::Available),
        entry(0x4000, 0x1000, RegionType::Available),
    ]);
    assert_eq!(allocator.find_fit(0x200, 16), Some((1, PhysAddr::new(0x4000))));
    assert_eq!(allocator.find_fit(0x10, 16), Some((0, PhysAddr::new(0x1000))));
    assert_eq!(allocator.find_fit(0x2000, 1), None);
    assert_eq!(allocator.find_fit(1, 0), None);
    assert_eq!(allocator.cursors, vec![0, 0]);
    assert_eq!(allocator.alloc_bytes(1, 1), Some(PhysAddr::new(0x1000)));
    assert_eq!(allocator.find_fit(0x10, 16), Some((0, PhysAddr::new(0x1010))));
}
