//! What the boot loader hands over: the information block and the records of
//! its memory map, and the region list that is built from them.

use vstd::prelude::*;

verus! {

/// The value that a compliant boot loader passes along with the information
/// block.
pub const MAGIC_VALUE: u32 = 0x2badb002;

/// The flag bits that the kernel needs set: alignment, memory information
/// and video.
pub const REQUIRED_FLAGS: u32 = 0x7;

/// What a stretch of physical memory may be used for.
#[derive(Clone, Copy, Debug, PartialEq, Eq, Structural)]
pub enum RegionType {
    /// Free for the kernel to use.
    Available,
    /// Not to be touched.
    Reserved,
    /// Holds ACPI tables; usable once they were read.
    AcpiReclaimable,
    /// Must be kept across hibernation.
    Nvs,
    /// Defective memory.
    BadRam,
}

/// One record of the firmware's memory map.
#[derive(Clone, Copy, Debug)]
pub struct MultibootMmapEntry {
    pub size: u32,
    pub addr: u64,
    pub len: u64,
    pub entry_type: RegionType,
}

/// The information block of the boot loader. Addresses of boot loader data
/// are kept as numbers.
#[derive(Clone, Copy, Debug)]
pub struct MultibootInfo {
    pub flags: u32,
    pub mem_lower: u32,
    pub mem_upper: u32,
    pub boot_device: u32,
    pub cmdline: u32,
    pub mods_count: u32,
    pub mods_addr: u32,
    pub syms: [u8; 16],
    pub mmap_length: u32,
    pub mmap_addr: u32,
    pub drives_length: u32,
    pub drives_addr: u32,
    pub config_table: u32,
    pub boot_loader_name: usize,
    pub apm_table: u32,
}

/// Why the hand-over from the boot loader was not accepted.
#[derive(Clone, Copy, Debug, PartialEq, Eq, Structural)]
pub enum BootError {
    /// The magic number is not the one of the boot protocol.
    IncorrectMagic,
    /// One of the required flag bits is not set.
    RequiredFlagsNotSet,
}

/// Whether all three required flag bits are set in `flags`.
pub open spec fn has_required_flags(flags: u32) -> bool {
    flags & 0x7 == 0x7
}

/// Checks the hand-over: the magic number first, then the flags.
pub fn check_handover(magic_number: u32, boot_info: &MultibootInfo) -> (r: Result<(), BootError>)
    ensures
        r == if magic_number != MAGIC_VALUE {
            Err::<(), BootError>(BootError::IncorrectMagic)
        } else if !has_required_flags(boot_info.flags) {
            Err::<(), BootError>(BootError::RequiredFlagsNotSet)
        } else {
            Ok::<(), BootError>(())
        },
{
    if magic_number != MAGIC_VALUE {
        Err(BootError::IncorrectMagic)
    } else if (boot_info.flags & REQUIRED_FLAGS) != REQUIRED_FLAGS {
        Err(BootError::RequiredFlagsNotSet)
    } else {
        Ok(())
    }
}

/// A contiguous span of physical memory, as recorded at boot.
#[derive(Clone, Copy, Debug, PartialEq, Eq, Structural)]
pub struct MemoryRegion {
    pub base: usize,
    pub length: usize,
    pub kind: RegionType,
}

impl MemoryRegion {
    /// The first address past the region.
    pub open spec fn end(&self) -> int {
        self.base + self.length
    }

    pub fn base(&self) -> (r: usize)
        ensures
            r == self.base,
    {
        self.base
    }

    pub fn size(&self) -> (r: usize)
        ensures
            r == self.length,
    {
        self.length
    }

    pub fn is_empty(&self) -> (r: bool)
        ensures
            r == (self.length == 0),
    {
        self.length == 0
    }

    pub fn is_usable(&self) -> (r: bool)
        ensures
            r == (self.kind == RegionType::Available),
    {
        match self.kind {
            RegionType::Available => true,
            _ => false,
        }
    }
}

/// Whether a record can join the regions `before`: it ends within the
/// address space and starts where the last of them ends, or later.
pub open spec fn joins(before: Seq<MemoryRegion>, entry: MultibootMmapEntry) -> bool {
    &&& entry.addr + entry.len <= usize::MAX
    &&& before.len() > 0 ==> before.last().end() <= entry.addr
}

/// The region that a record describes.
pub open spec fn region_of(entry: MultibootMmapEntry) -> MemoryRegion {
    MemoryRegion { base: entry.addr as usize, length: entry.len as usize, kind: entry.entry_type }
}

/// The region list built from the first `n` records of the map: the records
/// in their order, without those that reach past the address space or start
/// before the end of the one kept last.
pub open spec fn region_list(entries: Seq<MultibootMmapEntry>, n: int) -> Seq<MemoryRegion>
    decreases n,
{
    if n <= 0 {
        Seq::empty()
    } else {
        let before = region_list(entries, n - 1);
        if joins(before, entries[n - 1]) {
            before.push(region_of(entries[n - 1]))
        } else {
            before
        }
    }
}

/// Whether the records of a map ascend without overlap, each within the
/// address space.
pub open spec fn map_sorted(entries: Seq<MultibootMmapEntry>) -> bool {
    &&& forall|i: int| 0 <= i < entries.len() ==> (#[trigger] entries[i]).addr + entries[i].len <= usize::MAX
    &&& forall|i: int, j: int|
        0 <= i < j < entries.len() ==> (#[trigger] entries[i]).addr + entries[i].len <= (
        #[trigger] entries[j]).addr
}

/// Of a map whose records ascend without overlap, the region list keeps every
/// record, in its place.
pub proof fn lemma_sorted_map_is_kept(entries: Seq<MultibootMmapEntry>, n: int)
    requires
        map_sorted(entries),
        0 <= n <= entries.len(),
    ensures
        region_list(entries, n).len() == n,
        forall|i: int| 0 <= i < n ==> #[trigger] region_list(entries, n)[i] == region_of(entries[i]),
    decreases n,
{
    if n > 0 {
        lemma_sorted_map_is_kept(entries, n - 1);
        let before = region_list(entries, n - 1);
        if n > 1 {
            assert(before.last() == region_of(entries[n - 2]));
            assert(entries[n - 2].addr + entries[n - 2].len <= entries[n - 1].addr);
        }
        assert(joins(before, entries[n - 1]));
    }
}

/// Whether the regions ascend without overlap, each within the address space.
pub open spec fn regions_sorted(regions: Seq<MemoryRegion>) -> bool {
    &&& forall|i: int| 0 <= i < regions.len() ==> (#[trigger] regions[i]).end() <= usize::MAX
    &&& forall|i: int, j: int|
        0 <= i < j < regions.len() ==> (#[trigger] regions[i]).end() <= (#[trigger] regions[j]).base
}

/// Builds the region list from the records of the firmware's memory map.
pub fn get_memory_region(entries: &Vec<MultibootMmapEntry>) -> (regions: Vec<MemoryRegion>)
    ensures
        regions@ == region_list(entries@, entries@.len() as int),
        regions_sorted(regions@),
{
    let mut regions: Vec<MemoryRegion> = Vec::new();
    let mut n: usize = 0;
    while n < entries.len()
        invariant
            n <= entries@.len(),
            regions@ == region_list(entries@, n as int),
            regions_sorted(regions@),
        decreases entries@.len() - n,
    {
        let entry = entries[n];
        let fits: bool = entry.addr <= usize::MAX as u64 && entry.len <= usize::MAX as u64 - entry.addr;
        let after: bool = if regions.len() == 0 {
            true
        } else {
            let last = regions[regions.len() - 1];
            (last.base + last.length) as u64 <= entry.addr
        };
        if fits && after {
            let ghost before = regions@;
            regions.push(
                MemoryRegion {
                    base: entry.addr as usize,
                    length: entry.len as usize,
                    kind: entry.entry_type,
                },
            );
            assert forall|i: int, j: int| 0 <= i < j < regions@.len() implies (#[trigger] regions@[i]).end()
                <= (#[trigger] regions@[j]).base by {
                if j == before.len() && i < j - 1 {
                    assert(before[i].end() <= before[j - 1].base);
                }
            }
        }
        n = n + 1;
    }
    regions
}

/// Whether region `i` is the first of the largest usable regions.
pub open spec fn is_biggest_available(regions: Seq<MemoryRegion>, i: int) -> bool {
    &&& 0 <= i < regions.len()
    &&& regions[i].kind == RegionType::Available
    &&& forall|j: int|
        0 <= j < regions.len() && (#[trigger] regions[j]).kind == RegionType::Available
            ==> regions[j].length <= regions[i].length
    &&& forall|j: int|
        0 <= j < i && (#[trigger] regions[j]).kind == RegionType::Available ==> regions[j].length
            < regions[i].length
}

/// The index of the largest usable region, the first of them where several
/// are as large; `None` where no region is usable.
pub fn get_biggest_available_segment_index(regions: &Vec<MemoryRegion>) -> (r: Option<usize>)
    ensures
        match r {
            Some(i) => is_biggest_available(regions@, i as int),
            None => forall|j: int|
                0 <= j < regions@.len() ==> (#[trigger] regions@[j]).kind != RegionType::Available,
        },
{
    let mut best: Option<usize> = None;
    let mut n: usize = 0;
    while n < regions.len()
        invariant
            n <= regions@.len(),
            match best {
                Some(i) => i < n && is_biggest_available(regions@.take(n as int), i as int),
                None => forall|j: int|
                    0 <= j < n ==> (#[trigger] regions@[j]).kind != RegionType::Available,
            },
        decreases regions@.len() - n,
    {
        let region = regions[n];
        let ghost seen = regions@.take(n as int);
        let ghost next = regions@.take(n + 1);
        assert(forall|j: int| 0 <= j < n ==> seen[j] == next[j]);
        if region.is_usable() {
            match best {
                None => {
                    best = Some(n);
                },
                Some(i) => {
                    assert(seen[i as int] == next[i as int]);
                    if regions[i].length < region.length {
                        best = Some(n);
                    }
                },
            }
        }
        n = n + 1;
    }
    assert(regions@.take(n as int) =~= regions@);
    best
}

} // verus!
