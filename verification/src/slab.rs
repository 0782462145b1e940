//! Slab caches: objects of one fixed size each, cut from single pages that
//! the buddy allocator supplies. A page that a cache owns stays with it.

use vstd::prelude::*;
use crate::addr::{
    PhysAddr, MAX_ORDER, PAGE_SIZE, lemma_multiples_add, lemma_multiples_chain, lemma_page_aligned,
};
use crate::buddy::{
    BuddyAllocator, alloc_lists, apart, disjoint, first_nonempty, lemma_alloc_keeps_apart,
    lemma_block_sizes, lemma_first_nonempty, total_free,
};
use crate::error::MemoryError;

verus! {

/// One page of a cache, with the addresses of its slots that are free.
pub struct SlabPage {
    pub base: usize,
    pub free: Vec<usize>,
}

/// A cache of objects of `object_size` bytes.
pub struct SlabCache {
    pub object_size: usize,
    pub pages: Vec<SlabPage>,
}

/// Whether `a` is the address of a slot of `size` bytes in the page at `base`.
pub open spec fn is_slot(base: usize, size: usize, a: usize) -> bool {
    &&& base <= a
    &&& a + size <= base + PAGE_SIZE
    &&& (a - base) % (size as int) == 0
}

impl SlabPage {
    /// The page is aligned and not at the null address, and its free list
    /// holds slots of the page, none of them twice.
    pub open spec fn wf(&self, size: usize) -> bool {
        &&& self.base != 0
        &&& self.base % PAGE_SIZE == 0
        &&& self.base + PAGE_SIZE <= usize::MAX
        &&& self.free@.no_duplicates()
        &&& forall|x: int|
            0 <= x < self.free@.len() ==> is_slot(self.base, size, #[trigger] self.free@[x])
    }

    /// Whether `a` is a slot of this page that is handed out.
    pub open spec fn holds_live(&self, size: usize, a: usize) -> bool {
        is_slot(self.base, size, a) && !self.free@.contains(a)
    }
}

/// The slots of the page at `base` that start below the offset `off`, the
/// highest first.
pub open spec fn slots_below(base: usize, size: usize, off: int) -> Seq<usize>
    decreases off,
{
    if size == 0 || off < size {
        Seq::empty()
    } else {
        seq![(base + off - size) as usize].add(slots_below(base, size, off - size))
    }
}

/// All slots of the page at `base`, the highest first.
pub open spec fn page_slots(base: usize, size: usize) -> Seq<usize> {
    slots_below(base, size, PAGE_SIZE as int)
}

/// Cuts the page at `base` into slots of `size` bytes: the free list of a
/// fresh page, with the slot at `base` last.
pub fn carve_page(base: usize, size: usize) -> (free: Vec<usize>)
    requires
        0 < size <= PAGE_SIZE,
        PAGE_SIZE % size == 0,
        base + PAGE_SIZE <= usize::MAX,
    ensures
        free@ == page_slots(base, size),
        free@.no_duplicates(),
        free@.len() > 0,
        free@.last() == base,
        forall|x: int| 0 <= x < free@.len() ==> is_slot(base, size, #[trigger] free@[x]),
        forall|a: usize| is_slot(base, size, a) ==> free@.contains(a),
{
    let mut free: Vec<usize> = Vec::new();
    let mut off: usize = PAGE_SIZE;
    while off >= size
        invariant
            0 < size <= PAGE_SIZE,
            off <= PAGE_SIZE,
            off % size == 0,
            base + PAGE_SIZE <= usize::MAX,
            off < PAGE_SIZE ==> free@.len() > 0 && free@.last() == base + off,
            free@.add(slots_below(base, size, off as int)) == page_slots(base, size),
            forall|x: int| 0 <= x < free@.len() ==> is_slot(base, size, #[trigger] free@[x]),
            forall|x: int| 0 <= x < free@.len() ==> (#[trigger] free@[x]) >= base + off,
            forall|x: int, y: int| 0 <= x < y < free@.len() ==> free@[x] != free@[y],
            forall|a: usize| is_slot(base, size, a) && a >= base + off ==> free@.contains(a),
        decreases off,
    {
        let ghost before = free@;
        let ghost upper = off;
        proof {
            lemma_multiples_add(off as int, size as int, size as int);
        }
        off = off - size;
        free.push(base + off);
        proof {
            assert(free@[before.len() as int] == base + off);
            assert(free@.add(slots_below(base, size, off as int)) =~= before.add(
                slots_below(base, size, upper as int),
            ));
            assert forall|a: usize| is_slot(base, size, a) && a >= base + off implies free@.contains(
                a,
            ) by {
                if a >= base + upper {
                    assert(before.contains(a));
                    let x = choose|x: int| 0 <= x < before.len() && before[x] == a;
                    assert(free@[x] == a);
                } else {
                    lemma_multiples_add(a - base, off as int, size as int);
                    let d = a - base - off;
                    assert(0 <= d < size && d % (size as int) == 0);
                    vstd::arithmetic::div_mod::lemma_small_mod(d as nat, size as nat);
                    assert(a == base + off);
                }
            }
        }
    }
    proof {
        vstd::arithmetic::div_mod::lemma_small_mod(off as nat, size as nat);
        assert(free@.add(slots_below(base, size, off as int)) =~= free@);
    }
    free
}

impl SlabCache {
    /// The object size divides the page size, every page is well formed, and
    /// no two pages overlap.
    pub open spec fn wf(&self) -> bool {
        &&& 0 < self.object_size <= PAGE_SIZE
        &&& PAGE_SIZE % self.object_size == 0
        &&& forall|j: int|
            0 <= j < self.pages@.len() ==> (#[trigger] self.pages@[j]).wf(self.object_size)
        &&& forall|j: int, j2: int|
            0 <= j < self.pages@.len() && 0 <= j2 < self.pages@.len() && j != j2 ==> disjoint(
                (#[trigger] self.pages@[j]).base as int,
                PAGE_SIZE as int,
                (#[trigger] self.pages@[j2]).base as int,
                PAGE_SIZE as int,
            )
    }

    /// Whether `a` is the address of an object of this cache that is handed
    /// out at present.
    pub open spec fn is_live(&self, a: usize) -> bool {
        exists|j: int|
            0 <= j < self.pages@.len() && (#[trigger] self.pages@[j]).holds_live(self.object_size, a)
    }

    /// Whether no page of the cache overlaps a free block of the lists `v`.
    pub open spec fn apart_from(&self, v: Seq<Seq<usize>>) -> bool {
        forall|j: int|
            0 <= j < self.pages@.len() ==> apart(
                v,
                (#[trigger] self.pages@[j]).base as int,
                PAGE_SIZE as int,
            )
    }

    /// The first page from `from` on with a free slot; the number of pages
    /// where there is none.
    pub open spec fn first_open_page(&self, from: int) -> int
        decreases self.pages@.len() - from,
    {
        if from < 0 || from >= self.pages@.len() {
            self.pages@.len() as int
        } else if self.pages@[from].free@.len() > 0 {
            from
        } else {
            self.first_open_page(from + 1)
        }
    }

    /// What the next request is answered with: the last free slot of the
    /// first page that has one; without such a page, the start of the page
    /// that `buddy` supplies, or the reason why it supplies none.
    pub open spec fn next_object(&self, buddy: &BuddyAllocator) -> Result<PhysAddr, MemoryError> {
        let j = self.first_open_page(0);
        let v = buddy@;
        let source = first_nonempty(v, 0);
        if j < self.pages@.len() {
            Ok(PhysAddr { addr: self.pages@[j].free@.last() })
        } else if source >= MAX_ORDER {
            Err(MemoryError::OrderExhaustion)
        } else if total_free(v) - 1 + source > buddy.nodes.capacity {
            Err(MemoryError::NodeExhaustion)
        } else {
            Ok(PhysAddr { addr: v[source].last() })
        }
    }

    /// What answering one request does to the cache and to `buddy`. With a
    /// free slot at hand, that slot leaves the free list of its page and
    /// nothing else changes. Without one, the cache gains the page that
    /// `buddy` supplies, with every slot but the first free; where `buddy`
    /// supplies none, nothing changes.
    pub open spec fn serves(
        pre: &SlabCache,
        post: &SlabCache,
        pre_buddy: &BuddyAllocator,
        post_buddy: &BuddyAllocator,
        r: Result<PhysAddr, MemoryError>,
    ) -> bool {
        let j = pre.first_open_page(0);
        let v = pre_buddy@;
        let source = first_nonempty(v, 0);
        &&& post.object_size == pre.object_size
        &&& r == pre.next_object(pre_buddy)
        &&& if j < pre.pages@.len() {
            &&& *post_buddy == *pre_buddy
            &&& post.pages@.len() == pre.pages@.len()
            &&& forall|m: int|
                0 <= m < pre.pages@.len() ==> {
                    &&& (#[trigger] post.pages@[m]).base == pre.pages@[m].base
                    &&& post.pages@[m].free@ == if m == j {
                        pre.pages@[m].free@.drop_last()
                    } else {
                        pre.pages@[m].free@
                    }
                }
        } else if r.is_err() {
            &&& *post_buddy == *pre_buddy
            &&& post.pages@ == pre.pages@
        } else {
            &&& 0 <= source < MAX_ORDER
            &&& v[source].len() > 0
            &&& post_buddy@ == alloc_lists(v, 0, source)
            &&& post.pages@.len() == pre.pages@.len() + 1
            &&& post.pages@.last().base == v[source].last()
            &&& post.pages@.last().free@ == page_slots(v[source].last(), pre.object_size).drop_last()
            &&& forall|m: int|
                0 <= m < pre.pages@.len() ==> (#[trigger] post.pages@[m]) == pre.pages@[m]
        }
    }

    /// A cache without pages.
    pub fn new(object_size: usize) -> (r: SlabCache)
        requires
            0 < object_size <= PAGE_SIZE,
            PAGE_SIZE % object_size == 0,
        ensures
            r.wf(),
            r.object_size == object_size,
            r.pages@.len() == 0,
            forall|a: usize| !r.is_live(a),
    {
        SlabCache { object_size, pages: Vec::new() }
    }

    pub fn object_size(&self) -> (r: usize)
        ensures
            r == self.object_size,
    {
        self.object_size
    }

    /// The number of pages that the cache owns.
    pub fn page_count(&self) -> (r: usize)
        ensures
            r == self.pages@.len(),
    {
        self.pages.len()
    }

    /// Hands out one object.
    ///
    /// The object is the last free slot of the first page that has one. Where
    /// no page has, the cache takes one page from `buddy`, cuts it into slots,
    /// and hands out the slot at the start of that page. It fails, changing
    /// nothing, exactly where `buddy` cannot supply the page.
    pub fn alloc_object(&mut self, buddy: &mut BuddyAllocator) -> (r: Result<PhysAddr, MemoryError>)
        requires
            old(self).wf(),
            old(buddy).wf(),
            old(self).apart_from(old(buddy)@),
        ensures
            final(self).wf(),
            final(buddy).wf(),
            final(self).apart_from(final(buddy)@),
            final(self).object_size == old(self).object_size,
            final(buddy).base == old(buddy).base,
            final(buddy).nodes.capacity == old(buddy).nodes.capacity,
            final(buddy).nodes.base == old(buddy).nodes.base,
            forall|a: int, len: int| #[trigger]
                apart(old(buddy)@, a, len) ==> apart(final(buddy)@, a, len),
            Self::serves(old(self), final(self), old(buddy), final(buddy), r),
            match r {
                Ok(p) => {
                    &&& p@ != 0
                    &&& p@ % (old(self).object_size as int) == 0
                    &&& !old(self).is_live(p.addr)
                    &&& final(self).is_live(p.addr)
                    &&& forall|q: usize|
                        q != p.addr ==> final(self).is_live(q) == old(self).is_live(q)
                },
                Err(_) => true,
            },
    {
        let mut j: usize = 0;
        while j < self.pages.len() && self.pages[j].free.len() == 0
            invariant
                *self == *old(self),
                j <= self.pages@.len(),
                self.first_open_page(0) == self.first_open_page(j as int),
            decreases self.pages@.len() - j,
        {
            j = j + 1;
        }
        let size: usize = self.object_size;
        if j < self.pages.len() {
            let ghost before = self.pages@[j as int].free@;
            let slot = self.pages[j].free.pop().unwrap();
            proof {
                let ghost page = old(self).pages@[j as int];
                assert(page.wf(size));
                assert(before[before.len() - 1] == slot);
                assert(is_slot(page.base, size, slot));
                lemma_slot_aligned(page.base, size, slot);
                let ghost after = self.pages@[j as int].free@;
                assert(after =~= before.drop_last());
                assert(!after.contains(slot)) by {
                    if after.contains(slot) {
                        let x = choose|x: int| 0 <= x < after.len() && after[x] == slot;
                        assert(before[x] == slot);
                    }
                }
                assert forall|m: int| 0 <= m < self.pages@.len() implies (#[trigger] self.pages@[m]).wf(
                    size,
                ) by {
                    assert(old(self).pages@[m].wf(size));
                    if m == j {
                        assert forall|x: int| 0 <= x < after.len() implies is_slot(
                            page.base,
                            size,
                            #[trigger] after[x],
                        ) by {
                            assert(after[x] == before[x]);
                        }
                    }
                }
                assert forall|m: int, m2: int|
                    0 <= m < self.pages@.len() && 0 <= m2 < self.pages@.len() && m != m2 implies disjoint(
                    (#[trigger] self.pages@[m]).base as int,
                    PAGE_SIZE as int,
                    (#[trigger] self.pages@[m2]).base as int,
                    PAGE_SIZE as int,
                ) by {
                    assert(disjoint(
                        old(self).pages@[m].base as int,
                        PAGE_SIZE as int,
                        old(self).pages@[m2].base as int,
                        PAGE_SIZE as int,
                    ));
                }
                assert forall|m: int| 0 <= m < self.pages@.len() implies apart(
                    buddy@,
                    (#[trigger] self.pages@[m]).base as int,
                    PAGE_SIZE as int,
                ) by {
                    assert(apart(buddy@, old(self).pages@[m].base as int, PAGE_SIZE as int));
                }
                assert(self.pages@[j as int].holds_live(size, slot));
                assert(!old(self).is_live(slot)) by {
                    if old(self).is_live(slot) {
                        let m = choose|m: int|
                            0 <= m < old(self).pages@.len() && (#[trigger] old(self).pages@[m]).holds_live(
                                size,
                                slot,
                            );
                        if m != j {
                            assert(disjoint(
                                old(self).pages@[m].base as int,
                                PAGE_SIZE as int,
                                old(self).pages@[j as int].base as int,
                                PAGE_SIZE as int,
                            ));
                        }
                    }
                }
                assert forall|q: usize| q != slot implies self.is_live(q) == old(self).is_live(q) by {
                    if old(self).is_live(q) {
                        let m = choose|m: int|
                            0 <= m < old(self).pages@.len() && (#[trigger] old(self).pages@[m]).holds_live(
                                size,
                                q,
                            );
                        if m == j {
                            if after.contains(q) {
                                let x = choose|x: int| 0 <= x < after.len() && after[x] == q;
                                assert(before[x] == q);
                            }
                        }
                        assert(self.pages@[m].holds_live(size, q));
                    }
                    if self.is_live(q) {
                        let m = choose|m: int|
                            0 <= m < self.pages@.len() && (#[trigger] self.pages@[m]).holds_live(size, q);
                        if m == j {
                            if before.contains(q) {
                                let x = choose|x: int| 0 <= x < before.len() && before[x] == q;
                                assert(after[x] == q);
                            }
                        }
                        assert(old(self).pages@[m].holds_live(size, q));
                    }
                }
            }
            return Ok(PhysAddr { addr: slot });
        }
        let ghost v = buddy@;
        proof {
            lemma_first_nonempty(v, 0);
            lemma_block_sizes();
        }
        match buddy.alloc_block(0) {
            Err(e) => Err(e),
            Ok(page) => {
                let base: usize = page.addr;
                let ghost source = first_nonempty(v, 0);
                proof {
                    lemma_page_aligned(base);
                    assert forall|a: int, len: int| #[trigger] apart(v, a, len) implies apart(
                        buddy@,
                        a,
                        len,
                    ) by {
                        lemma_alloc_keeps_apart(v, 0, source, a, len);
                    }
                }
                let mut free = carve_page(base, size);
                let ghost carved = free@;
                let slot = free.pop().unwrap();
                self.pages.push(SlabPage { base, free });
                proof {
                    let ghost count = old(self).pages@.len() as int;
                    let ghost after = self.pages@[count].free@;
                    assert(after =~= carved.drop_last());
                    assert(slot == base);
                    assert(!after.contains(slot)) by {
                        if after.contains(slot) {
                            let x = choose|x: int| 0 <= x < after.len() && after[x] == slot;
                            assert(carved[x] == slot);
                        }
                    }
                    assert(is_slot(base, size, carved[carved.len() - 1]));
                    lemma_slot_aligned(base, size, slot);
                    assert forall|x: int| 0 <= x < after.len() implies is_slot(
                        base,
                        size,
                        #[trigger] after[x],
                    ) by {
                        assert(after[x] == carved[x]);
                    }
                    assert forall|m: int| 0 <= m < count implies disjoint(
                        (#[trigger] self.pages@[m]).base as int,
                        PAGE_SIZE as int,
                        base as int,
                        PAGE_SIZE as int,
                    ) by {
                        assert(self.pages@[m] == old(self).pages@[m]);
                        assert(apart(v, old(self).pages@[m].base as int, PAGE_SIZE as int));
                        assert(disjoint(
                            v[source][v[source].len() - 1] as int,
                            crate::addr::block_size(source as usize) as int,
                            old(self).pages@[m].base as int,
                            PAGE_SIZE as int,
                        ));
                    }
                    assert forall|m: int| 0 <= m < self.pages@.len() implies (#[trigger] self.pages@[m]).wf(
                        size,
                    ) by {
                        if m < count {
                            assert(self.pages@[m] == old(self).pages@[m]);
                        }
                    }
                    assert forall|m: int, m2: int|
                        0 <= m < self.pages@.len() && 0 <= m2 < self.pages@.len() && m != m2 implies disjoint(
                        (#[trigger] self.pages@[m]).base as int,
                        PAGE_SIZE as int,
                        (#[trigger] self.pages@[m2]).base as int,
                        PAGE_SIZE as int,
                    ) by {
                        if m < count && m2 < count {
                            assert(self.pages@[m] == old(self).pages@[m]);
                            assert(self.pages@[m2] == old(self).pages@[m2]);
                        } else if m < count {
                            assert(self.pages@[m2].base == base);
                        } else {
                            assert(self.pages@[m].base == base);
                        }
                    }
                    assert forall|m: int| 0 <= m < self.pages@.len() implies apart(
                        buddy@,
                        (#[trigger] self.pages@[m]).base as int,
                        PAGE_SIZE as int,
                    ) by {
                        if m < count {
                            assert(self.pages@[m] == old(self).pages@[m]);
                            assert(apart(v, old(self).pages@[m].base as int, PAGE_SIZE as int));
                        }
                    }
                    assert(self.pages@[count].holds_live(size, slot));
                    assert(!old(self).is_live(slot)) by {
                        if old(self).is_live(slot) {
                            let m = choose|m: int|
                                0 <= m < count && (#[trigger] old(self).pages@[m]).holds_live(size, slot);
                            assert(self.pages@[m] == old(self).pages@[m]);
                        }
                    }
                    assert forall|q: usize| q != slot implies self.is_live(q) == old(self).is_live(
                        q,
                    ) by {
                        if old(self).is_live(q) {
                            let m = choose|m: int|
                                0 <= m < count && (#[trigger] old(self).pages@[m]).holds_live(size, q);
                            assert(self.pages@[m] == old(self).pages@[m]);
                            assert(self.pages@[m].holds_live(size, q));
                        }
                        if self.is_live(q) {
                            let m = choose|m: int|
                                0 <= m < self.pages@.len() && (#[trigger] self.pages@[m]).holds_live(
                                    size,
                                    q,
                                );
                            if m == count {
                                assert(carved.contains(q));
                                let x = choose|x: int| 0 <= x < carved.len() && carved[x] == q;
                                assert(after[x] == q);
                            } else {
                                assert(self.pages@[m] == old(self).pages@[m]);
                                assert(old(self).pages@[m].holds_live(size, q));
                            }
                        }
                    }
                }
                Ok(PhysAddr { addr: slot })
            },
        }
    }

    /// Whether `ptr` is an object of this cache that is handed out at present.
    pub fn holds_object(&self, ptr: PhysAddr) -> (r: bool)
        requires
            self.wf(),
        ensures
            r == self.is_live(ptr.addr),
    {
        let addr: usize = ptr.addr;
        let size: usize = self.object_size;
        let mut j: usize = 0;
        while j < self.pages.len() && !(self.pages[j].base <= addr && addr - self.pages[j].base
            < PAGE_SIZE)
            invariant
                self.wf(),
                size == self.object_size,
                j <= self.pages@.len(),
                forall|m: int| 0 <= m < j ==> !(#[trigger] self.pages@[m]).holds_live(size, addr),
            decreases self.pages@.len() - j,
        {
            j = j + 1;
        }
        if j >= self.pages.len() {
            return false;
        }
        let page = &self.pages[j];
        proof {
            assert(page.wf(size));
            assert forall|m: int| 0 <= m < self.pages@.len() && m != j implies !(
            #[trigger] self.pages@[m]).holds_live(size, addr) by {
                assert(disjoint(
                    self.pages@[m].base as int,
                    PAGE_SIZE as int,
                    self.pages@[j as int].base as int,
                    PAGE_SIZE as int,
                ));
            }
        }
        let offset: usize = addr - page.base;
        if offset % size != 0 || offset > PAGE_SIZE - size {
            return false;
        }
        let mut x: usize = 0;
        while x < page.free.len()
            invariant
                x <= page.free@.len(),
                j < self.pages@.len(),
                *page == self.pages@[j as int],
                size == self.object_size,
                addr == ptr.addr,
                forall|y: int| 0 <= y < x ==> page.free@[y] != addr,
                forall|m: int|
                    0 <= m < self.pages@.len() && m != j ==> !(#[trigger] self.pages@[m]).holds_live(
                        size,
                        addr,
                    ),
            decreases page.free@.len() - x,
        {
            if page.free[x] == addr {
                assert(page.free@[x as int] == addr);
                assert(page.free@.contains(addr));
                return false;
            }
            x = x + 1;
        }
        assert(self.pages@[j as int].holds_live(size, addr));
        true
    }

    /// Takes back an object that this cache handed out: its slot returns to
    /// the free list of the page that holds it.
    pub fn dealloc_object(&mut self, ptr: PhysAddr)
        requires
            old(self).wf(),
            old(self).is_live(ptr.addr),
        ensures
            final(self).wf(),
            final(self).object_size == old(self).object_size,
            final(self).pages@.len() == old(self).pages@.len(),
            forall|m: int|
                0 <= m < old(self).pages@.len() ==> {
                    let page = old(self).pages@[m];
                    &&& (#[trigger] final(self).pages@[m]).base == page.base
                    &&& final(self).pages@[m].free@ == if page.base <= ptr.addr < page.base + PAGE_SIZE {
                        page.free@.push(ptr.addr)
                    } else {
                        page.free@
                    }
                },
            !final(self).is_live(ptr.addr),
            forall|q: usize| q != ptr.addr ==> final(self).is_live(q) == old(self).is_live(q),
    {
        let size: usize = self.object_size;
        let addr: usize = ptr.addr;
        let ghost owner = choose|m: int|
            0 <= m < self.pages@.len() && (#[trigger] self.pages@[m]).holds_live(size, addr);
        let mut j: usize = 0;
        while j < self.pages.len() && !(self.pages[j].base <= addr && addr - self.pages[j].base
            < PAGE_SIZE)
            invariant
                *self == *old(self),
                self.wf(),
                j <= owner < self.pages@.len(),
                self.pages@[owner].holds_live(size, addr),
                size == self.object_size,
            decreases self.pages@.len() - j,
        {
            assert(is_slot(self.pages@[owner].base, size, addr));
            j = j + 1;
        }
        proof {
            if j != owner {
                assert(disjoint(
                    self.pages@[j as int].base as int,
                    PAGE_SIZE as int,
                    self.pages@[owner].base as int,
                    PAGE_SIZE as int,
                ));
            }
        }
        let ghost before = self.pages@[j as int].free@;
        self.pages[j].free.push(addr);
        proof {
            let ghost after = self.pages@[j as int].free@;
            assert(after[before.len() as int] == addr);
            assert forall|m: int| 0 <= m < self.pages@.len() implies (#[trigger] self.pages@[m]).wf(
                size,
            ) by {
                assert(old(self).pages@[m].wf(size));
            }
            assert forall|m: int, m2: int|
                0 <= m < self.pages@.len() && 0 <= m2 < self.pages@.len() && m != m2 implies disjoint(
                (#[trigger] self.pages@[m]).base as int,
                PAGE_SIZE as int,
                (#[trigger] self.pages@[m2]).base as int,
                PAGE_SIZE as int,
            ) by {
                assert(disjoint(
                    old(self).pages@[m].base as int,
                    PAGE_SIZE as int,
                    old(self).pages@[m2].base as int,
                    PAGE_SIZE as int,
                ));
            }
            assert(!self.is_live(addr)) by {
                if self.is_live(addr) {
                    let m = choose|m: int|
                        0 <= m < self.pages@.len() && (#[trigger] self.pages@[m]).holds_live(size, addr);
                    if m != j {
                        assert(disjoint(
                            self.pages@[m].base as int,
                            PAGE_SIZE as int,
                            self.pages@[j as int].base as int,
                            PAGE_SIZE as int,
                        ));
                    }
                }
            }
            assert forall|q: usize| q != addr implies self.is_live(q) == old(self).is_live(q) by {
                if old(self).is_live(q) {
                    let m = choose|m: int|
                        0 <= m < old(self).pages@.len() && (#[trigger] old(self).pages@[m]).holds_live(
                            size,
                            q,
                        );
                    if m == j {
                        if after.contains(q) {
                            let x = choose|x: int| 0 <= x < after.len() && after[x] == q;
                            assert(before[x] == q);
                        }
                    }
                    assert(self.pages@[m].holds_live(size, q));
                }
                if self.is_live(q) {
                    let m = choose|m: int|
                        0 <= m < self.pages@.len() && (#[trigger] self.pages@[m]).holds_live(size, q);
                    if m == j {
                        if before.contains(q) {
                            let x = choose|x: int| 0 <= x < before.len() && before[x] == q;
                            assert(after[x] == q);
                        }
                    }
                    assert(old(self).pages@[m].holds_live(size, q));
                }
            }
        }
    }
}

/// Two different slots of one page share no byte.
pub proof fn lemma_slots_disjoint(base: usize, size: usize, a: usize, b: usize)
    requires
        size > 0,
        is_slot(base, size, a),
        is_slot(base, size, b),
        a != b,
    ensures
        disjoint(a as int, size as int, b as int, size as int),
{
    let low = if a < b { a } else { b };
    let high = if a < b { b } else { a };
    let gap = high - low;
    lemma_multiples_add(high - base, low - base, size as int);
    if gap < size {
        vstd::arithmetic::div_mod::lemma_small_mod(gap as nat, size as nat);
    }
}

/// Two different objects that a cache has handed out share no byte.
pub proof fn lemma_objects_disjoint(cache: &SlabCache, a: usize, b: usize)
    requires
        cache.wf(),
        cache.is_live(a),
        cache.is_live(b),
        a != b,
    ensures
        disjoint(a as int, cache.object_size as int, b as int, cache.object_size as int),
{
    let size = cache.object_size;
    let j = choose|j: int| 0 <= j < cache.pages@.len() && (#[trigger] cache.pages@[j]).holds_live(size, a);
    let j2 = choose|j2: int|
        0 <= j2 < cache.pages@.len() && (#[trigger] cache.pages@[j2]).holds_live(size, b);
    if j == j2 {
        lemma_slots_disjoint(cache.pages@[j].base, size, a, b);
    } else {
        assert(disjoint(
            cache.pages@[j].base as int,
            PAGE_SIZE as int,
            cache.pages@[j2].base as int,
            PAGE_SIZE as int,
        ));
    }
}

/// A slot of a page starts at a multiple of the slot size, since the page is
/// aligned to the page size and the slot size divides it.
pub proof fn lemma_slot_aligned(base: usize, size: usize, a: usize)
    requires
        0 < size <= PAGE_SIZE,
        PAGE_SIZE % size == 0,
        base % PAGE_SIZE == 0,
        base != 0,
        is_slot(base, size, a),
    ensures
        a % size == 0,
        a != 0,
{
    lemma_multiples_chain(base as int, PAGE_SIZE as int, size as int);
    lemma_multiples_add(a - base, base as int, size as int);
}

} // verus!
