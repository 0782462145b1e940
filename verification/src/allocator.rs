//! The kernel heap: eight slab caches over one buddy allocator, and the
//! routing of every request to the cache of its size class.

use vstd::prelude::*;
use crate::addr::{PhysAddr, MAX_ORDER, PAGE_SIZE, block_size, lemma_multiples_chain};
use crate::buddy::{BuddyAllocator, apart, disjoint, first_nonempty, lemma_block_sizes};
use crate::error::MemoryError;
use crate::slab::{SlabCache, lemma_objects_disjoint};

verus! {

/// The number of slab caches.
pub const SLAB_CACHE_COUNT: usize = 8;

/// The largest object size that a slab cache serves.
pub const MAX_CACHE_SIZE: usize = 1024;

/// The object size of the cache with index `i`: 8 bytes for the first, and
/// twice the size before for each of the others.
pub open spec fn class_size(i: int) -> int {
    if i == 0 {
        8
    } else if i == 1 {
        16
    } else if i == 2 {
        32
    } else if i == 3 {
        64
    } else if i == 4 {
        128
    } else if i == 5 {
        256
    } else if i == 6 {
        512
    } else {
        1024
    }
}

/// Whether `i` is the size class of a request of `size` bytes: the first
/// class whose objects are large enough.
pub open spec fn is_class_of(i: int, size: usize) -> bool {
    &&& 0 <= i < SLAB_CACHE_COUNT
    &&& size <= class_size(i)
    &&& i > 0 ==> class_size(i - 1) < size
}

/// The object size of the cache with index `i`.
pub fn cache_size(i: usize) -> (r: usize)
    requires
        i < SLAB_CACHE_COUNT,
    ensures
        r == class_size(i as int),
        0 < r <= PAGE_SIZE,
        PAGE_SIZE % r == 0,
{
    match i {
        0 => 8,
        1 => 16,
        2 => 32,
        3 => 64,
        4 => 128,
        5 => 256,
        6 => 512,
        _ => 1024,
    }
}

/// The size class of a request of `size` bytes; `None` where the request is
/// larger than the largest class.
pub fn size_class_index(size: usize) -> (r: Option<usize>)
    ensures
        match r {
            Some(i) => is_class_of(i as int, size),
            None => size > MAX_CACHE_SIZE,
        },
{
    let mut i: usize = 0;
    while i < SLAB_CACHE_COUNT
        invariant
            i <= SLAB_CACHE_COUNT,
            i > 0 ==> class_size(i - 1) < size,
        decreases SLAB_CACHE_COUNT - i,
    {
        if cache_size(i) >= size {
            return Some(i);
        }
        i = i + 1;
    }
    None
}

/// The buddy allocator together with the slab caches that draw their pages
/// from it.
pub struct SlabHeap {
    pub buddy: BuddyAllocator,
    pub caches: Vec<SlabCache>,
}

impl SlabHeap {
    /// There is one cache per size class; no page of a cache overlaps a free
    /// block of the buddy allocator or a page of another cache.
    pub open spec fn wf(&self) -> bool {
        &&& self.buddy.wf()
        &&& self.caches@.len() == SLAB_CACHE_COUNT
        &&& forall|c: int|
            0 <= c < self.caches@.len() ==> {
                &&& (#[trigger] self.caches@[c]).wf()
                &&& self.caches@[c].object_size == class_size(c)
                &&& self.caches@[c].apart_from(self.buddy@)
            }
        &&& forall|c: int, j: int, c2: int, j2: int|
            0 <= c < self.caches@.len() && 0 <= c2 < self.caches@.len() && c != c2 && 0 <= j
                < self.caches@[c].pages@.len() && 0 <= j2 < self.caches@[c2].pages@.len()
                ==> disjoint(
                (#[trigger] self.caches@[c].pages@[j]).base as int,
                PAGE_SIZE as int,
                (#[trigger] self.caches@[c2].pages@[j2]).base as int,
                PAGE_SIZE as int,
            )
    }

    /// Whether `a` is the address of an object that is handed out at present,
    /// by whichever cache.
    pub open spec fn is_live(&self, a: usize) -> bool {
        exists|c: int| 0 <= c < self.caches@.len() && (#[trigger] self.caches@[c]).is_live(a)
    }

    /// What taking back the object at `ptr` of `size` bytes does: its slot
    /// joins the free list of the page that holds it, in the cache of its
    /// size class, and nothing else changes. Nothing changes at all for a
    /// size that no cache serves.
    pub open spec fn takes_back(pre: &SlabHeap, post: &SlabHeap, ptr: PhysAddr, size: usize) -> bool {
        &&& post.buddy == pre.buddy
        &&& post.caches@.len() == pre.caches@.len()
        &&& size == 0 || size > MAX_CACHE_SIZE ==> *post == *pre
        &&& forall|c2: int|
            0 <= c2 < SLAB_CACHE_COUNT && !is_class_of(c2, size) ==> #[trigger] post.caches@[c2]
                == pre.caches@[c2]
        &&& forall|c: int, m: int|
            size > 0 && is_class_of(c, size) && 0 <= m < pre.caches@[c].pages@.len() ==> {
                let page = pre.caches@[c].pages@[m];
                &&& post.caches@[c].pages@.len() == pre.caches@[c].pages@.len()
                &&& (#[trigger] post.caches@[c].pages@[m]).base == page.base
                &&& post.caches@[c].pages@[m].free@ == if page.base <= ptr.addr < page.base + PAGE_SIZE {
                    page.free@.push(ptr.addr)
                } else {
                    page.free@
                }
            }
    }

    /// Whether no cache owns a page.
    pub open spec fn is_empty(&self) -> bool {
        forall|c: int| 0 <= c < self.caches@.len() ==> (#[trigger] self.caches@[c]).pages@.len() == 0
    }

    /// A heap over `buddy` whose eight caches own no page yet.
    pub fn new(buddy: BuddyAllocator) -> (r: SlabHeap)
        requires
            buddy.wf(),
        ensures
            r.wf(),
            r.buddy == buddy,
            r.is_empty(),
            forall|a: usize| !r.is_live(a),
    {
        let mut caches: Vec<SlabCache> = Vec::new();
        while caches.len() < SLAB_CACHE_COUNT
            invariant
                caches@.len() <= SLAB_CACHE_COUNT,
                forall|c: int|
                    0 <= c < caches@.len() ==> {
                        &&& (#[trigger] caches@[c]).wf()
                        &&& caches@[c].object_size == class_size(c)
                        &&& caches@[c].pages@.len() == 0
                    },
            decreases SLAB_CACHE_COUNT - caches@.len(),
        {
            let size = cache_size(caches.len());
            caches.push(SlabCache::new(size));
        }
        let r = SlabHeap { buddy, caches };
        assert forall|a: usize| !r.is_live(a) by {
            if r.is_live(a) {
                let c = choose|c: int| 0 <= c < r.caches@.len() && (#[trigger] r.caches@[c]).is_live(a);
                assert(r.caches@[c].pages@.len() == 0);
            }
        }
        r
    }

    /// Hands out memory for an object of `size` bytes.
    ///
    /// A request of no bytes gets the null address and changes nothing. A
    /// request of more than 1024 bytes fails with `SizeClassOverflow`. Every
    /// other request goes to the cache of its size class, and gets what that
    /// cache hands out: an address that is not null, a multiple of the class
    /// size, and not handed out at present. The alignment asked for holds
    /// where it divides the class size.
    pub fn allocate(&mut self, size: usize, align: usize) -> (r: Result<PhysAddr, MemoryError>)
        requires
            old(self).wf(),
        ensures
            final(self).wf(),
            final(self).buddy.base == old(self).buddy.base,
            final(self).buddy.nodes.capacity == old(self).buddy.nodes.capacity,
            final(self).buddy.nodes.base == old(self).buddy.nodes.base,
            size == 0 ==> r == Ok::<PhysAddr, MemoryError>(PhysAddr { addr: 0 }),
            size > MAX_CACHE_SIZE ==> r == Err::<PhysAddr, MemoryError>(
                MemoryError::SizeClassOverflow,
            ),
            size == 0 || size > MAX_CACHE_SIZE ==> *final(self) == *old(self),
            forall|c: int|
                is_class_of(c, size) && size > 0 ==> SlabCache::serves(
                    &old(self).caches@[c],
                    &final(self).caches@[c],
                    &old(self).buddy,
                    &final(self).buddy,
                    r,
                ),
            forall|c2: int|
                0 <= c2 < SLAB_CACHE_COUNT && !is_class_of(c2, size)
                    ==> #[trigger] final(self).caches@[c2] == old(self).caches@[c2],
            size == 0 || r.is_err() ==> forall|q: usize|
                final(self).is_live(q) == old(self).is_live(q),
            r.is_err() ==> final(self).buddy == old(self).buddy
                && final(self).caches@.len() == old(self).caches@.len() && forall|c: int|
                0 <= c < SLAB_CACHE_COUNT ==> (#[trigger] final(self).caches@[c]).pages@ == old(self).caches@[c].pages@,
            size > 0 ==> match r {
                Ok(p) => {
                    &&& p@ != 0
                    &&& forall|c: int| is_class_of(c, size) ==> p@ % class_size(c) == 0
                    &&& align > 0 && (exists|c: int| is_class_of(c, size) && class_size(c) % (align as int) == 0)
                        ==> p@ % (align as int) == 0
                    &&& !old(self).is_live(p.addr)
                    &&& final(self).is_live(p.addr)
                    &&& forall|c: int|
                        is_class_of(c, size) ==> (#[trigger] final(self).caches@[c]).is_live(p.addr)
                    &&& forall|q: usize|
                        q != p.addr ==> final(self).is_live(q) == old(self).is_live(q)
                },
                Err(_) => true,
            },
    {
        if size == 0 {
            return Ok(PhysAddr { addr: 0 });
        }
        let index = match size_class_index(size) {
            Some(index) => index,
            None => {
                return Err(MemoryError::SizeClassOverflow);
            },
        };
        assert(forall|c: int| is_class_of(c, size) ==> c == index);
        let ghost v = self.buddy@;
        let r = self.caches[index].alloc_object(&mut self.buddy);
        proof {
            let c0 = index as int;
            assert forall|c: int| 0 <= c < self.caches@.len() implies {
                &&& (#[trigger] self.caches@[c]).wf()
                &&& self.caches@[c].object_size == class_size(c)
                &&& self.caches@[c].apart_from(self.buddy@)
            } by {
                if c != c0 {
                    assert(self.caches@[c] == old(self).caches@[c]);
                    assert(old(self).caches@[c].apart_from(v));
                    assert forall|j: int| 0 <= j < self.caches@[c].pages@.len() implies apart(
                        self.buddy@,
                        (#[trigger] self.caches@[c].pages@[j]).base as int,
                        PAGE_SIZE as int,
                    ) by {
                        assert(apart(v, old(self).caches@[c].pages@[j].base as int, PAGE_SIZE as int));
                    }
                }
            }
            assert forall|c: int, j: int, c2: int, j2: int|
                0 <= c < self.caches@.len() && 0 <= c2 < self.caches@.len() && c != c2 && 0 <= j
                    < self.caches@[c].pages@.len() && 0 <= j2
                    < self.caches@[c2].pages@.len() implies disjoint(
                (#[trigger] self.caches@[c].pages@[j]).base as int,
                PAGE_SIZE as int,
                (#[trigger] self.caches@[c2].pages@[j2]).base as int,
                PAGE_SIZE as int,
            ) by {
                Self::lemma_pages_stay_disjoint(old(self), self, c0, c, j, c2, j2);
            }
            if r.is_ok() {
                let p = r.unwrap().addr;
                let size_c = self.caches@[c0].object_size;
                if align > 0 && (exists|c: int| is_class_of(c, size) && class_size(c) % (align as int) == 0) {
                    lemma_multiples_chain(p as int, size_c as int, align as int);
                }
                assert(!old(self).is_live(p)) by {
                    if old(self).is_live(p) {
                        let c = choose|c: int|
                            0 <= c < old(self).caches@.len() && (#[trigger] old(self).caches@[c]).is_live(p);
                        assert(c != c0);
                        assert(self.caches@[c] == old(self).caches@[c]);
                        Self::lemma_live_in_one_cache(self, c0, c, p);
                    }
                }
                assert forall|q: usize| q != p implies self.is_live(q) == old(self).is_live(q) by {
                    Self::lemma_frame(old(self), self, c0, q);
                }
            } else {
                assert forall|q: usize| self.is_live(q) == old(self).is_live(q) by {
                    assert(self.caches@[c0].pages@ == old(self).caches@[c0].pages@);
                    assert(self.caches@[c0].is_live(q) == old(self).caches@[c0].is_live(q));
                    Self::lemma_frame(old(self), self, c0, q);
                }
            }
        }
        r
    }

    /// Whether `ptr` is handed out at present by the cache that serves
    /// requests of `size` bytes. It never is for a size of zero or of more
    /// than 1024 bytes, which no cache serves.
    pub fn holds_object(&self, ptr: PhysAddr, size: usize) -> (r: bool)
        requires
            self.wf(),
        ensures
            r == (size > 0 && exists|c: int|
                is_class_of(c, size) && (#[trigger] self.caches@[c]).is_live(ptr.addr)),
            r ==> self.is_live(ptr.addr),
    {
        if size == 0 {
            return false;
        }
        match size_class_index(size) {
            None => false,
            Some(index) => {
                assert(forall|c: int| is_class_of(c, size) ==> c == index);
                self.caches[index].holds_object(ptr)
            },
        }
    }

    /// Takes back the object at `ptr`, which a request of `size` bytes was
    /// answered with and which is still handed out.
    ///
    /// The object returns to the cache of its size class. Nothing is done for
    /// a size of zero, whose requests are answered with the null address; a
    /// size of more than 1024 bytes fails with `SizeClassOverflow`.
    pub fn deallocate(&mut self, ptr: PhysAddr, size: usize, align: usize) -> (r: Result<
        (),
        MemoryError,
    >)
        requires
            old(self).wf(),
            forall|c: int|
                is_class_of(c, size) && size > 0 ==> (#[trigger] old(self).caches@[c]).is_live(ptr.addr),
        ensures
            final(self).wf(),
            r == if size > MAX_CACHE_SIZE {
                Err::<(), MemoryError>(MemoryError::SizeClassOverflow)
            } else {
                Ok::<(), MemoryError>(())
            },
            Self::takes_back(old(self), final(self), ptr, size),
            0 < size <= MAX_CACHE_SIZE ==> !final(self).is_live(ptr.addr),
            forall|q: usize|
                q != ptr.addr || size == 0 || size > MAX_CACHE_SIZE ==> final(self).is_live(q) == old(self).is_live(q),
    {
        if size == 0 {
            return Ok(());
        }
        let index = match size_class_index(size) {
            Some(index) => index,
            None => {
                return Err(MemoryError::SizeClassOverflow);
            },
        };
        self.caches[index].dealloc_object(ptr);
        proof {
            let c0 = index as int;
            assert forall|c: int| 0 <= c < self.caches@.len() implies {
                &&& (#[trigger] self.caches@[c]).wf()
                &&& self.caches@[c].object_size == class_size(c)
                &&& self.caches@[c].apart_from(self.buddy@)
            } by {
                if c != c0 {
                    assert(self.caches@[c] == old(self).caches@[c]);
                } else {
                    assert(old(self).caches@[c].apart_from(self.buddy@));
                    assert forall|j: int| 0 <= j < self.caches@[c].pages@.len() implies apart(
                        self.buddy@,
                        (#[trigger] self.caches@[c].pages@[j]).base as int,
                        PAGE_SIZE as int,
                    ) by {
                        assert(apart(
                            self.buddy@,
                            old(self).caches@[c].pages@[j].base as int,
                            PAGE_SIZE as int,
                        ));
                    }
                }
            }
            assert forall|c: int, j: int, c2: int, j2: int|
                0 <= c < self.caches@.len() && 0 <= c2 < self.caches@.len() && c != c2 && 0 <= j
                    < self.caches@[c].pages@.len() && 0 <= j2
                    < self.caches@[c2].pages@.len() implies disjoint(
                (#[trigger] self.caches@[c].pages@[j]).base as int,
                PAGE_SIZE as int,
                (#[trigger] self.caches@[c2].pages@[j2]).base as int,
                PAGE_SIZE as int,
            ) by {
                if c != c0 {
                    assert(self.caches@[c] == old(self).caches@[c]);
                }
                if c2 != c0 {
                    assert(self.caches@[c2] == old(self).caches@[c2]);
                }
                assert(disjoint(
                    old(self).caches@[c].pages@[j].base as int,
                    PAGE_SIZE as int,
                    old(self).caches@[c2].pages@[j2].base as int,
                    PAGE_SIZE as int,
                ));
            }
            assert(!self.is_live(ptr.addr)) by {
                if self.is_live(ptr.addr) {
                    let c = choose|c: int|
                        0 <= c < self.caches@.len() && (#[trigger] self.caches@[c]).is_live(ptr.addr);
                    assert(c != c0);
                    assert(self.caches@[c] == old(self).caches@[c]);
                    Self::lemma_live_in_one_cache(old(self), c0, c, ptr.addr);
                }
            }
            assert forall|q: usize| q != ptr.addr implies self.is_live(q) == old(self).is_live(q) by {
                Self::lemma_frame(old(self), self, c0, q);
            }
        }
        Ok(())
    }

    /// An address is handed out by one cache at most.
    pub proof fn lemma_live_in_one_cache(heap: &SlabHeap, c: int, c2: int, a: usize)
        requires
            heap.wf(),
            0 <= c < SLAB_CACHE_COUNT,
            0 <= c2 < SLAB_CACHE_COUNT,
            c != c2,
            heap.caches@[c].is_live(a),
        ensures
            !heap.caches@[c2].is_live(a),
    {
        let j = choose|j: int|
            0 <= j < heap.caches@[c].pages@.len() && (#[trigger] heap.caches@[c].pages@[j]).holds_live(
                heap.caches@[c].object_size,
                a,
            );
        if heap.caches@[c2].is_live(a) {
            let j2 = choose|j2: int|
                0 <= j2 < heap.caches@[c2].pages@.len() && (#[trigger] heap.caches@[c2].pages@[j2]).holds_live(
                    heap.caches@[c2].object_size,
                    a,
                );
            assert(heap.caches@[c].wf() && heap.caches@[c2].wf());
            assert(disjoint(
                heap.caches@[c].pages@[j].base as int,
                PAGE_SIZE as int,
                heap.caches@[c2].pages@[j2].base as int,
                PAGE_SIZE as int,
            ));
        }
    }

    /// Live objects never overlap: two different objects that are handed
    /// out, by one cache or by two, share no byte of the bytes that were asked
    /// for, which are at most those of their size classes.
    pub proof fn lemma_live_objects_disjoint(
        heap: &SlabHeap,
        c: int,
        a: usize,
        a_size: int,
        c2: int,
        b: usize,
        b_size: int,
    )
        requires
            heap.wf(),
            0 <= c < SLAB_CACHE_COUNT,
            0 <= c2 < SLAB_CACHE_COUNT,
            heap.caches@[c].is_live(a),
            heap.caches@[c2].is_live(b),
            a != b,
            0 <= a_size <= class_size(c),
            0 <= b_size <= class_size(c2),
        ensures
            disjoint(a as int, a_size, b as int, b_size),
    {
        assert(heap.caches@[c].wf() && heap.caches@[c2].wf());
        if c == c2 {
            lemma_objects_disjoint(&heap.caches@[c], a, b);
        } else {
            let j = choose|j: int|
                0 <= j < heap.caches@[c].pages@.len() && (#[trigger] heap.caches@[c].pages@[j]).holds_live(
                    heap.caches@[c].object_size,
                    a,
                );
            let j2 = choose|j2: int|
                0 <= j2 < heap.caches@[c2].pages@.len() && (
                #[trigger] heap.caches@[c2].pages@[j2]).holds_live(heap.caches@[c2].object_size, b);
            assert(disjoint(
                heap.caches@[c].pages@[j].base as int,
                PAGE_SIZE as int,
                heap.caches@[c2].pages@[j2].base as int,
                PAGE_SIZE as int,
            ));
        }
    }

    /// Where one cache alone has changed, and an address is handed out by it
    /// as before, the address is handed out by the heap as before.
    pub proof fn lemma_frame(pre: &SlabHeap, post: &SlabHeap, c0: int, q: usize)
        requires
            pre.caches@.len() == post.caches@.len(),
            0 <= c0 < pre.caches@.len(),
            forall|c: int| 0 <= c < pre.caches@.len() && c != c0 ==> post.caches@[c] == pre.caches@[c],
            post.caches@[c0].is_live(q) == pre.caches@[c0].is_live(q),
        ensures
            post.is_live(q) == pre.is_live(q),
    {
        if pre.is_live(q) {
            let c = choose|c: int| 0 <= c < pre.caches@.len() && (#[trigger] pre.caches@[c]).is_live(q);
            assert(post.caches@[c].is_live(q));
        }
        if post.is_live(q) {
            let c = choose|c: int| 0 <= c < post.caches@.len() && (#[trigger] post.caches@[c]).is_live(q);
            assert(pre.caches@[c].is_live(q));
        }
    }

    /// After the cache `c0` has answered a request, the pages of different
    /// caches still do not overlap: a page that it took from the buddy
    /// allocator lay within a free block, which no page of a cache overlaps.
    pub proof fn lemma_pages_stay_disjoint(
        pre: &SlabHeap,
        post: &SlabHeap,
        c0: int,
        c: int,
        j: int,
        c2: int,
        j2: int,
    )
        requires
            pre.wf(),
            pre.caches@.len() == post.caches@.len(),
            0 <= c0 < pre.caches@.len(),
            forall|k: int| 0 <= k < pre.caches@.len() && k != c0 ==> post.caches@[k] == pre.caches@[k],
            ({
                let v = pre.buddy@;
                let source = first_nonempty(v, 0);
                let before = pre.caches@[c0].pages@;
                let after = post.caches@[c0].pages@;
                ||| (after.len() == before.len() && forall|m: int|
                    0 <= m < before.len() ==> (#[trigger] after[m]).base == before[m].base)
                ||| (0 <= source < MAX_ORDER && v[source].len() > 0 && after.len() == before.len() + 1
                    && after.last().base == v[source].last() && forall|m: int|
                    0 <= m < before.len() ==> (#[trigger] after[m]) == before[m])
            }),
            0 <= c < post.caches@.len(),
            0 <= c2 < post.caches@.len(),
            c != c2,
            0 <= j < post.caches@[c].pages@.len(),
            0 <= j2 < post.caches@[c2].pages@.len(),
        ensures
            disjoint(
                post.caches@[c].pages@[j].base as int,
                PAGE_SIZE as int,
                post.caches@[c2].pages@[j2].base as int,
                PAGE_SIZE as int,
            ),
    {
        let v = pre.buddy@;
        let source = first_nonempty(v, 0);
        let before = pre.caches@[c0].pages@;
        let after = post.caches@[c0].pages@;
        lemma_block_sizes();
        if c == c0 && j >= before.len() {
            assert(post.caches@[c2] == pre.caches@[c2]);
            assert(pre.caches@[c2].apart_from(v));
            assert(apart(v, pre.caches@[c2].pages@[j2].base as int, PAGE_SIZE as int));
            assert(disjoint(
                v[source][v[source].len() - 1] as int,
                block_size(source as usize) as int,
                pre.caches@[c2].pages@[j2].base as int,
                PAGE_SIZE as int,
            ));
            assert(after[j] == after.last());
        } else if c2 == c0 && j2 >= before.len() {
            assert(post.caches@[c] == pre.caches@[c]);
            assert(pre.caches@[c].apart_from(v));
            assert(apart(v, pre.caches@[c].pages@[j].base as int, PAGE_SIZE as int));
            assert(disjoint(
                v[source][v[source].len() - 1] as int,
                block_size(source as usize) as int,
                pre.caches@[c].pages@[j].base as int,
                PAGE_SIZE as int,
            ));
            assert(after[j2] == after.last());
        } else {
            assert(post.caches@[c].pages@[j].base == pre.caches@[c].pages@[j].base);
            assert(post.caches@[c2].pages@[j2].base == pre.caches@[c2].pages@[j2].base);
            assert(disjoint(
                pre.caches@[c].pages@[j].base as int,
                PAGE_SIZE as int,
                pre.caches@[c2].pages@[j2].base as int,
                PAGE_SIZE as int,
            ));
        }
    }
}

} // verus!
