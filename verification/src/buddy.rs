//! The buddy page allocator: free lists of power-of-two blocks of pages.

use vstd::prelude::*;
use crate::addr::{
    PhysAddr, MAX_ORDER, PAGE_SIZE, block_size, is_aligned, lemma_block_size, lemma_buddy_bits,
    lemma_split_bits, lemma_lower_order_bits, lemma_order_sizes,
};
use crate::error::MemoryError;
use crate::node_pool::NodePoolAllocator;

verus! {

/// One entry of a free list: the address of a free block, and the arena slot
/// that holds its list node.
#[derive(Clone, Copy, Debug)]
pub struct FreeBlock {
    pub node: usize,
    pub addr: usize,
}

/// Free lists of blocks of `PAGE_SIZE << order` bytes, one list per order,
/// with the node arena that backs their entries.
pub struct BuddyAllocator {
    pub base: PhysAddr,
    pub free_lists: Vec<Vec<FreeBlock>>,
    pub nodes: NodePoolAllocator,
}

/// Appends `block` to the list of order `k`.
fn list_push(lists: &mut Vec<Vec<FreeBlock>>, k: usize, block: FreeBlock)
    requires
        k < old(lists)@.len(),
    ensures
        final(lists)@.len() == old(lists)@.len(),
        final(lists)@[k as int]@ == old(lists)@[k as int]@.push(block),
        forall|m: int| 0 <= m < old(lists)@.len() && m != k ==> final(lists)@[m] == old(lists)@[m],
{
    lists[k].push(block);
}

/// Removes the entry at `i` from the list of order `k`, keeping the order of
/// the others.
fn list_take(lists: &mut Vec<Vec<FreeBlock>>, k: usize, i: usize) -> (block: FreeBlock)
    requires
        k < old(lists)@.len(),
        i < old(lists)@[k as int]@.len(),
    ensures
        final(lists)@.len() == old(lists)@.len(),
        block == old(lists)@[k as int]@[i as int],
        final(lists)@[k as int]@ == old(lists)@[k as int]@.remove(i as int),
        forall|m: int| 0 <= m < old(lists)@.len() && m != k ==> final(lists)@[m] == old(lists)@[m],
{
    lists[k].remove(i)
}


/// Whether the ranges `[a, a + a_len)` and `[b, b + b_len)` share no byte.
pub open spec fn disjoint(a: int, a_len: int, b: int, b_len: int) -> bool {
    a + a_len <= b || b + b_len <= a
}

/// The buddy of the block at `addr` of the given order: the address with the
/// bit of the block size flipped.
pub open spec fn buddy_of(addr: usize, order: usize) -> usize {
    addr ^ block_size(order)
}

/// Whether `addr` can be a block of the given order: not the null address,
/// aligned to the block size, and ending within the address space.
pub open spec fn block_ok(addr: usize, order: int) -> bool {
    &&& addr != 0
    &&& is_aligned(addr, block_size(order as usize))
    &&& addr + block_size(order as usize) <= usize::MAX
}

/// The invariant of the free lists, one list of block addresses per order:
/// every block is aligned to its size, no two blocks of any lists overlap, and
/// below the top order no list holds a block together with its buddy.
pub open spec fn lists_wf(v: Seq<Seq<usize>>) -> bool {
    &&& v.len() == MAX_ORDER
    &&& forall|k: int, i: int|
        0 <= k < v.len() && 0 <= i < v[k].len() ==> block_ok(#[trigger] v[k][i], k)
    &&& forall|k: int, i: int, k2: int, i2: int|
        0 <= k < v.len() && 0 <= i < v[k].len() && 0 <= k2 < v.len() && 0 <= i2 < v[k2].len() && (k
            != k2 || i != i2) ==> disjoint(
            #[trigger] v[k][i] as int,
            block_size(k as usize) as int,
            #[trigger] v[k2][i2] as int,
            block_size(k2 as usize) as int,
        )
    &&& forall|k: int, i: int, i2: int|
        0 <= k < v.len() - 1 && 0 <= i < v[k].len() && 0 <= i2 < v[k].len() ==> buddy_of(
            #[trigger] v[k][i],
            k as usize,
        ) != #[trigger] v[k][i2]
}

/// Whether the range `[addr, addr + len)` overlaps no free block of `v`.
pub open spec fn apart(v: Seq<Seq<usize>>, addr: int, len: int) -> bool {
    forall|k: int, i: int|
        0 <= k < v.len() && 0 <= i < v[k].len() ==> disjoint(
            #[trigger] v[k][i] as int,
            block_size(k as usize) as int,
            addr,
            len,
        )
}

/// The number of blocks in the first `n` lists of `v`.
pub open spec fn count_upto(v: Seq<Seq<usize>>, n: int) -> int
    decreases n,
{
    if n <= 0 {
        0
    } else {
        count_upto(v, n - 1) + v[n - 1].len()
    }
}

/// The number of free blocks, all orders together.
pub open spec fn total_free(v: Seq<Seq<usize>>) -> int {
    count_upto(v, v.len() as int)
}

/// The least order from `from` on whose list is not empty; the number of
/// lists where there is none.
pub open spec fn first_nonempty(v: Seq<Seq<usize>>, from: int) -> int
    decreases v.len() - from,
{
    if from < 0 || from >= v.len() {
        v.len() as int
    } else if v[from].len() > 0 {
        from
    } else {
        first_nonempty(v, from + 1)
    }
}

/// The free lists after a block of order `order` was cut from the last block
/// of the list `source`: that block leaves its list, and each order from
/// `order` up to `source` gains the upper half that was split off there.
pub open spec fn alloc_lists(v: Seq<Seq<usize>>, order: int, source: int) -> Seq<Seq<usize>> {
    Seq::new(
        v.len(),
        |m: int|
            if m == source {
                v[m].drop_last()
            } else if order <= m < source {
                v[m].push((v[source].last() + block_size(m as usize)) as usize)
            } else {
                v[m]
            },
    )
}

/// The free lists after the block at `addr` of order `order` was given back:
/// while its buddy is free the two merge and the merged block moves one order
/// up; the block that is left joins the list of its order.
pub open spec fn dealloc_lists(v: Seq<Seq<usize>>, addr: usize, order: int) -> Seq<Seq<usize>>
    decreases v.len() - order,
{
    let buddy = buddy_of(addr, order as usize);
    if 0 <= order < v.len() - 1 && v[order].contains(buddy) {
        dealloc_lists(
            v.update(order, v[order].remove(v[order].index_of(buddy))),
            if buddy < addr { buddy } else { addr },
            order + 1,
        )
    } else {
        v.update(order, v[order].push(addr))
    }
}

/// The sizes of all orders at once: between one page and 1024 pages.
pub proof fn lemma_block_sizes()
    ensures
        forall|k: usize| k < MAX_ORDER ==> 4096 <= #[trigger] block_size(k) <= 4194304,
        block_size(0) == 4096,
{
    assert forall|k: usize| k < MAX_ORDER implies 4096 <= #[trigger] block_size(k) <= 4194304 by {
        lemma_block_size(k);
    }
    lemma_block_size(0);
}

/// Replacing one list changes the count by the difference of the lengths.
pub proof fn lemma_count_update(v: Seq<Seq<usize>>, k: int, list: Seq<usize>, n: int)
    requires
        0 <= k < v.len(),
        0 <= n <= v.len(),
    ensures
        count_upto(v.update(k, list), n) == count_upto(v, n) + (if k < n {
            list.len() - v[k].len()
        } else {
            0
        }),
    decreases n,
{
    if n > 0 {
        lemma_count_update(v, k, list, n - 1);
    }
}

/// Taking a block out of its list keeps the invariant, and leaves the range
/// of that block free of blocks.
pub proof fn lemma_remove_keeps_wf(v: Seq<Seq<usize>>, k: int, i: int)
    requires
        lists_wf(v),
        0 <= k < v.len(),
        0 <= i < v[k].len(),
    ensures
        lists_wf(v.update(k, v[k].remove(i))),
        total_free(v.update(k, v[k].remove(i))) == total_free(v) - 1,
        apart(v.update(k, v[k].remove(i)), v[k][i] as int, block_size(k as usize) as int),
{
    let w = v.update(k, v[k].remove(i));
    lemma_count_update(v, k, v[k].remove(i), v.len() as int);
    assert forall|m: int, x: int| 0 <= m < w.len() && 0 <= x < w[m].len() implies #[trigger] w[m][x]
        == v[m][if m == k && x >= i { x + 1 } else { x }] by {}
    assert forall|m: int, x: int| 0 <= m < w.len() && 0 <= x < w[m].len() implies block_ok(
        #[trigger] w[m][x],
        m,
    ) by {
        let y = if m == k && x >= i { x + 1 } else { x };
        assert(block_ok(v[m][y], m));
    }
    assert forall|m: int, x: int, m2: int, x2: int|
        0 <= m < w.len() && 0 <= x < w[m].len() && 0 <= m2 < w.len() && 0 <= x2 < w[m2].len() && (m
            != m2 || x != x2) implies disjoint(
        #[trigger] w[m][x] as int,
        block_size(m as usize) as int,
        #[trigger] w[m2][x2] as int,
        block_size(m2 as usize) as int,
    ) by {
        let y = if m == k && x >= i { x + 1 } else { x };
        let y2 = if m2 == k && x2 >= i { x2 + 1 } else { x2 };
        assert(disjoint(
            v[m][y] as int,
            block_size(m as usize) as int,
            v[m2][y2] as int,
            block_size(m2 as usize) as int,
        ));
    }
    assert forall|m: int, x: int, x2: int|
        0 <= m < w.len() - 1 && 0 <= x < w[m].len() && 0 <= x2 < w[m].len() implies buddy_of(
        #[trigger] w[m][x],
        m as usize,
    ) != #[trigger] w[m][x2] by {
        let y = if m == k && x >= i { x + 1 } else { x };
        let y2 = if m == k && x2 >= i { x2 + 1 } else { x2 };
        assert(buddy_of(v[m][y], m as usize) != v[m][y2]);
    }
    assert forall|m: int, x: int| 0 <= m < w.len() && 0 <= x < w[m].len() implies disjoint(
        #[trigger] w[m][x] as int,
        block_size(m as usize) as int,
        v[k][i] as int,
        block_size(k as usize) as int,
    ) by {
        let y = if m == k && x >= i { x + 1 } else { x };
        assert(disjoint(
            v[m][y] as int,
            block_size(m as usize) as int,
            v[k][i] as int,
            block_size(k as usize) as int,
        ));
    }
}

/// Adding a block that overlaps no free block, and whose buddy is not free
/// at its order, keeps the invariant.
pub proof fn lemma_push_keeps_wf(v: Seq<Seq<usize>>, k: int, addr: usize)
    requires
        lists_wf(v),
        0 <= k < v.len(),
        block_ok(addr, k),
        apart(v, addr as int, block_size(k as usize) as int),
        k < v.len() - 1 ==> !v[k].contains(buddy_of(addr, k as usize)),
    ensures
        lists_wf(v.update(k, v[k].push(addr))),
        total_free(v.update(k, v[k].push(addr))) == total_free(v) + 1,
{
    let w = v.update(k, v[k].push(addr));
    let s = block_size(k as usize);
    lemma_count_update(v, k, v[k].push(addr), v.len() as int);
    lemma_block_sizes();
    assert(s > 0);
    assert((addr ^ s) != addr) by (bit_vector)
        requires
            s > 0,
    ;
    assert forall|m: int, x: int, m2: int, x2: int|
        0 <= m < w.len() && 0 <= x < w[m].len() && 0 <= m2 < w.len() && 0 <= x2 < w[m2].len() && (m
            != m2 || x != x2) implies disjoint(
        #[trigger] w[m][x] as int,
        block_size(m as usize) as int,
        #[trigger] w[m2][x2] as int,
        block_size(m2 as usize) as int,
    ) by {
        let new1 = m == k && x == v[k].len();
        let new2 = m2 == k && x2 == v[k].len();
        if new1 {
            assert(w[m2][x2] == v[m2][x2]);
        } else if new2 {
            assert(w[m][x] == v[m][x]);
        } else {
            assert(w[m][x] == v[m][x] && w[m2][x2] == v[m2][x2]);
        }
    }
    assert forall|m: int, x: int| 0 <= m < w.len() && 0 <= x < w[m].len() implies block_ok(
        #[trigger] w[m][x],
        m,
    ) by {
        if !(m == k && x == v[k].len()) {
            assert(w[m][x] == v[m][x]);
        }
    }
    assert forall|m: int, x: int, x2: int|
        0 <= m < w.len() - 1 && 0 <= x < w[m].len() && 0 <= x2 < w[m].len() implies buddy_of(
        #[trigger] w[m][x],
        m as usize,
    ) != #[trigger] w[m][x2] by {
        let new1 = m == k && x == v[k].len();
        let new2 = m == k && x2 == v[k].len();
        if new1 && new2 {
        } else if new1 {
            assert(w[m][x2] == v[m][x2]);
            assert(v[k].contains(v[m][x2]));
        } else if new2 {
            let a = v[m][x];
            assert(w[m][x] == a);
            assert(v[k].contains(a));
            assert((a ^ s) ^ s == a) by (bit_vector);
        } else {
            assert(w[m][x] == v[m][x] && w[m][x2] == v[m][x2]);
        }
    }
}


/// The highest order up to `order` at which `addr` can be a block.
pub open spec fn seed_order(addr: usize, order: int) -> Option<int>
    decreases order + 1,
{
    if order < 0 {
        None
    } else if block_ok(addr, order) {
        Some(order)
    } else {
        seed_order(addr, order - 1)
    }
}

/// Eleven empty free lists.
pub open spec fn empty_lists() -> Seq<Seq<usize>> {
    Seq::new(MAX_ORDER as nat, |k: int| Seq::<usize>::empty())
}

impl BuddyAllocator {
    /// The free lists as block addresses, one sequence per order, each in the
    /// order in which its blocks were put there.
    pub open spec fn view(&self) -> Seq<Seq<usize>> {
        Seq::new(
            self.free_lists@.len(),
            |k: int|
                Seq::new(self.free_lists@[k]@.len(), |i: int| self.free_lists@[k]@[i].addr),
        )
    }

    /// Every entry of the free lists holds a slot of the arena that is handed
    /// out, no two hold the same, and the arena has handed out exactly one
    /// slot per free block.
    pub open spec fn nodes_wf(&self) -> bool {
        &&& self.nodes.wf()
        &&& forall|k: int, i: int|
            0 <= k < self.free_lists@.len() && 0 <= i < self.free_lists@[k]@.len()
                ==> self.nodes.is_checked_out((#[trigger] self.free_lists@[k]@[i]).node)
        &&& forall|k: int, i: int, k2: int, i2: int|
            0 <= k < self.free_lists@.len() && 0 <= i < self.free_lists@[k]@.len() && 0 <= k2
                < self.free_lists@.len() && 0 <= i2 < self.free_lists@[k2]@.len() && (k != k2 || i
                != i2) ==> (#[trigger] self.free_lists@[k]@[i]).node
                != (#[trigger] self.free_lists@[k2]@[i2]).node
        &&& total_free(self@) + self.nodes.free@.len() == self.nodes.capacity
    }

    /// There is one list per order, the lists meet their invariant, and the
    /// arena backs their entries.
    pub open spec fn wf(&self) -> bool {
        &&& self.free_lists@.len() == MAX_ORDER
        &&& lists_wf(self@)
        &&& self.nodes_wf()
    }

    /// An allocator over the span that starts at `base`, backed by an arena
    /// none of whose slots is handed out. The span enters as one free block,
    /// of the highest order at which `base` can be a block; where there is no
    /// such order, or the arena has no slot, every list stays empty.
    pub fn new(base: PhysAddr, nodes: NodePoolAllocator) -> (r: BuddyAllocator)
        requires
            nodes.wf(),
            nodes.in_use() == 0,
        ensures
            r.wf(),
            r.base == base,
            r.nodes.capacity == nodes.capacity,
            r.nodes.base == nodes.base,
            match seed_order(base.addr, MAX_ORDER - 1) {
                Some(k) if nodes.capacity > 0 => r@ == empty_lists().update(k, seq![base.addr]),
                _ => r@ == empty_lists(),
            },
    {
        let mut free_lists: Vec<Vec<FreeBlock>> = Vec::new();
        while free_lists.len() < MAX_ORDER
            invariant
                free_lists@.len() <= MAX_ORDER,
                forall|k: int| 0 <= k < free_lists@.len() ==> (#[trigger] free_lists@[k])@.len() == 0,
            decreases MAX_ORDER - free_lists@.len(),
        {
            free_lists.push(Vec::new());
        }
        let mut r = BuddyAllocator { base, free_lists, nodes };
        assert(r@ =~~= empty_lists());
        proof {
            lemma_count_zero(r@, MAX_ORDER as int);
        }
        if r.nodes.available() == 0 {
            return r;
        }
        match highest_order(base.addr) {
            None => r,
            Some(order) => {
                let ghost v = r@;
                let node = r.nodes.checkout().unwrap();
                list_push(&mut r.free_lists, order, FreeBlock { node, addr: base.addr });
                assert(r@ =~~= v.update(order as int, v[order as int].push(base.addr)));
                assert(v[order as int].push(base.addr) =~= seq![base.addr]);
                proof {
                    lemma_push_keeps_wf(v, order as int, base.addr);
                }
                r
            },
        }
    }

    /// Takes a block of the given order out of the free lists.
    ///
    /// The block comes from the last entry of the first list, from `order`
    /// upwards, that is not empty. Where that list is of a higher order the
    /// block is halved down to `order`: the upper half of each step joins the
    /// list of its order, the lowest part is handed out. Without such a list
    /// the result is `OrderExhaustion`; where the arena cannot hold the
    /// entries of the halves it is `NodeExhaustion`. Either leaves the
    /// allocator as it was.
    pub fn alloc_block(&mut self, order: usize) -> (r: Result<PhysAddr, MemoryError>)
        requires
            old(self).wf(),
        ensures
            final(self).wf(),
            final(self).base == old(self).base,
            final(self).nodes.capacity == old(self).nodes.capacity,
            final(self).nodes.base == old(self).nodes.base,
            ({
                let v = old(self)@;
                let source = first_nonempty(v, order as int);
                if source >= MAX_ORDER {
                    &&& r == Err::<PhysAddr, MemoryError>(MemoryError::OrderExhaustion)
                    &&& *final(self) == *old(self)
                } else if total_free(v) - 1 + (source - order) > old(self).nodes.capacity {
                    &&& r == Err::<PhysAddr, MemoryError>(MemoryError::NodeExhaustion)
                    &&& *final(self) == *old(self)
                } else {
                    &&& r == Ok::<PhysAddr, MemoryError>(PhysAddr { addr: v[source].last() })
                    &&& block_ok(v[source].last(), order as int)
                    &&& final(self)@ == alloc_lists(v, order as int, source)
                    &&& apart(final(self)@, v[source].last() as int, block_size(order) as int)
                }
            }),
    {
        let ghost v0 = self@;
        let mut source: usize = order;
        while source < MAX_ORDER && self.free_lists[source].len() == 0
            invariant
                *self == *old(self),
                self.wf(),
                self@ == v0,
                order <= source,
                first_nonempty(v0, order as int) == first_nonempty(v0, source as int),
                forall|m: int| order <= m < source && m < MAX_ORDER ==> (#[trigger] v0[m]).len() == 0,
            decreases MAX_ORDER - source,
        {
            assert(v0[source as int].len() == self.free_lists@[source as int]@.len());
            source = source + 1;
        }
        if source >= MAX_ORDER {
            return Err(MemoryError::OrderExhaustion);
        }
        proof {
            assert(v0[source as int].len() == self.free_lists@[source as int]@.len());
            lemma_count_bounds(v0, source as int, MAX_ORDER as int);
        }
        if source > order && source - order - 1 > self.nodes.available() {
            return Err(MemoryError::NodeExhaustion);
        }
        let last: usize = self.free_lists[source].len() - 1;
        let taken = list_take(&mut self.free_lists, source, last);
        self.nodes.give_back(taken.node);
        let addr: usize = taken.addr;
        proof {
            lemma_remove_keeps_wf(v0, source as int, last as int);
            assert(v0[source as int].remove(last as int) =~= v0[source as int].drop_last());
            assert(self@ =~~= v0.update(source as int, v0[source as int].remove(last as int)));
            assert(self@ =~~= alloc_lists(v0, source as int, source as int));
            assert(addr == v0[source as int].last());
            assert(block_ok(v0[source as int][last as int], source as int));
        }
        let mut level: usize = source;
        while level > order
            invariant
                order <= level <= source < MAX_ORDER,
                self.wf(),
                self.base == old(self).base,
                self.nodes.capacity == old(self).nodes.capacity,
                self.nodes.base == old(self).nodes.base,
                self@ == alloc_lists(v0, level as int, source as int),
                addr == v0[source as int].last(),
                block_ok(addr, level as int),
                apart(self@, addr as int, block_size(level) as int),
                self.nodes.free@.len() >= level - order,
                forall|m: int| order <= m < source ==> (#[trigger] v0[m]).len() == 0,
            decreases level,
        {
            level = level - 1;
            let ghost v = self@;
            proof {
                lemma_block_size(level);
                lemma_split_bits(addr, block_size(level));
            }
            let upper: usize = addr + (PAGE_SIZE << level);
            let node = self.nodes.checkout().unwrap();
            list_push(&mut self.free_lists, level, FreeBlock { node, addr: upper });
            proof {
                assert(v[level as int].len() == 0);
                assert(self@ =~~= v.update(level as int, v[level as int].push(upper)));
                assert(apart(v, upper as int, block_size(level) as int));
                lemma_push_keeps_wf(v, level as int, upper);
                assert(self@ =~~= alloc_lists(v0, level as int, source as int));
                assert(apart(self@, addr as int, block_size(level) as int)) by {
                    let w = self@;
                    assert forall|m: int, x: int|
                        0 <= m < w.len() && 0 <= x < w[m].len() implies disjoint(
                        #[trigger] w[m][x] as int,
                        block_size(m as usize) as int,
                        addr as int,
                        block_size(level) as int,
                    ) by {
                        if m == level {
                        } else {
                            assert(w[m][x] == v[m][x]);
                        }
                    }
                }
            }
        }
        Ok(PhysAddr { addr })
    }

    /// The place of `addr` in the list of the given order, if it is there.
    pub fn find_block(&self, order: usize, addr: usize) -> (r: Option<usize>)
        requires
            order < self.free_lists@.len(),
        ensures
            match r {
                Some(i) => {
                    &&& i < self@[order as int].len()
                    &&& self@[order as int][i as int] == addr
                    &&& forall|x: int| 0 <= x < i ==> self@[order as int][x] != addr
                },
                None => !self@[order as int].contains(addr),
            },
    {
        let list = &self.free_lists[order];
        let mut i: usize = 0;
        while i < list.len()
            invariant
                order < self.free_lists@.len(),
                list == self.free_lists@[order as int],
                i <= list@.len(),
                forall|x: int| 0 <= x < i ==> self@[order as int][x] != addr,
            decreases list@.len() - i,
        {
            if list[i].addr == addr {
                return Some(i);
            }
            i = i + 1;
        }
        None
    }

    /// Gives the block at `addr` of the given order back to the free lists.
    ///
    /// While the buddy of the block is free at the block's order, the two
    /// merge into the block of the next order, up to the top order; the block
    /// that is left joins the list of its order. The caller hands in a block
    /// that overlaps no free block. The result is `NodeExhaustion`, with the
    /// allocator unchanged, where nothing merges and the arena has no slot
    /// for the new entry.
    pub fn dealloc_block(&mut self, addr: PhysAddr, order: usize) -> (r: Result<(), MemoryError>)
        requires
            old(self).wf(),
            order < MAX_ORDER,
            block_ok(addr.addr, order as int),
            apart(old(self)@, addr@, block_size(order) as int),
        ensures
            final(self).wf(),
            final(self).base == old(self).base,
            final(self).nodes.capacity == old(self).nodes.capacity,
            final(self).nodes.base == old(self).nodes.base,
            ({
                let v = old(self)@;
                let merges = order < MAX_ORDER - 1 && v[order as int].contains(
                    buddy_of(addr.addr, order),
                );
                if !merges && total_free(v) + 1 > old(self).nodes.capacity {
                    &&& r == Err::<(), MemoryError>(MemoryError::NodeExhaustion)
                    &&& *final(self) == *old(self)
                } else {
                    &&& r == Ok::<(), MemoryError>(())
                    &&& final(self)@ == dealloc_lists(v, addr.addr, order as int)
                }
            }),
    {
        let ghost v0 = self@;
        let mut cur: usize = addr.addr;
        let mut level: usize = order;
        proof {
            lemma_block_size(order);
        }
        let mut found: Option<usize> = if order < MAX_ORDER - 1 {
            self.find_block(order, cur ^ (PAGE_SIZE << order))
        } else {
            None
        };
        if found.is_none() && self.nodes.available() == 0 {
            return Err(MemoryError::NodeExhaustion);
        }
        while found.is_some()
            invariant
                self.wf(),
                self.base == old(self).base,
                self.nodes.capacity == old(self).nodes.capacity,
                self.nodes.base == old(self).nodes.base,
                level < MAX_ORDER,
                block_ok(cur, level as int),
                apart(self@, cur as int, block_size(level) as int),
                dealloc_lists(self@, cur, level as int) == dealloc_lists(v0, addr.addr, order as int),
                found.is_some() ==> level < MAX_ORDER - 1 && found.unwrap() < self@[level as int].len()
                    && self@[level as int][found.unwrap() as int] == buddy_of(cur, level),
                found.is_none() ==> self.nodes.free@.len() > 0 && (level < MAX_ORDER - 1
                    ==> !self@[level as int].contains(buddy_of(cur, level))),
            decreases MAX_ORDER - level,
        {
            let at: usize = found.unwrap();
            let ghost v = self@;
            let ghost buddy = buddy_of(cur, level);
            let ghost before = cur;
            proof {
                lemma_block_size(level);
                lemma_buddy_bits(cur, block_size(level));
                lemma_count_bounds(v, level as int, MAX_ORDER as int);
                assert(v[level as int].len() == self.free_lists@[level as int]@.len());
                lemma_remove_keeps_wf(v, level as int, at as int);
                lemma_unique_index(v, level as int, at as int);
                assert(block_ok(v[level as int][at as int], level as int));
            }
            let taken = list_take(&mut self.free_lists, level, at);
            self.nodes.give_back(taken.node);
            assert(taken.addr == buddy);
            assert(self@ =~~= v.update(level as int, v[level as int].remove(at as int)));
            if taken.addr < cur {
                cur = taken.addr;
            }
            level = level + 1;
            proof {
                lemma_block_size(level);
                let w = self@;
                let half = block_size((level - 1) as usize);
                lemma_block_sizes();
                assert(block_size(level) == 2 * half);
                assert(buddy == before + half || buddy == before - half);
                assert(cur == if buddy < before { buddy } else { before });
                assert forall|m: int, x: int| 0 <= m < w.len() && 0 <= x < w[m].len() implies disjoint(
                    #[trigger] w[m][x] as int,
                    block_size(m as usize) as int,
                    cur as int,
                    block_size(level) as int,
                ) by {
                    let y = if m == level - 1 && x >= at { x + 1 } else { x };
                    assert(w[m][x] == v[m][y]);
                    assert(disjoint(
                        v[m][y] as int,
                        block_size(m as usize) as int,
                        v[level - 1][at as int] as int,
                        half as int,
                    ));
                    assert(disjoint(
                        v[m][y] as int,
                        block_size(m as usize) as int,
                        before as int,
                        half as int,
                    ));
                }
            }
            found = if level < MAX_ORDER - 1 {
                self.find_block(level, cur ^ (PAGE_SIZE << level))
            } else {
                None
            };
        }
        let ghost v = self@;
        let node = self.nodes.checkout().unwrap();
        list_push(&mut self.free_lists, level, FreeBlock { node, addr: cur });
        proof {
            assert(self@ =~~= v.update(level as int, v[level as int].push(cur)));
            lemma_push_keeps_wf(v, level as int, cur);
        }
        Ok(())
    }
}

/// Finds the highest order at which `addr` can be a block.
pub fn highest_order(addr: usize) -> (r: Option<usize>)
    ensures
        match seed_order(addr, MAX_ORDER - 1) {
            Some(k) => r == Some(k as usize) && 0 <= k < MAX_ORDER && block_ok(addr, k),
            None => r.is_none(),
        },
{
    let mut k: usize = MAX_ORDER;
    while k > 0
        invariant
            k <= MAX_ORDER,
            seed_order(addr, MAX_ORDER - 1) == seed_order(addr, k - 1),
        decreases k,
    {
        let order: usize = k - 1;
        proof {
            lemma_block_size(order);
        }
        let size: usize = PAGE_SIZE << order;
        if addr != 0 && addr & (size - 1) == 0 && addr <= usize::MAX - size {
            return Some(order);
        }
        k = order;
    }
    None
}

/// The count is at least the length of each list that it covers.
pub proof fn lemma_count_bounds(v: Seq<Seq<usize>>, k: int, n: int)
    requires
        0 <= k < n <= v.len(),
    ensures
        count_upto(v, n) >= v[k].len(),
    decreases n,
{
    lemma_count_nonnegative(v, n - 1);
    if k < n - 1 {
        lemma_count_bounds(v, k, n - 1);
    }
}

/// No count is negative.
pub proof fn lemma_count_nonnegative(v: Seq<Seq<usize>>, n: int)
    ensures
        count_upto(v, n) >= 0,
    decreases n,
{
    if n > 0 {
        lemma_count_nonnegative(v, n - 1);
    }
}

/// A block stands at one place of its list only.
pub proof fn lemma_unique_index(v: Seq<Seq<usize>>, k: int, i: int)
    requires
        lists_wf(v),
        0 <= k < v.len(),
        0 <= i < v[k].len(),
    ensures
        v[k].index_of(v[k][i]) == i,
{
    lemma_block_sizes();
    let j = v[k].index_of(v[k][i]);
    assert(0 <= j < v[k].len() && v[k][j] == v[k][i]);
    if j != i {
        assert(disjoint(
            v[k][j] as int,
            block_size(k as usize) as int,
            v[k][i] as int,
            block_size(k as usize) as int,
        ));
    }
}

/// Giving a block back right after it was taken restores the free lists,
/// from any stage of the halving: with the lists as they stand once the block
/// was cut down to order `level`, giving it back at `level` merges it up
/// again to `source` and leaves every list as it was before.
pub proof fn lemma_merge_restores(v: Seq<Seq<usize>>, level: int, source: int)
    requires
        lists_wf(v),
        0 <= level <= source < MAX_ORDER,
        v[source].len() > 0,
        forall|m: int| level <= m < source ==> (#[trigger] v[m]).len() == 0,
    ensures
        dealloc_lists(alloc_lists(v, level, source), v[source].last(), level) == v,
    decreases source - level,
{
    let taken = v[source].last();
    let lists = alloc_lists(v, level, source);
    let buddy = buddy_of(taken, level as usize);
    assert(block_ok(v[source][v[source].len() - 1], source));
    if level == source {
        if level < MAX_ORDER - 1 {
            assert forall|x: int| 0 <= x < lists[level].len() implies lists[level][x] != buddy by {
                assert(buddy_of(v[source][v[source].len() - 1], level as usize) != v[source][x]);
            }
        }
        assert(lists[level].push(taken) =~= v[source]);
        assert(lists.update(level, lists[level].push(taken)) =~~= v);
    } else {
        lemma_lower_order_bits(taken, source as usize, level as usize);
        assert(lists[level] =~= seq![buddy]);
        assert(lists[level][0] == buddy);
        let at = lists[level].index_of(buddy);
        assert(at == 0);
        assert(lists.update(level, lists[level].remove(at)) =~~= alloc_lists(v, level + 1, source));
        lemma_merge_restores(v, level + 1, source);
    }
}

/// The first list from `from` on that is not empty is preceded, from `from`
/// on, by empty lists only.
pub proof fn lemma_first_nonempty(v: Seq<Seq<usize>>, from: int)
    requires
        0 <= from,
    ensures
        from <= first_nonempty(v, from) || first_nonempty(v, from) == v.len(),
        first_nonempty(v, from) < v.len() ==> v[first_nonempty(v, from)].len() > 0,
        forall|m: int| from <= m < first_nonempty(v, from) && m < v.len() ==> (#[trigger] v[m]).len() == 0,
    decreases v.len() - from,
{
    if from < v.len() && v[from].len() == 0 {
        lemma_first_nonempty(v, from + 1);
    }
}

/// Round trip: where taking a block of order `order` succeeds, giving that
/// block back at once leaves the free lists exactly as they were before it
/// was taken. Where the block was cut from a higher order, its buddy is free,
/// so that giving it back needs no slot of the arena.
pub proof fn lemma_round_trip(v: Seq<Seq<usize>>, order: int)
    requires
        lists_wf(v),
        0 <= order,
        first_nonempty(v, order) < MAX_ORDER,
    ensures
        ({
            let source = first_nonempty(v, order);
            let taken = v[source].last();
            &&& dealloc_lists(alloc_lists(v, order, source), taken, order) == v
            &&& order < source ==> alloc_lists(v, order, source)[order].contains(
                buddy_of(taken, order as usize),
            )
            &&& total_free(alloc_lists(v, order, source)) == total_free(v) - 1 + (source - order)
        }),
{
    lemma_first_nonempty(v, order);
    let source = first_nonempty(v, order);
    lemma_merge_restores(v, order, source);
    lemma_alloc_count(v, order, source, v.len() as int);
    if order < source {
        let taken = v[source].last();
        assert(block_ok(v[source][v[source].len() - 1], source));
        lemma_lower_order_bits(taken, source as usize, order as usize);
        let list = alloc_lists(v, order, source)[order];
        assert(list[list.len() - 1] == buddy_of(taken, order as usize));
    }
}

/// Giving a block back frees nothing else: a range that overlaps neither a
/// free block nor the block given back overlaps no free block afterwards,
/// however far the block merges upwards. So a caller that holds several
/// blocks may give them back one after the other.
pub proof fn lemma_dealloc_keeps_apart(v: Seq<Seq<usize>>, addr: usize, order: int, a: int, len: int)
    requires
        lists_wf(v),
        0 <= order < MAX_ORDER,
        block_ok(addr, order),
        apart(v, addr as int, block_size(order as usize) as int),
        len > 0,
        apart(v, a, len),
        disjoint(addr as int, block_size(order as usize) as int, a, len),
    ensures
        apart(dealloc_lists(v, addr, order), a, len),
    decreases MAX_ORDER - order,
{
    let half = block_size(order as usize);
    let buddy = buddy_of(addr, order as usize);
    lemma_block_sizes();
    lemma_block_size(order as usize);
    if order < v.len() - 1 && v[order].contains(buddy) {
        let at = v[order].index_of(buddy);
        assert(0 <= at < v[order].len() && v[order][at] == buddy);
        let w = v.update(order, v[order].remove(at));
        let merged = if buddy < addr { buddy } else { addr };
        lemma_buddy_bits(addr, half);
        lemma_block_size((order + 1) as usize);
        lemma_remove_keeps_wf(v, order, at);
        assert(block_ok(v[order][at], order));
        assert(disjoint(v[order][at] as int, half as int, a, len));
        assert(block_size((order + 1) as usize) == 2 * half);
        assert forall|m: int, x: int| 0 <= m < w.len() && 0 <= x < w[m].len() implies disjoint(
            #[trigger] w[m][x] as int,
            block_size(m as usize) as int,
            merged as int,
            block_size((order + 1) as usize) as int,
        ) && disjoint(w[m][x] as int, block_size(m as usize) as int, a, len) by {
            let y = if m == order && x >= at { x + 1 } else { x };
            assert(w[m][x] == v[m][y]);
            assert(disjoint(
                v[m][y] as int,
                block_size(m as usize) as int,
                v[order][at] as int,
                half as int,
            ));
            assert(disjoint(v[m][y] as int, block_size(m as usize) as int, addr as int, half as int));
            assert(disjoint(v[m][y] as int, block_size(m as usize) as int, a, len));
        }
        lemma_dealloc_keeps_apart(w, merged, order + 1, a, len);
    } else {
        let w = v.update(order, v[order].push(addr));
        assert forall|m: int, x: int| 0 <= m < w.len() && 0 <= x < w[m].len() implies disjoint(
            #[trigger] w[m][x] as int,
            block_size(m as usize) as int,
            a,
            len,
        ) by {
            if !(m == order && x == v[order].len()) {
                assert(w[m][x] == v[m][x]);
            }
        }
    }
}

/// The change in the number of blocks in the first `n` lists when a block of
/// order `order` is cut from the list `source`.
pub open spec fn count_change(order: int, source: int, n: int) -> int {
    (if n > source { -1int } else { 0int }) + (if n <= order {
        0int
    } else if n <= source {
        n - order
    } else {
        source - order
    })
}

/// Cutting a block of order `order` from the list `source` takes one block
/// away and adds one for each order from `order` up to `source`.
pub proof fn lemma_alloc_count(v: Seq<Seq<usize>>, order: int, source: int, n: int)
    requires
        0 <= order <= source < v.len(),
        v[source].len() > 0,
        0 <= n <= v.len(),
    ensures
        count_upto(alloc_lists(v, order, source), n) == count_upto(v, n) + count_change(order, source, n),
    decreases n,
{
    if n > 0 {
        lemma_alloc_count(v, order, source, n - 1);
    }
}

/// The arena never runs out before the free blocks reach its capacity: it
/// has handed out one slot per free block, and so has a slot left while the
/// free blocks are fewer than its slots.
pub proof fn lemma_nodes_suffice(buddy: &BuddyAllocator)
    requires
        buddy.wf(),
    ensures
        0 <= total_free(buddy@) <= buddy.nodes.capacity,
        buddy.nodes.free@.len() == buddy.nodes.capacity - total_free(buddy@),
        total_free(buddy@) < buddy.nodes.capacity ==> buddy.nodes.free@.len() > 0,
{
    lemma_count_nonnegative(buddy@, buddy@.len() as int);
}

/// Taking a block frees nothing: a range that overlapped no free block
/// before overlaps none afterwards, since every half that was split off lies
/// within the block that was taken from its list.
pub proof fn lemma_alloc_keeps_apart(v: Seq<Seq<usize>>, order: int, source: int, addr: int, len: int)
    requires
        lists_wf(v),
        0 <= order <= source < MAX_ORDER,
        v[source].len() > 0,
        apart(v, addr, len),
    ensures
        apart(alloc_lists(v, order, source), addr, len),
{
    let w = alloc_lists(v, order, source);
    let taken = v[source].last();
    assert(block_ok(v[source][v[source].len() - 1], source));
    assert(disjoint(v[source][v[source].len() - 1] as int, block_size(source as usize) as int, addr, len));
    lemma_block_sizes();
    assert forall|m: int, x: int| 0 <= m < w.len() && 0 <= x < w[m].len() implies disjoint(
        #[trigger] w[m][x] as int,
        block_size(m as usize) as int,
        addr,
        len,
    ) by {
        if order <= m < source && x == v[m].len() {
            lemma_order_sizes(m as usize, source as usize);
        } else {
            assert(w[m][x] == v[m][x]);
        }
    }
}

/// The list that a block is cut from: where the lists from `from` up to
/// `source` are empty and the list of `source` is not, it is that of `source`.
pub proof fn lemma_first_nonempty_is(v: Seq<Seq<usize>>, from: int, source: int)
    requires
        0 <= from <= source < v.len(),
        v[source].len() > 0,
        forall|m: int| from <= m < source ==> (#[trigger] v[m]).len() == 0,
    ensures
        first_nonempty(v, from) == source,
    decreases source - from,
{
    if from < source {
        lemma_first_nonempty_is(v, from + 1, source);
    }
}

/// Split law: where the lowest free block from `order` upwards is the only
/// block of the order `source`, taking a block of order `order` empties the
/// list of `source` and leaves exactly one block in each list from `order`
/// up to `source`; the other lists stay as they are.
pub proof fn lemma_split_law(v: Seq<Seq<usize>>, order: int, source: int)
    requires
        0 <= order <= source < v.len(),
        v[source].len() == 1,
        forall|m: int| order <= m < source ==> (#[trigger] v[m]).len() == 0,
    ensures
        first_nonempty(v, order) == source,
        alloc_lists(v, order, source).len() == v.len(),
        alloc_lists(v, order, source)[source].len() == 0,
        forall|m: int| order <= m < source ==> (#[trigger] alloc_lists(v, order, source)[m]).len() == 1,
        forall|m: int|
            0 <= m < v.len() && !(order <= m <= source) ==> #[trigger] alloc_lists(v, order, source)[m] == v[m],
{
    lemma_first_nonempty_is(v, order, source);
}

/// Lists that are all empty hold no block.
proof fn lemma_count_zero(v: Seq<Seq<usize>>, n: int)
    requires
        0 <= n <= v.len(),
        forall|k: int| 0 <= k < v.len() ==> (#[trigger] v[k]).len() == 0,
    ensures
        count_upto(v, n) == 0,
    decreases n,
{
    if n > 0 {
        lemma_count_zero(v, n - 1);
    }
}

} // verus!
