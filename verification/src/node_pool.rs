//! The node arena: a pool of free-list node slots of fixed capacity.
//!
//! The buddy allocator needs one node for each free block that it tracks, and
//! it needs them before any general allocator exists. The arena is carved out
//! once, in one piece, and hands its slots out by index.

use vstd::prelude::*;
use crate::addr::PhysAddr;

verus! {

/// What one slot of the pool has room for: a list element with its payload,
/// the address of a free block, and the link to the next element.
#[derive(Clone, Copy, Debug)]
pub struct Node {
    pub payload: usize,
    pub next: usize,
}

/// A pool of `capacity` node slots, with the indices of the free ones kept
/// as a stack.
pub struct NodePoolAllocator {
    pub base: PhysAddr,
    pub capacity: usize,
    pub free: Vec<usize>,
}

impl NodePoolAllocator {
    /// Every free index names a slot of the pool, and none is held twice.
    pub open spec fn wf(&self) -> bool {
        &&& self.free@.no_duplicates()
        &&& forall|i: int| 0 <= i < self.free@.len() ==> #[trigger] self.free@[i] < self.capacity
    }

    /// Whether `slot` is a slot of the pool that is handed out at present.
    pub open spec fn is_checked_out(&self, slot: usize) -> bool {
        slot < self.capacity && !self.free@.contains(slot)
    }

    /// The number of slots handed out at present.
    pub open spec fn in_use(&self) -> int {
        self.capacity - self.free@.len()
    }

    /// A pool at `base` whose `capacity` slots are all free; slot 0 is handed
    /// out first.
    pub fn new(base: PhysAddr, capacity: usize) -> (r: NodePoolAllocator)
        ensures
            r.wf(),
            r.base == base,
            r.capacity == capacity,
            r.free@.len() == capacity,
            forall|i: int| 0 <= i < capacity ==> r.free@[i] == capacity - 1 - i,
    {
        let mut free: Vec<usize> = Vec::new();
        let mut next: usize = capacity;
        while next > 0
            invariant
                next <= capacity,
                free@.len() == capacity - next,
                forall|i: int| 0 <= i < free@.len() ==> free@[i] == capacity - 1 - i,
            decreases next,
        {
            next = next - 1;
            free.push(next);
        }
        NodePoolAllocator { base, capacity, free }
    }

    pub fn base(&self) -> (r: PhysAddr)
        ensures
            r == self.base,
    {
        self.base
    }

    pub fn capacity(&self) -> (r: usize)
        ensures
            r == self.capacity,
    {
        self.capacity
    }

    /// The number of slots that can still be handed out.
    pub fn available(&self) -> (r: usize)
        ensures
            r == self.free@.len(),
    {
        self.free.len()
    }

    /// Hands out the slot on top of the free stack; `None` where the pool is
    /// exhausted, which leaves it unchanged.
    pub fn checkout(&mut self) -> (r: Option<usize>)
        requires
            old(self).wf(),
        ensures
            final(self).wf(),
            final(self).base == old(self).base,
            final(self).capacity == old(self).capacity,
            old(self).free@.len() == 0 ==> r.is_none() && final(self).free@ == old(self).free@,
            old(self).free@.len() > 0 ==> r == Some(old(self).free@.last())
                && final(self).free@ == old(self).free@.drop_last()
                && final(self).is_checked_out(old(self).free@.last()),
    {
        let r = self.free.pop();
        proof {
            if r.is_some() {
                let last = old(self).free@.len() - 1;
                assert(forall|i: int| 0 <= i < self.free@.len() ==> self.free@[i] == old(self).free@[i]);
                assert(old(self).free@[last] == r.unwrap());
            }
        }
        r
    }

    /// Takes back a slot that was handed out, and puts it on top of the free
    /// stack.
    pub fn give_back(&mut self, slot: usize)
        requires
            old(self).wf(),
            old(self).is_checked_out(slot),
        ensures
            final(self).wf(),
            final(self).base == old(self).base,
            final(self).capacity == old(self).capacity,
            final(self).free@ == old(self).free@.push(slot),
    {
        self.free.push(slot);
    }
}

/// Distinct numbers below `bound` are at most `bound` many.
pub proof fn lemma_distinct_below(s: Seq<usize>, bound: nat)
    requires
        s.no_duplicates(),
        forall|i: int| 0 <= i < s.len() ==> #[trigger] s[i] < bound,
    ensures
        s.len() <= bound,
    decreases bound,
{
    if bound == 0 {
        if s.len() > 0 {
            assert(s[0] < bound);
        }
    } else {
        let top = (bound - 1) as usize;
        if s.contains(top) {
            let at = choose|i: int| 0 <= i < s.len() && s[i] == top;
            let rest = s.remove(at);
            assert forall|i: int| 0 <= i < rest.len() implies #[trigger] rest[i] < bound - 1 by {
                let j = if i < at { i } else { i + 1 };
                assert(rest[i] == s[j]);
                assert(s[j] < bound);
            }
            assert forall|i: int, j: int| 0 <= i < rest.len() && 0 <= j < rest.len() && i != j implies rest[i]
                != rest[j] by {
                let x = if i < at { i } else { i + 1 };
                let y = if j < at { j } else { j + 1 };
                assert(rest[i] == s[x] && rest[j] == s[y]);
            }
            lemma_distinct_below(rest, (bound - 1) as nat);
        } else {
            assert forall|i: int| 0 <= i < s.len() implies #[trigger] s[i] < bound - 1 by {
                assert(s[i] < bound);
                assert(s.contains(s[i]));
            }
            lemma_distinct_below(s, (bound - 1) as nat);
        }
    }
}

/// A pool never has more free slots than slots, and has one slot fewer free
/// than it has slots while a slot is handed out.
pub proof fn lemma_free_within_capacity(pool: &NodePoolAllocator)
    requires
        pool.wf(),
    ensures
        pool.free@.len() <= pool.capacity,
        pool.in_use() >= 0,
        forall|slot: usize| pool.is_checked_out(slot) ==> pool.in_use() > 0,
{
    lemma_distinct_below(pool.free@, pool.capacity as nat);
    assert forall|slot: usize| pool.is_checked_out(slot) implies pool.in_use() > 0 by {
        let more = pool.free@.push(slot);
        assert forall|i: int, j: int| 0 <= i < more.len() && 0 <= j < more.len() && i != j implies more[i]
            != more[j] by {
            if i < pool.free@.len() {
                assert(pool.free@.contains(more[i]));
            }
            if j < pool.free@.len() {
                assert(pool.free@.contains(more[j]));
            }
        }
        lemma_distinct_below(more, pool.capacity as nat);
    }
}

} // verus!
