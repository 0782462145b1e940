use kernel_memory::addr::{checked_align_up, PhysAddr, MAX_ORDER, PAGE_SIZE};
use kernel_memory::buddy::{highest_order, BuddyAllocator};
use kernel_memory::error::MemoryError;
use kernel_memory::node_pool::NodePoolAllocator;

fn addresses(buddy: &BuddyAllocator) -> Vec<Vec<usize>> {
    buddy
        .free_lists
        .iter()
        .map(|list| list.iter().map(|block| block.addr).collect())
        .collect()
}

fn buddy_at(base: usize, capacity: usize) -> BuddyAllocator {
    BuddyAllocator::new(PhysAddr::new(base), NodePoolAllocator::new(PhysAddr::new(0x1000), capacity))
}

#[test]
fn align_up_rounds_to_the_next_multiple() {
    assert_eq!(checked_align_up(13, 8), Some(16));
    assert_eq!(checked_align_up(16, 8), Some(16));
    assert_eq!(checked_align_up(0, 4096), Some(0));
    assert_eq!(checked_align_up(1, 4096), Some(4096));
    assert_eq!(checked_align_up(10, 3), Some(12));
}

#[test]
fn align_up_rejects_zero_alignment_and_overflow() {
    assert_eq!(checked_align_up(13, 0), None);
    assert_eq!(checked_align_up(usize::MAX - 2, 8), None);
    assert_eq!(checked_align_up(usize::MAX, 1), Some(usize::MAX));
}

#[test]
fn phys_addr_keeps_its_number() {
    let a = PhysAddr::new(0x100000);
    assert_eq!(a.as_usize(), 0x100000);
    assert!(!a.is_null());
    assert!(PhysAddr::null().is_null());
    assert_eq!(PhysAddr::null().as_usize(), 0);
}

#[test]
fn node_pool_hands_out_slots_in_order() {
    let mut pool = NodePoolAllocator::new(PhysAddr::new(0x2000), 3);
    assert_eq!(pool.capacity(), 3);
    assert_eq!(pool.base(), PhysAddr::new(0x2000));
    assert_eq!(pool.available(), 3);
    assert_eq!(pool.checkout(), Some(0));
    assert_eq!(pool.checkout(), Some(1));
    assert_eq!(pool.available(), 1);
    pool.give_back(0);
    assert_eq!(pool.checkout(), Some(0));
    assert_eq!(pool.checkout(), Some(2));
    assert_eq!(pool.checkout(), None);
    assert_eq!(pool.available(), 0);
}

#[test]
fn node_pool_without_slots_is_exhausted_at_once() {
    let mut pool = NodePoolAllocator::new(PhysAddr::new(0x2000), 0);
    assert_eq!(pool.checkout(), None);
}

#[test]
fn highest_order_follows_the_alignment() {
    assert_eq!(highest_order(0), None);
    assert_eq!(highest_order(0x1001), None);
    assert_eq!(highest_order(0x1000), Some(0));
    assert_eq!(highest_order(0x8000), Some(3));
    assert_eq!(highest_order(0x100000), Some(8));
    assert_eq!(highest_order(0x400000), Some(10));
    assert_eq!(highest_order(0x800000), Some(10));
    assert_eq!(highest_order(usize::MAX - 4095), None);
}

#[test]
fn new_buddy_holds_one_span_at_its_base() {
    let buddy = buddy_at(0x100000, 16);
    let lists = addresses(&buddy);
    assert_eq!(lists.len(), MAX_ORDER);
    for (order, list) in lists.iter().enumerate() {
        if order == 8 {
            assert_eq!(list, &vec![0x100000]);
        } else {
            assert!(list.is_empty());
        }
    }
    assert_eq!(buddy.base, PhysAddr::new(0x100000));
    assert_eq!(buddy.nodes.available(), 15);
}

#[test]
fn new_buddy_at_null_or_without_nodes_is_empty() {
    let at_null = buddy_at(0, 16);
    assert!(addresses(&at_null).iter().all(|list| list.is_empty()));
    let no_nodes = buddy_at(0x100000, 0);
    assert!(addresses(&no_nodes).iter().all(|list| list.is_empty()));
}

#[test]
fn split_from_order_three_leaves_one_block_per_lower_order() {
    let mut buddy = buddy_at(0x8000, 8);
    assert_eq!(addresses(&buddy)[3], vec![0x8000]);
    let got = buddy.alloc_block(0);
    assert_eq!(got, Ok(PhysAddr::new(0x8000)));
    let lists = addresses(&buddy);
    assert_eq!(lists[0], vec![0x8000 + PAGE_SIZE]);
    assert_eq!(lists[1], vec![0x8000 + 2 * PAGE_SIZE]);
    assert_eq!(lists[2], vec![0x8000 + 4 * PAGE_SIZE]);
    assert!(lists[3].is_empty());
    for list in &lists[4..] {
        assert!(list.is_empty());
    }
    assert_eq!(buddy.nodes.available(), 5);
}

#[test]
fn alloc_then_dealloc_restores_the_free_lists() {
    for order in 0..4 {
        let mut buddy = buddy_at(0x8000, 8);
        let before = addresses(&buddy);
        let spare = buddy.nodes.available();
        let got = buddy.alloc_block(order).unwrap();
        assert_eq!(got, PhysAddr::new(0x8000));
        assert_eq!(buddy.dealloc_block(got, order), Ok(()));
        assert_eq!(addresses(&buddy), before);
        assert_eq!(buddy.nodes.available(), spare);
    }
}

#[test]
fn round_trip_in_a_split_state() {
    let mut buddy = buddy_at(0x8000, 8);
    let first = buddy.alloc_block(0).unwrap();
    let before = addresses(&buddy);
    let second = buddy.alloc_block(1).unwrap();
    assert_eq!(second, PhysAddr::new(0x8000 + 2 * PAGE_SIZE));
    assert_eq!(buddy.dealloc_block(second, 1), Ok(()));
    assert_eq!(addresses(&buddy), before);
    let third = buddy.alloc_block(2).unwrap();
    assert_eq!(buddy.dealloc_block(third, 2), Ok(()));
    assert_eq!(addresses(&buddy), before);
    assert_eq!(buddy.dealloc_block(first, 0), Ok(()));
    let whole = addresses(&buddy);
    assert_eq!(whole[3], vec![0x8000]);
    assert!(whole[0].is_empty() && whole[1].is_empty() && whole[2].is_empty());
}

#[test]
fn dealloc_merges_with_a_free_buddy_only() {
    let mut buddy = buddy_at(0x8000, 8);
    let a = buddy.alloc_block(0).unwrap();
    let b = buddy.alloc_block(0).unwrap();
    assert_eq!(a, PhysAddr::new(0x8000));
    assert_eq!(b, PhysAddr::new(0x9000));
    assert!(addresses(&buddy)[0].is_empty());
    assert_eq!(buddy.dealloc_block(a, 0), Ok(()));
    assert_eq!(addresses(&buddy)[0], vec![0x8000]);
    assert_eq!(addresses(&buddy)[1], vec![0xa000]);
    assert_eq!(buddy.dealloc_block(b, 0), Ok(()));
    let lists = addresses(&buddy);
    assert!(lists[0].is_empty() && lists[1].is_empty() && lists[2].is_empty());
    assert_eq!(lists[3], vec![0x8000]);
}

#[test]
fn top_order_blocks_do_not_merge() {
    let mut buddy = buddy_at(0x400000, 8);
    assert_eq!(addresses(&buddy)[10], vec![0x400000]);
    assert_eq!(buddy.dealloc_block(PhysAddr::new(0x800000), 10), Ok(()));
    assert_eq!(addresses(&buddy)[10], vec![0x400000, 0x800000]);
    assert_eq!(buddy.alloc_block(10), Ok(PhysAddr::new(0x800000)));
    assert_eq!(buddy.alloc_block(10), Ok(PhysAddr::new(0x400000)));
    assert_eq!(buddy.alloc_block(10), Err(MemoryError::OrderExhaustion));
}

#[test]
fn alloc_without_a_block_is_order_exhaustion() {
    let mut buddy = buddy_at(0x8000, 8);
    assert_eq!(buddy.alloc_block(4), Err(MemoryError::OrderExhaustion));
    assert_eq!(buddy.alloc_block(MAX_ORDER), Err(MemoryError::OrderExhaustion));
    assert_eq!(buddy.alloc_block(usize::MAX), Err(MemoryError::OrderExhaustion));
    assert_eq!(addresses(&buddy)[3], vec![0x8000]);
    assert_eq!(buddy.alloc_block(3), Ok(PhysAddr::new(0x8000)));
    assert_eq!(buddy.alloc_block(0), Err(MemoryError::OrderExhaustion));
}

#[test]
fn nodes_run_out_only_past_the_capacity() {
    let mut tight = buddy_at(0x8000, 2);
    let before = addresses(&tight);
    assert_eq!(tight.alloc_block(0), Err(MemoryError::NodeExhaustion));
    assert_eq!(addresses(&tight), before);
    assert_eq!(tight.alloc_block(2), Ok(PhysAddr::new(0x8000)));
    let mut enough = buddy_at(0x8000, 3);
    assert_eq!(enough.alloc_block(0), Ok(PhysAddr::new(0x8000)));
    assert_eq!(enough.nodes.available(), 0);
}

#[test]
fn dealloc_without_a_node_is_node_exhaustion() {
    let mut buddy = buddy_at(0x8000, 1);
    let before = addresses(&buddy);
    assert_eq!(
        buddy.dealloc_block(PhysAddr::new(0x20000), 0),
        Err(MemoryError::NodeExhaustion)
    );
    assert_eq!(addresses(&buddy), before);
    let mut roomy = buddy_at(0x8000, 2);
    assert_eq!(roomy.dealloc_block(PhysAddr::new(0x20000), 0), Ok(()));
    assert_eq!(addresses(&roomy)[0], vec![0x20000]);
}

#[test]
fn find_block_gives_the_place_in_the_list() {
    let mut buddy = buddy_at(0x8000, 8);
    buddy.alloc_block(0).unwrap();
    assert_eq!(buddy.find_block(0, 0x9000), Some(0));
    assert_eq!(buddy.find_block(0, 0x8000), None);
    assert_eq!(buddy.find_block(2, 0xc000), Some(0));
}

#[test]
fn blocks_held_together_go_back_one_after_the_other() {
    let mut buddy = buddy_at(0x8000, 8);
    let a = buddy.alloc_block(0).unwrap();
    let b = buddy.alloc_block(1).unwrap();
    let c = buddy.alloc_block(0).unwrap();
    assert_eq!((a, b, c), (PhysAddr::new(0x8000), PhysAddr::new(0xa000), PhysAddr::new(0x9000)));
    assert_eq!(buddy.dealloc_block(b, 1), Ok(()));
    assert_eq!(buddy.dealloc_block(a, 0), Ok(()));
    assert_eq!(buddy.dealloc_block(c, 0), Ok(()));
    let lists = addresses(&buddy);
    assert_eq!(lists[3], vec![0x8000]);
    assert!(lists[0].is_empty() && lists[1].is_empty() && lists[2].is_empty());
}
