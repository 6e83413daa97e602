//! End-to-end scenarios with literal parameters and expected free-list
//! states, plus coverage for the wrappers, the chain and the error paths.

use stalloc::AllocError;
use stalloc::Allocator;
use stalloc::ChainableAlloc;
use stalloc::Layout;
use stalloc::Stalloc;
use stalloc::SyncStalloc;
use stalloc::UnsafeStalloc;

#[test]
fn coalesce_out_of_order() {
    // four one-block chunks freed in the order [2, 4, 1, 3]
    let mut alloc = Stalloc::<4, 4>::new();
    let p1 = alloc.allocate_blocks(1, 1).unwrap();
    let p2 = alloc.allocate_blocks(1, 1).unwrap();
    let p3 = alloc.allocate_blocks(1, 1).unwrap();
    let p4 = alloc.allocate_blocks(1, 1).unwrap();
    assert_eq!((p1, p2, p3, p4), (0, 4, 8, 12));
    assert!(alloc.is_oom());

    alloc.deallocate_blocks(p2, 1);
    assert_eq!(alloc.free_chunks(), vec![(1, 1)]);
    alloc.deallocate_blocks(p4, 1);
    assert_eq!(alloc.free_chunks(), vec![(1, 1), (3, 1)]);
    alloc.deallocate_blocks(p1, 1);
    assert_eq!(alloc.free_chunks(), vec![(0, 2), (3, 1)]);
    alloc.deallocate_blocks(p3, 1);
    assert!(alloc.is_empty());
    assert_eq!(alloc.free_chunks(), vec![(0, 4)]);
}

#[test]
fn shrink_clears_oom() {
    // allocate all six blocks, shrink to five, then shrink to nothing
    let mut alloc = Stalloc::<6, 4>::new();
    let p = alloc.allocate_blocks(6, 1).unwrap();
    assert!(alloc.is_oom());
    alloc.shrink_in_place(p, 6, 5);
    assert!(!alloc.is_oom());
    assert_eq!(alloc.free_chunks(), vec![(5, 1)]);
    let dangling = alloc.shrink(p, Layout::new(20, 4), Layout::new(0, 4)).unwrap();
    assert_eq!(dangling, 4);
    assert!(alloc.is_empty());
}

#[test]
fn shrink_frees_room_for_more() {
    // shrinking allocations makes room for later ones
    let mut alloc = Stalloc::<10, 4>::new();
    let a = alloc.allocate_blocks(8, 1).unwrap();
    alloc.shrink_in_place(a, 8, 6);
    let b = alloc.allocate_blocks(4, 1).unwrap();
    assert!(alloc.is_oom());
    alloc.shrink_in_place(a, 6, 1);
    let c = alloc.allocate_blocks(5, 1).unwrap();
    alloc.deallocate_blocks(a, 1);
    alloc.deallocate_blocks(b, 4);
    alloc.deallocate_blocks(c, 5);
    assert!(alloc.is_empty());
}

#[test]
fn grow_up_to_is_clamped() {
    // growing towards a ridiculous size stops at the region's end
    let mut alloc = Stalloc::<7, 4>::new();
    let p = alloc.allocate_blocks(3, 1).unwrap();
    let achieved = alloc.grow_up_to(p, 3, 9999);
    assert_eq!(achieved, 7);
    assert!(alloc.is_oom());
}

#[test]
fn grow_in_place_block_by_block() {
    // a one-block chunk grows 127 times without moving
    let mut alloc = Stalloc::<128, 4>::new();
    let p = alloc.allocate_blocks(1, 1).unwrap();
    for old in 1..128usize {
        alloc.grow_in_place(p, old, old + 1).unwrap();
    }
    assert!(alloc.is_oom());
}

#[test]
fn chain_falls_back_and_routes_frees() {
    // 128 one-block allocations fill the first member; the next one is
    // served by the fallback, and frees are routed to whoever claims them
    let first = Stalloc::<128, 4>::new_at(0);
    let second = Stalloc::<128, 4>::new_at(512);
    let mut chain = first.chain(second);

    let mut ptrs = Vec::new();
    for _ in 0..128 {
        ptrs.push(chain.allocate(Layout::new(4, 1)).unwrap());
    }
    let extra = chain.allocate(Layout::new(4, 1)).unwrap();
    assert_eq!(extra, 512);
    assert!(!chain.0.addr_in_bounds(extra));
    assert!(chain.1.addr_in_bounds(extra));

    chain.deallocate(extra, Layout::new(4, 1));
    assert!(chain.1.is_empty());
    for p in ptrs {
        assert!(chain.0.addr_in_bounds(p));
        chain.deallocate(p, Layout::new(4, 1));
    }
    assert!(chain.0.is_empty());
}

#[test]
fn chain_grow_moves_to_fallback() {
    // a grow the first member cannot serve moves the allocation over
    let mut chain = Stalloc::<4, 4>::new_at(0).chain(Stalloc::<8, 4>::new_at(64));
    let a = chain.allocate(Layout::new(8, 4)).unwrap();
    let _b = chain.allocate(Layout::new(8, 4)).unwrap();
    let a2 = chain.grow(a, Layout::new(8, 4), Layout::new(20, 4)).unwrap();
    assert!(chain.1.addr_in_bounds(a2));
    assert_eq!(chain.0.free_chunks(), vec![(0, 2)]);
}

#[test]
fn chain_shrink_moves_to_fallback() {
    // a shrink the owner rejects (stricter alignment, no aligned run free)
    // relocates the allocation to the fallback and frees the old range
    let mut chain = Stalloc::<8, 4>::new_at(0).chain(Stalloc::<8, 4>::new_at(512));
    let a = chain.allocate(Layout::new(4, 4)).unwrap();
    let b = chain.allocate(Layout::new(28, 4)).unwrap();
    chain.deallocate(a, Layout::new(4, 4));
    let b2 = chain.shrink(b, Layout::new(28, 4), Layout::new(8, 32)).unwrap();
    assert_eq!(b2, 512);
    assert!(chain.1.addr_in_bounds(b2));
    assert_eq!(chain.0.free_chunks(), vec![(0, 8)]);
    assert!(chain.0.is_empty());
}

#[test]
fn chains_nest() {
    // a chain of three members serves from the first with room
    let mut chain = Stalloc::<2, 4>::new_at(0)
        .chain(Stalloc::<2, 4>::new_at(100_000))
        .chain(Stalloc::<4, 4>::new_at(200_000));
    let a = chain.allocate(Layout::new(8, 4)).unwrap();
    let b = chain.allocate(Layout::new(8, 4)).unwrap();
    let c = chain.allocate(Layout::new(16, 4)).unwrap();
    assert_eq!(a, 0);
    assert_eq!(b, 100_000);
    assert_eq!(c, 200_000);
    assert!(chain.allocate(Layout::new(8, 4)).is_err());
}

#[test]
fn alloc_exhaustion_is_reported() {
    let mut alloc = Stalloc::<4, 4>::new();
    let _p = alloc.allocate_blocks(3, 1).unwrap();
    assert_eq!(alloc.allocate_blocks(2, 1), Err(AllocError));
    assert_eq!(alloc.free_chunks(), vec![(3, 1)]);
    let q = alloc.allocate_blocks(1, 1).unwrap();
    assert_eq!(q, 12);
    assert!(alloc.is_oom());
    assert_eq!(alloc.allocate_blocks(1, 1), Err(AllocError));
}

#[test]
fn grow_in_place_needs_adjacent_room() {
    let mut alloc = Stalloc::<8, 4>::new();
    let a = alloc.allocate_blocks(2, 1).unwrap();
    let b = alloc.allocate_blocks(2, 1).unwrap();
    // the chunk after `a` is allocated, so `a` cannot grow in place
    assert_eq!(alloc.grow_in_place(a, 2, 3), Err(AllocError));
    // the free chunk after `b` has only four blocks
    assert_eq!(alloc.grow_in_place(b, 2, 8), Err(AllocError));
    assert_eq!(alloc.free_chunks(), vec![(4, 4)]);
    alloc.grow_in_place(b, 2, 6).unwrap();
    assert!(alloc.is_oom());
}

#[test]
fn clear_restores_the_empty_state() {
    let mut alloc = Stalloc::<16, 4>::new();
    let _a = alloc.allocate_blocks(7, 1).unwrap();
    let _b = alloc.allocate_blocks(9, 1).unwrap();
    assert!(alloc.is_oom());
    alloc.clear();
    assert!(alloc.is_empty());
    assert_eq!(alloc.free_chunks(), vec![(0, 16)]);
}

#[test]
fn aligned_allocations_are_aligned() {
    // every address is block-aligned; a four-block alignment pads the front
    let mut alloc = Stalloc::<32, 4>::new();
    let a = alloc.allocate_blocks(1, 1).unwrap();
    assert_eq!(a % 4, 0);
    let b = alloc.allocate_blocks(1, 4).unwrap();
    assert_eq!(b % 16, 0);
    assert_eq!(b, 16);
    let c = alloc.allocate_blocks(2, 2).unwrap();
    assert_eq!(c % 8, 0);
    assert_eq!(c, 8);
    // the padding in front of the aligned run stayed free
    assert_eq!(alloc.free_chunks(), vec![(1, 1), (5, 27)]);
}

#[test]
fn zero_size_allocations_dangle() {
    let mut alloc = Stalloc::<4, 4>::new();
    let p = alloc.allocate(Layout::new(0, 8)).unwrap();
    assert_eq!(p, 8);
    assert!(alloc.is_empty());
    alloc.deallocate(p, Layout::new(0, 8));
    assert!(alloc.is_empty());
}

#[test]
fn index_of_inverts_addresses() {
    let alloc = Stalloc::<8, 16>::new_at(4096);
    assert_eq!(alloc.index_of(4096), 0);
    assert_eq!(alloc.index_of(4096 + 3 * 16), 3);
    assert!(alloc.addr_in_bounds(4096));
    assert!(alloc.addr_in_bounds(4096 + 8 * 16 - 1));
    assert!(!alloc.addr_in_bounds(4095));
    assert!(!alloc.addr_in_bounds(4096 + 8 * 16));
}

#[test]
fn unsafestalloc_realloc_grows_and_shrinks() {
    let mut alloc = UnsafeStalloc::<16, 4>::new();
    let p = alloc.get_mut().allocate_blocks(2, 1).unwrap();
    let p = alloc.realloc(p, Layout::new(8, 4), 32).unwrap();
    assert!(!alloc.get().is_empty());
    let p = alloc.realloc(p, Layout::new(32, 4), 4).unwrap();
    alloc.get_mut().deallocate_blocks(p, 1);
    assert!(alloc.get().is_empty());
}

#[test]
fn syncstalloc_serializes_operations() {
    let alloc = SyncStalloc::<100, 4>::new();
    assert!(alloc.is_empty().0);
    let p = alloc.allocate_blocks(40, 1).0.unwrap();
    assert!(!alloc.is_empty().0);
    assert!(!alloc.is_oom().0);
    alloc.grow_in_place(p, 40, 100).0.unwrap();
    assert!(alloc.is_oom().0);
    alloc.shrink_in_place(p, 100, 50);
    assert!(!alloc.is_oom().0);
    alloc.deallocate_blocks(p, 50);
    assert!(alloc.is_empty().0);
    // an address that denotes no allocation is ignored
    alloc.deallocate_blocks(400, 1);
    assert!(alloc.is_empty().0);
    alloc.clear();
    assert!(alloc.is_empty().0);
}

#[test]
fn syncstalloc_guard_batches_operations() {
    let alloc = SyncStalloc::<100, 4>::new();
    let mut guard = alloc.acquire_locked();
    for _ in 0..20 {
        guard.allocate_blocks(5, 1).unwrap();
    }
    assert!(guard.is_oom());
    guard.release();
    assert!(alloc.is_oom().0);
}

#[test]
fn syncstalloc_layout_interface() {
    let mut alloc = SyncStalloc::<16, 4>::new();
    let p = alloc.allocate(Layout::new(16, 4)).unwrap();
    let p = alloc.grow(p, Layout::new(16, 4), Layout::new(32, 4)).unwrap();
    let p = alloc.shrink(p, Layout::new(32, 4), Layout::new(8, 4)).unwrap();
    alloc.deallocate(p, Layout::new(8, 4));
    assert!(alloc.is_empty().0);
}

#[test]
fn grow_up_to_without_adjacent_room() {
    let mut alloc = Stalloc::<8, 4>::new();
    let a = alloc.allocate_blocks(2, 1).unwrap();
    let _b = alloc.allocate_blocks(2, 1).unwrap();
    // nothing free follows `a`, so it stays at its old size
    assert_eq!(alloc.grow_up_to(a, 2, 4), 2);
    // only the four free blocks after `b` can be taken
    assert_eq!(alloc.grow_up_to(_b, 2, 100), 6);
    assert!(alloc.is_oom());
}

#[test]
fn shrink_realigns_when_needed() {
    // shrinking to a larger alignment moves a misaligned allocation
    let mut alloc = Stalloc::<32, 4>::new();
    let a = alloc.allocate_blocks(1, 1).unwrap();
    let b = alloc.allocate_blocks(8, 1).unwrap();
    assert_eq!(b, 4);
    alloc.deallocate_blocks(a, 1);
    // 32-byte alignment: address 4 no longer qualifies, so the shrink moves
    // the allocation to the aligned address 32
    let b2 = alloc.shrink(b, Layout::new(32, 4), Layout::new(16, 32)).unwrap();
    assert_eq!(b2 % 32, 0);
    assert_eq!(b2, 64);
}

#[test]
fn exact_fit_mid_chain_keeps_earlier_chunks() {
    // consuming a whole chunk in the middle of the chain must not mark the
    // allocator out of memory while earlier chunks are still free
    let mut alloc = Stalloc::<4, 4>::new();
    let p0 = alloc.allocate_blocks(1, 1).unwrap();
    let _p1 = alloc.allocate_blocks(1, 1).unwrap();
    let p2 = alloc.allocate_blocks(2, 1).unwrap();
    alloc.deallocate_blocks(p0, 1);
    alloc.deallocate_blocks(p2, 2);
    assert_eq!(alloc.free_chunks(), vec![(0, 1), (2, 2)]);
    // first fit skips the too-small first chunk and empties the second
    let q = alloc.allocate_blocks(2, 1).unwrap();
    assert_eq!(q, 8);
    assert!(!alloc.is_oom());
    assert_eq!(alloc.free_chunks(), vec![(0, 1)]);
}

#[test]
fn shrink_relocation_can_fail() {
    // a shrink that must move to satisfy a stricter alignment fails,
    // changing nothing, when no aligned run is free
    let mut alloc = Stalloc::<8, 4>::new();
    let _a = alloc.allocate_blocks(1, 1).unwrap();
    let b = alloc.allocate_blocks(7, 1).unwrap();
    assert!(alloc.is_oom());
    assert_eq!(alloc.shrink(b, Layout::new(28, 4), Layout::new(8, 32)), Err(AllocError));
    assert!(alloc.is_oom());
}

#[test]
fn free_chunks_of_a_new_allocator() {
    let alloc = Stalloc::<60, 4>::new();
    assert!(alloc.is_empty());
    assert!(!alloc.is_oom());
    assert_eq!(alloc.free_chunks(), vec![(0, 60)]);
}
