//! Workloads exercising the allocator through the byte-level interface, each
//! issuing the allocation requests that a growable vector or a box of the
//! named capacity would issue.

use stalloc::Allocator;
use stalloc::Layout;
use stalloc::Stalloc;

#[test]
fn test_vec() {
    // one vector of four bytes, filled with 42, in a one-block region
    let mut alloc = Stalloc::<1, 4>::new();
    let p = alloc.allocate(Layout::new(4, 1)).unwrap();
    alloc.deallocate(p, Layout::new(4, 1));
}

#[test]
fn test_2_vecs() {
    // two vectors of four bytes each, filled with 42
    let mut alloc = Stalloc::<2, 4>::new();
    let p1 = alloc.allocate(Layout::new(4, 1)).unwrap();
    let p2 = alloc.allocate(Layout::new(4, 1)).unwrap();
    alloc.deallocate(p2, Layout::new(4, 1));
    alloc.deallocate(p1, Layout::new(4, 1));
}

#[test]
fn test_differently_sized_vecs() {
    // seven vectors of 1 to 7 four-byte elements fill 28 blocks exactly
    let mut alloc = Stalloc::<28, 4>::new();
    let mut ptrs: Vec<(usize, Layout)> = Vec::new();
    for cap in 1..8usize {
        let layout = Layout::new(4 * cap, 4);
        ptrs.push((alloc.allocate(layout).unwrap(), layout));
    }
    assert!(alloc.is_oom());
    while let Some((p, layout)) = ptrs.pop() {
        alloc.deallocate(p, layout);
    }
    assert!(alloc.is_empty());
}

#[test]
fn test_free() {
    let mut alloc = Stalloc::<4, 4>::new();
    for _ in 0..4 {
        let p = alloc.allocate(Layout::new(16, 4)).unwrap();
        alloc.deallocate(p, Layout::new(16, 4));
    }
    assert!(alloc.is_empty());
}

#[test]
fn test_free_and_realloc() {
    let mut alloc = Stalloc::<4, 4>::new();
    let one = Layout::new(4, 4);
    let v1 = alloc.allocate(one).unwrap();
    let v2 = alloc.allocate(one).unwrap();
    let v3 = alloc.allocate(one).unwrap();
    let v4 = alloc.allocate(one).unwrap();
    alloc.deallocate(v2, one);
    alloc.deallocate(v4, one);
    alloc.deallocate(v1, one);
    alloc.deallocate(v3, one);
    let v5 = alloc.allocate(Layout::new(16, 4)).unwrap();
    alloc.deallocate(v5, Layout::new(16, 4));
    assert!(alloc.is_empty());
}

#[test]
fn test_complex_alloc_and_free() {
    let mut alloc = Stalloc::<64, 8>::new();

    let l1 = Layout::new(4, 1);
    let l2 = Layout::new(16, 2);
    let l3 = Layout::new(48, 4);
    let l4 = Layout::new(48, 8);
    let v1 = alloc.allocate(l1).unwrap();
    let v2 = alloc.allocate(l2).unwrap();
    let v3 = alloc.allocate(l3).unwrap();
    let v4 = alloc.allocate(l4).unwrap();
    alloc.deallocate(v2, l2);
    let l5 = Layout::new(6, 1);
    let l6 = Layout::new(6, 2);
    let v5 = alloc.allocate(l5).unwrap();
    let v6 = alloc.allocate(l6).unwrap();
    alloc.deallocate(v1, l1);
    let l7 = Layout::new(20, 4);
    let l8 = Layout::new(16, 8);
    let v7 = alloc.allocate(l7).unwrap();
    let v8 = alloc.allocate(l8).unwrap();
    alloc.deallocate(v3, l3);
    let l9 = Layout::new(10, 1);
    let v9 = alloc.allocate(l9).unwrap();
    alloc.deallocate(v4, l4);
    alloc.deallocate(v6, l6);
    let l10 = Layout::new(8, 2);
    let l11 = Layout::new(28, 4);
    let v10 = alloc.allocate(l10).unwrap();
    let v11 = alloc.allocate(l11).unwrap();
    alloc.deallocate(v5, l5);
    let l12 = Layout::new(48, 8);
    let v12 = alloc.allocate(l12).unwrap();
    alloc.deallocate(v7, l7);
    alloc.deallocate(v8, l8);
    let l13 = Layout::new(9, 1);
    let v13 = alloc.allocate(l13).unwrap();
    alloc.deallocate(v9, l9);
    let l14 = Layout::new(10, 2);
    let v14 = alloc.allocate(l14).unwrap();
    alloc.deallocate(v10, l10);
    alloc.deallocate(v11, l11);
    alloc.deallocate(v12, l12);
    alloc.deallocate(v13, l13);
    alloc.deallocate(v14, l14);

    assert!(alloc.is_empty());
}

#[test]
fn test_shrink() {
    let mut alloc = Stalloc::<6, 4>::new();

    let p = alloc.allocate(Layout::new(24, 4)).unwrap();
    assert!(alloc.is_oom());
    let p = alloc.shrink(p, Layout::new(24, 4), Layout::new(20, 4)).unwrap();
    assert!(!alloc.is_oom());
    let p = alloc.shrink(p, Layout::new(20, 4), Layout::new(16, 4)).unwrap();
    alloc.deallocate(p, Layout::new(16, 4));
    assert!(alloc.is_empty());
}

#[test]
fn test_shrink2() {
    let mut alloc = Stalloc::<6, 4>::new();

    let p = alloc.allocate(Layout::new(24, 4)).unwrap();
    let _dangling = alloc.shrink(p, Layout::new(24, 4), Layout::new(0, 4)).unwrap();
    assert!(alloc.is_empty());
}

#[test]
fn test_shrink3() {
    let mut alloc = Stalloc::<10, 4>::new();

    let v1 = alloc.allocate(Layout::new(32, 4)).unwrap();
    let v1 = alloc.shrink(v1, Layout::new(32, 4), Layout::new(24, 4)).unwrap();
    let v2 = alloc.allocate(Layout::new(16, 4)).unwrap();
    assert!(alloc.is_oom());
    let v1 = alloc.shrink(v1, Layout::new(24, 4), Layout::new(4, 4)).unwrap();
    let v3 = alloc.allocate(Layout::new(20, 4)).unwrap();

    alloc.deallocate(v2, Layout::new(16, 4));
    alloc.deallocate(v1, Layout::new(4, 4));
    alloc.deallocate(v3, Layout::new(20, 4));

    assert!(alloc.is_empty());
}

#[test]
fn test_grow() {
    let mut alloc = Stalloc::<6, 4>::new();

    let p = alloc.allocate(Layout::new(12, 4)).unwrap();
    let _p = alloc.grow(p, Layout::new(12, 4), Layout::new(24, 4)).unwrap();
    assert!(alloc.is_oom());
}

#[test]
fn test_grow_realloc() {
    let mut alloc = Stalloc::<12, 4>::new();

    let v1 = alloc.allocate(Layout::new(12, 4)).unwrap();
    let _v2 = alloc.allocate(Layout::new(12, 4)).unwrap();
    let _v1 = alloc.grow(v1, Layout::new(12, 4), Layout::new(24, 4)).unwrap();
    let _v3 = alloc.allocate(Layout::new(12, 4)).unwrap();
    assert!(alloc.is_oom());
}

#[test]
fn test_multiple_allocations_and_drops() {
    let mut alloc = Stalloc::<16, 4>::new();

    let v1 = alloc.allocate(Layout::new(8, 4)).unwrap();
    let v2 = alloc.allocate(Layout::new(20, 4)).unwrap();
    let v3 = alloc.allocate(Layout::new(36, 4)).unwrap();
    assert!(alloc.is_oom());

    alloc.deallocate(v2, Layout::new(20, 4));
    let v1 = alloc.grow(v1, Layout::new(8, 4), Layout::new(28, 4)).unwrap();
    assert!(alloc.is_oom());

    alloc.deallocate(v3, Layout::new(36, 4));
    let v1 = alloc.grow(v1, Layout::new(28, 4), Layout::new(64, 4)).unwrap();
    assert!(alloc.is_oom());

    alloc.deallocate(v1, Layout::new(64, 4));
    assert!(alloc.is_empty());
}

#[test]
fn test_simple_push() {
    // a vector of four-byte elements grows by doubling as 128 elements,
    // each 42, are pushed
    let mut alloc = Stalloc::<128, 4>::new();

    let mut cap: usize = 0;
    let mut ptr: usize = 0;
    for len in 0..128usize {
        if len == cap {
            let new_cap = if cap == 0 { 4 } else { 2 * cap };
            ptr = alloc.grow(ptr, Layout::new(4 * cap, 4), Layout::new(4 * new_cap, 4)).unwrap();
            cap = new_cap;
        }
    }
    assert!(alloc.is_oom());
}

#[test]
fn test_boxes() {
    // 128 boxed 42s, one block each, leaked
    let mut alloc = Stalloc::<128, 4>::new();
    for _ in 0..128 {
        let _b = alloc.allocate(Layout::new(4, 4)).unwrap();
    }
    assert!(alloc.is_oom());
}

#[test]
fn self_referential() {
    // a vector of 128 boxes, each box holding the 8 bytes of "hi there",
    // where the boxes are allocated from the same 256-block region
    let mut alloc = Stalloc::<256, 16>::new();

    let buffer = alloc.allocate(Layout::new(128 * 16, 8)).unwrap();
    let mut boxes: Vec<usize> = Vec::new();
    for _ in 0..128 {
        boxes.push(alloc.allocate(Layout::new(8, 1)).unwrap());
    }
    assert!(alloc.is_oom());

    for p in boxes {
        alloc.deallocate(p, Layout::new(8, 1));
    }
    alloc.deallocate(buffer, Layout::new(128 * 16, 8));
    assert!(alloc.is_empty());
}

#[test]
fn self_referential_growing() {
    // as `self_referential`, but the vector of boxes starts empty and grows
    let mut alloc = Stalloc::<512, 16>::new();

    let mut cap: usize = 0;
    let mut buffer: usize = 0;
    let mut boxes: Vec<usize> = Vec::new();
    for len in 0..128usize {
        let b = alloc.allocate(Layout::new(8, 1)).unwrap();
        if len == cap {
            let new_cap = if cap == 0 { 4 } else { 2 * cap };
            buffer = alloc
                .grow(buffer, Layout::new(16 * cap, 8), Layout::new(16 * new_cap, 8))
                .unwrap();
            cap = new_cap;
        }
        boxes.push(b);
    }

    for p in boxes {
        alloc.deallocate(p, Layout::new(8, 1));
    }
    alloc.deallocate(buffer, Layout::new(16 * cap, 8));
    assert!(alloc.is_empty());
}

#[test]
fn grow_from_1() {
    // a vector with one four-byte slot grows by doubling as 256 elements,
    // each 42, are pushed
    let mut alloc = Stalloc::<256, 8>::new();

    let mut cap: usize = 1;
    let mut ptr = alloc.allocate(Layout::new(4, 4)).unwrap();
    for len in 0..256usize {
        if len == cap {
            let new_cap = 2 * cap;
            ptr = alloc.grow(ptr, Layout::new(4 * cap, 4), Layout::new(4 * new_cap, 4)).unwrap();
            cap = new_cap;
        }
    }
    alloc.deallocate(ptr, Layout::new(4 * cap, 4));
    assert!(alloc.is_empty());
}

#[test]
fn test_grow_and_free() {
    let mut alloc = Stalloc::<4, 4>::new();

    let v1 = alloc.allocate(Layout::new(4, 4)).unwrap();
    let _v2 = alloc.allocate(Layout::new(4, 4)).unwrap();
    let _v1 = alloc.grow(v1, Layout::new(4, 4), Layout::new(8, 4)).unwrap();
    let _v3 = alloc.allocate(Layout::new(4, 4)).unwrap();
    assert!(alloc.is_oom());
}

#[test]
fn vec_and_growing_vec() {
    let mut alloc = Stalloc::<9, 4>::new();

    let _v1 = alloc.allocate(Layout::new(4, 4)).unwrap();
    let v2 = alloc.allocate(Layout::new(16, 4)).unwrap();
    // the fifth push doubles the second vector's capacity from 4 to 8
    let _v2 = alloc.grow(v2, Layout::new(16, 4), Layout::new(32, 4)).unwrap();

    assert!(alloc.is_oom());
}

#[test]
fn vec_and_growing_vec2() {
    let mut alloc = Stalloc::<14, 4>::new();

    let _v1 = alloc.allocate(Layout::new(4, 4)).unwrap();

    let v2 = alloc.allocate(Layout::new(16, 4)).unwrap();

    let _v3 = alloc.allocate(Layout::new(4, 4)).unwrap();

    // extending the second vector past four elements doubles its capacity
    let _v2 = alloc.grow(v2, Layout::new(16, 4), Layout::new(32, 4)).unwrap();

    let _v4 = alloc.allocate(Layout::new(16, 4)).unwrap();

    assert!(alloc.is_oom());
}

#[test]
fn test_small_alloc() {
    let mut alloc = Stalloc::<3, 8>::new();

    let a = alloc.allocate(Layout::new(1, 1)).unwrap();
    let b = alloc.allocate(Layout::new(2, 2)).unwrap();
    let c = alloc.allocate(Layout::new(4, 4)).unwrap();
    assert!(alloc.is_oom());

    alloc.deallocate(b, Layout::new(2, 2));
    alloc.deallocate(a, Layout::new(1, 1));
    alloc.deallocate(c, Layout::new(4, 4));
    assert!(alloc.is_empty());
}

#[test]
fn test_large_and_small_alloc() {
    let mut alloc = Stalloc::<12, 4>::new();

    let a = alloc.allocate(Layout::new(8, 8)).unwrap();
    let b = alloc.allocate(Layout::new(16, 16)).unwrap();
    let c = alloc.allocate(Layout::new(8, 8)).unwrap();

    let small1 = alloc.allocate(Layout::new(1, 1)).unwrap();
    let small2 = alloc.allocate(Layout::new(1, 1)).unwrap();
    let small3 = alloc.allocate(Layout::new(1, 1)).unwrap();
    let small4 = alloc.allocate(Layout::new(1, 1)).unwrap();

    assert!(alloc.is_oom());

    alloc.deallocate(c, Layout::new(8, 8));
    alloc.deallocate(small3, Layout::new(1, 1));
    alloc.deallocate(small2, Layout::new(1, 1));
    alloc.deallocate(a, Layout::new(8, 8));
    alloc.deallocate(small4, Layout::new(1, 1));
    alloc.deallocate(small1, Layout::new(1, 1));
    alloc.deallocate(b, Layout::new(16, 16));

    assert!(alloc.is_empty());
}
