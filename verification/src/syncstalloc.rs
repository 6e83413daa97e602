//! A wrapper that serializes access to a [`Stalloc`] under a lock, so that
//! it can be shared between threads, together with a guard that keeps the
//! lock across a batch of operations.

use vstd::prelude::*;
use vstd::rwlock::RwLock;
use vstd::rwlock::RwLockPredicate;
use vstd::rwlock::WriteHandle;

use crate::chain::AllocChain;
use crate::chain::ChainableAlloc;
use crate::freelist::Stalloc;
use crate::layout::is_pow2;
use crate::layout::AllocError;
use crate::layout::Allocator;
use crate::layout::Layout;
use crate::model::alloc_update;
use crate::model::chunks_wf;
use crate::model::dealloc_update;
use crate::model::first_fit;
use crate::model::free_total;
use crate::model::front_pad;
use crate::model::grow_ok;
use crate::model::insert_pos;
use crate::model::range_disjoint;
use crate::model::shrink_update;
use crate::model::split_update;

verus! {

/// The lock invariant of [`SyncStalloc`]: the allocator is well formed and
/// its region sits at the wrapper's fixed base address.
pub struct SyncPred<const L: usize, const B: usize> {
    pub base: usize,
}

impl<const L: usize, const B: usize> RwLockPredicate<Stalloc<L, B>> for SyncPred<L, B> {
    open spec fn inv(self, v: Stalloc<L, B>) -> bool {
        v.wf() && v.region_base() == self.base
    }
}

/// A thread-safe wrapper around [`Stalloc`]: every operation takes the lock,
/// acts, and releases it. Because another thread may act between two calls,
/// the contracts of the locking operations cannot relate one call's state to
/// the next; operations validate their arguments against the state found
/// under the lock and leave it unchanged when they do not apply. For a batch
/// of operations under one hold of the lock, with full contracts, use
/// [`SyncStalloc::acquire_locked`].
pub struct SyncStalloc<const L: usize, const B: usize> {
    lock: RwLock<Stalloc<L, B>, SyncPred<L, B>>,
    base_addr: usize,
}

impl<const L: usize, const B: usize> SyncStalloc<L, B> {
    /// The wrapper's invariant: the lock holds a well-formed allocator at
    /// the fixed base address.
    pub closed spec fn wf(self) -> bool {
        &&& self.lock.pred() == (SyncPred::<L, B> { base: self.base_addr })
        &&& Stalloc::<L, B>::params_ok()
    }

    /// The fixed address of the region's first block.
    pub closed spec fn region_base(self) -> int {
        self.base_addr as int
    }

    /// Initializes a new empty instance whose region starts at address `0`.
    pub fn new() -> (r: Self)
        requires
            Stalloc::<L, B>::params_ok(),
        ensures
            r.wf(),
            r.region_base() == 0,
    {
        let inner = Stalloc::<L, B>::new();
        let ghost pred = SyncPred::<L, B> { base: 0 };
        let lock = RwLock::new(inner, Ghost(pred));
        SyncStalloc { lock, base_addr: 0 }
    }

    /// True when, against the free list `b` found under the lock, `ptr` and
    /// `size` denote a live allocation of `size` blocks: its address is
    /// block-aligned within the region, the run lies inside the region, and
    /// no block of the run lies in a free chunk. The locking operations
    /// validate their arguments against this condition and leave the state
    /// unchanged when it fails.
    pub open spec fn live_range(self, b: Seq<(int, int)>, ptr: usize, size: usize) -> bool {
        let idx = (ptr - self.region_base()) / (B as int);
        &&& 1 <= size
        &&& self.region_base() <= ptr
        &&& (ptr - self.region_base()) % (B as int) == 0
        &&& idx + size <= L
        &&& range_disjoint(b, idx, size as int)
    }

    /// Checks if the allocator is completely out of memory: whether the free
    /// list found under the lock, reported as a ghost witness, is empty.
    /// Another thread may have acted by the time the caller sees the answer.
    pub fn is_oom(&self) -> (r: (bool, Ghost<Seq<(int, int)>>))
        requires
            self.wf(),
        ensures
            chunks_wf(r.1@, L as int),
            r.0 == (r.1@.len() == 0),
    {
        let handle = self.lock.acquire_read();
        let v = handle.borrow();
        let r = v.is_oom();
        let ghost w = v.chunks();
        proof {
            v.lemma_wf_chunks();
        }
        handle.release_read();
        (r, Ghost(w))
    }

    /// Checks if the allocator is empty: whether the free list found under
    /// the lock, reported as a ghost witness, is anchored at block `0`.
    pub fn is_empty(&self) -> (r: (bool, Ghost<Seq<(int, int)>>))
        requires
            self.wf(),
        ensures
            chunks_wf(r.1@, L as int),
            r.0 == (r.1@.len() > 0 && r.1@[0].0 == 0),
    {
        let handle = self.lock.acquire_read();
        let v = handle.borrow();
        let r = v.is_empty();
        let ghost w = v.chunks();
        proof {
            v.lemma_wf_chunks();
        }
        handle.release_read();
        (r, Ghost(w))
    }

    /// Restores the allocator to the empty state, abandoning every
    /// outstanding allocation; the ghost witness reports the free lists
    /// found and left under the lock. Callers must not return previously
    /// allocated ranges afterwards.
    pub fn clear(&self) -> (w: Ghost<(Seq<(int, int)>, Seq<(int, int)>)>)
        requires
            self.wf(),
        ensures
            chunks_wf(w@.0, L as int),
            w@.1 =~= seq![(0int, L as int)],
    {
        let (mut v, handle) = self.lock.acquire_write();
        proof {
            v.lemma_wf_chunks();
        }
        let ghost b = v.chunks();
        v.clear();
        let ghost a = v.chunks();
        handle.release_write(v);
        Ghost((b, a))
    }

    /// Tries to allocate a run of `size` blocks aligned to `align` blocks,
    /// like [`Stalloc::allocate_blocks`], under the lock. The ghost witness
    /// reports the free lists found and left under the lock, and the result
    /// is exactly the first-fit outcome on the found one.
    pub fn allocate_blocks(&self, size: usize, align: usize) -> (r: (
        Result<usize, AllocError>,
        Ghost<(Seq<(int, int)>, Seq<(int, int)>)>,
    ))
        requires
            self.wf(),
            1 <= size,
            is_pow2(align as int),
            align as int * B as int <= 0x2000_0000,
        ensures
            r.0 is Ok ==> r.0->Ok_0 as int % (B as int) == 0 && r.0->Ok_0 as int % (align as int
                * B as int) == 0,
            r.0 is Ok ==> self.region_base() <= r.0->Ok_0 as int && r.0->Ok_0 as int + size * B
                <= self.region_base() + L * B,
            chunks_wf(r.1@.0, L as int),
            ({
                let b = r.1@.0;
                let a = r.1@.1;
                let off = self.region_base() / (B as int);
                let ff = first_fit(b, size as int, align as int, off);
                &&& (r.0 is Err <==> ff == -1)
                &&& (r.0 is Err ==> a == b)
                &&& (ff != -1 ==> r.0 is Ok && a == alloc_update(b, ff, size as int, align as int, off)
                    && r.0->Ok_0 as int == self.region_base() + (b[ff].0 + front_pad(
                    off + b[ff].0,
                    align as int,
                )) * B && free_total(a) == free_total(b) - size)
            }),
    {
        let (mut v, handle) = self.lock.acquire_write();
        proof {
            v.lemma_wf_chunks();
        }
        let ghost b = v.chunks();
        let r = v.allocate_blocks(size, align);
        let ghost a = v.chunks();
        handle.release_write(v);
        (r, Ghost((b, a)))
    }

    /// Returns the run of `size` blocks at `ptr` to the free list, like
    /// [`Stalloc::deallocate_blocks`], under the lock. The ghost witness
    /// reports the free lists found and left under the lock: a range live
    /// against the found one is freed and coalesced; any other range is
    /// ignored.
    pub fn deallocate_blocks(&self, ptr: usize, size: usize) -> (w: Ghost<
        (Seq<(int, int)>, Seq<(int, int)>),
    >)
        requires
            self.wf(),
        ensures
            chunks_wf(w@.0, L as int),
            self.live_range(w@.0, ptr, size) ==> w@.1 == dealloc_update(
                w@.0,
                (ptr - self.region_base()) / (B as int),
                size as int,
            ) && free_total(w@.1) == free_total(w@.0) + size,
            !self.live_range(w@.0, ptr, size) ==> w@.1 == w@.0,
    {
        let (mut v, handle) = self.lock.acquire_write();
        proof {
            v.lemma_wf_chunks();
        }
        let ghost b = v.chunks();
        if 1 <= size && ptr >= self.base_addr && (ptr - self.base_addr) % B == 0 {
            let idx = (ptr - self.base_addr) / B;
            if idx < L && size <= L - idx && v.range_allocated(idx, size) {
                v.deallocate_blocks(ptr, size);
            }
        }
        let ghost a = v.chunks();
        handle.release_write(v);
        Ghost((b, a))
    }

    /// Shrinks the allocation at `ptr` in place, like
    /// [`Stalloc::shrink_in_place`], under the lock. The ghost witness
    /// reports the free lists found and left under the lock: with a live
    /// range and `1 <= new_size < old_size` the trailing blocks are freed;
    /// any other arguments are ignored.
    pub fn shrink_in_place(&self, ptr: usize, old_size: usize, new_size: usize) -> (w: Ghost<
        (Seq<(int, int)>, Seq<(int, int)>),
    >)
        requires
            self.wf(),
        ensures
            chunks_wf(w@.0, L as int),
            self.live_range(w@.0, ptr, old_size) && 1 <= new_size < old_size ==> w@.1
                == shrink_update(
                w@.0,
                (ptr - self.region_base()) / (B as int),
                old_size as int,
                new_size as int,
            ),
            !(self.live_range(w@.0, ptr, old_size) && 1 <= new_size < old_size) ==> w@.1 == w@.0,
    {
        let (mut v, handle) = self.lock.acquire_write();
        proof {
            v.lemma_wf_chunks();
        }
        let ghost b = v.chunks();
        if 1 <= new_size && new_size < old_size && ptr >= self.base_addr && (ptr - self.base_addr)
            % B == 0 {
            let idx = (ptr - self.base_addr) / B;
            if idx < L && old_size <= L - idx && v.range_allocated(idx, old_size) {
                v.shrink_in_place(ptr, old_size, new_size);
            }
        }
        let ghost a = v.chunks();
        handle.release_write(v);
        Ghost((b, a))
    }

    /// Tries to grow the allocation at `ptr` in place, like
    /// [`Stalloc::grow_in_place`], under the lock. The ghost witness reports
    /// the free lists found and left under the lock: with a live range and
    /// `old_size < new_size`, success is exactly adjacency with room; any
    /// other arguments fail, changing nothing.
    pub fn grow_in_place(&self, ptr: usize, old_size: usize, new_size: usize) -> (r: (
        Result<(), AllocError>,
        Ghost<(Seq<(int, int)>, Seq<(int, int)>)>,
    ))
        requires
            self.wf(),
        ensures
            chunks_wf(r.1@.0, L as int),
            ({
                let b = r.1@.0;
                let a = r.1@.1;
                let idx = (ptr - self.region_base()) / (B as int);
                &&& (self.live_range(b, ptr, old_size) && old_size < new_size ==> {
                    &&& (r.0 is Ok <==> grow_ok(b, idx, old_size as int, new_size as int))
                    &&& (r.0 is Ok ==> a == split_update(
                        b,
                        insert_pos(b, idx),
                        0,
                        new_size - old_size,
                    ))
                    &&& (r.0 is Err ==> a == b)
                })
                &&& (!(self.live_range(b, ptr, old_size) && old_size < new_size) ==> r.0 is Err
                    && a == b)
            }),
    {
        let (mut v, handle) = self.lock.acquire_write();
        proof {
            v.lemma_wf_chunks();
        }
        let ghost b = v.chunks();
        let mut r: Result<(), AllocError> = Err(AllocError);
        if 1 <= old_size && old_size < new_size && ptr >= self.base_addr && (ptr - self.base_addr)
            % B == 0 {
            let idx = (ptr - self.base_addr) / B;
            if idx < L && old_size <= L - idx && v.range_allocated(idx, old_size) {
                r = v.grow_in_place(ptr, old_size, new_size);
            }
        }
        let ghost a = v.chunks();
        handle.release_write(v);
        (r, Ghost((b, a)))
    }

    /// Grows the allocation at `ptr` in place by as much as possible, like
    /// [`Stalloc::grow_up_to`], under the lock. The ghost witness reports
    /// the free lists found and left under the lock: with a live range and
    /// `old_size < new_size` the adjacent chunk is consumed as far as it
    /// goes; any other arguments return `old_size`, changing nothing.
    pub fn grow_up_to(&self, ptr: usize, old_size: usize, new_size: usize) -> (r: (usize, Ghost<
        (Seq<(int, int)>, Seq<(int, int)>),
    >))
        requires
            self.wf(),
        ensures
            chunks_wf(r.1@.0, L as int),
            ({
                let b = r.1@.0;
                let a = r.1@.1;
                let idx = (ptr - self.region_base()) / (B as int);
                let p = insert_pos(b, idx);
                let adj = p < b.len() && b[p].0 == idx + old_size;
                let gain = if !adj {
                    0
                } else if new_size - old_size <= b[p].1 {
                    new_size - old_size
                } else {
                    b[p].1
                };
                &&& (self.live_range(b, ptr, old_size) && old_size < new_size ==> {
                    &&& old_size <= r.0 <= new_size
                    &&& r.0 == old_size + gain
                    &&& (gain == 0 ==> a == b)
                    &&& (gain > 0 ==> a == split_update(b, p, 0, gain))
                })
                &&& (!(self.live_range(b, ptr, old_size) && old_size < new_size) ==> r.0
                    == old_size && a == b)
            }),
    {
        let (mut v, handle) = self.lock.acquire_write();
        proof {
            v.lemma_wf_chunks();
        }
        let ghost b = v.chunks();
        let mut r = old_size;
        if 1 <= old_size && old_size < new_size && ptr >= self.base_addr && (ptr - self.base_addr)
            % B == 0 {
            let idx = (ptr - self.base_addr) / B;
            if idx < L && old_size <= L - idx && v.range_allocated(idx, old_size) {
                r = v.grow_up_to(ptr, old_size, new_size);
            }
        }
        let ghost a = v.chunks();
        handle.release_write(v);
        (r, Ghost((b, a)))
    }

    /// Acquires the lock and hands out a guard through which a batch of
    /// operations can run in one critical section, with the allocator's full
    /// contracts. The lock is held until [`StallocGuard::release`] is
    /// called.
    pub fn acquire_locked(&self) -> (g: StallocGuard<'_, L, B>)
        requires
            self.wf(),
        ensures
            g.wf(),
            g.region_base() == self.region_base(),
    {
        let (v, handle) = self.lock.acquire_write();
        StallocGuard { alloc: v, handle }
    }

    /// The `Allocator`-trait invariant of this type is exactly its
    /// well-formedness, so the trait operations' preconditions can be
    /// discharged from the constructor's postconditions.
    pub proof fn lemma_alloc_wf(&self)
        ensures
            self.alloc_wf() == self.wf(),
    {
    }

    /// Creates a new [`AllocChain`] containing this allocator and `next`.
    pub fn chain<T>(self, next: T) -> (r: AllocChain<Self, T>)
        ensures
            r == AllocChain(self, next),
    {
        AllocChain(self, next)
    }
}

/// Exclusive access to the allocator inside a [`SyncStalloc`]: constructing
/// this type is proof that the caller holds the lock. The guard exposes the
/// allocator's operations with their full contracts, and returns the
/// allocator to the lock on [`StallocGuard::release`].
pub struct StallocGuard<'a, const L: usize, const B: usize> {
    alloc: Stalloc<L, B>,
    handle: WriteHandle<'a, Stalloc<L, B>, SyncPred<L, B>>,
}

impl<'a, const L: usize, const B: usize> StallocGuard<'a, L, B> {
    /// The guard's invariant: the held allocator satisfies the lock's
    /// invariant, so it can be returned.
    pub closed spec fn wf(self) -> bool {
        self.alloc.wf() && self.handle.rwlock().inv(self.alloc)
    }

    /// The held allocator's free list.
    pub closed spec fn chunks(self) -> Seq<(int, int)> {
        self.alloc.chunks()
    }

    /// The address of the held allocator's first block.
    pub closed spec fn region_base(self) -> int {
        self.alloc.region_base()
    }

    /// True when the held allocator has no free blocks.
    pub closed spec fn is_oom_spec(self) -> bool {
        self.alloc.is_oom_spec()
    }

    /// Checks if the held allocator is completely out of memory.
    pub fn is_oom(&self) -> (r: bool)
        requires
            self.wf(),
        ensures
            r == self.is_oom_spec(),
            r == (self.chunks().len() == 0),
    {
        self.alloc.is_oom()
    }

    /// Checks if the held allocator is empty.
    pub fn is_empty(&self) -> (r: bool)
        requires
            self.wf(),
        ensures
            r == (self.chunks().len() > 0 && self.chunks()[0].0 == 0),
    {
        self.alloc.is_empty()
    }

    /// Allocates a run of `size` blocks aligned to `align` blocks, like
    /// [`Stalloc::allocate_blocks`].
    pub fn allocate_blocks(&mut self, size: usize, align: usize) -> (r: Result<usize, AllocError>)
        requires
            old(self).wf(),
            1 <= size,
            is_pow2(align as int),
            align as int * B as int <= 0x2000_0000,
        ensures
            final(self).wf(),
            final(self).region_base() == old(self).region_base(),
            r is Err <==> first_fit(
                old(self).chunks(),
                size as int,
                align as int,
                old(self).region_base() / (B as int),
            ) == -1,
            r is Ok ==> free_total(final(self).chunks()) == free_total(old(self).chunks()) - size,
            r is Ok ==> r->Ok_0 as int % (align as int * B as int) == 0,
            r is Ok ==> old(self).region_base() <= r->Ok_0 as int && r->Ok_0 as int + size * B
                <= old(self).region_base() + L * B,
    {
        let r = self.alloc.allocate_blocks(size, align);
        proof {
            if r is Ok {
                old(self).alloc.lemma_wf_chunks();
                crate::model::lemma_first_fit_range(
                    old(self).chunks(),
                    size as int,
                    align as int,
                    old(self).region_base() / (B as int),
                    0,
                );
            }
        }
        r
    }

    /// Returns the run of `size` blocks at `ptr` to the free list, like
    /// [`Stalloc::deallocate_blocks`].
    pub fn deallocate_blocks(&mut self, ptr: usize, size: usize)
        requires
            old(self).wf(),
            1 <= size,
            old(self).region_base() <= ptr,
            (ptr - old(self).region_base()) % (B as int) == 0,
            (ptr - old(self).region_base()) / (B as int) + size <= L,
            range_disjoint(
                old(self).chunks(),
                (ptr - old(self).region_base()) / (B as int),
                size as int,
            ),
        ensures
            final(self).wf(),
            final(self).region_base() == old(self).region_base(),
            final(self).chunks() == dealloc_update(
                old(self).chunks(),
                (ptr - old(self).region_base()) / (B as int),
                size as int,
            ),
            free_total(final(self).chunks()) == free_total(old(self).chunks()) + size,
    {
        self.alloc.deallocate_blocks(ptr, size);
    }

    /// Reports the held allocator's free list as `(start, length)` pairs.
    pub fn free_chunks(&self) -> (v: Vec<(u16, u16)>)
        requires
            self.wf(),
        ensures
            v@.len() == self.chunks().len(),
            forall|k: int|
                0 <= k < v@.len() ==> #[trigger] v@[k].0 as int == self.chunks()[k].0
                    && v@[k].1 as int == self.chunks()[k].1,
    {
        self.alloc.free_chunks()
    }

    /// Restores the held allocator to the empty state, like
    /// [`Stalloc::clear`].
    pub fn clear(&mut self)
        requires
            old(self).wf(),
        ensures
            final(self).wf(),
            final(self).region_base() == old(self).region_base(),
            final(self).chunks() =~= seq![(0int, L as int)],
    {
        self.alloc.clear();
    }

    /// Shrinks the allocation at `ptr` in place, like
    /// [`Stalloc::shrink_in_place`].
    pub fn shrink_in_place(&mut self, ptr: usize, old_size: usize, new_size: usize)
        requires
            old(self).wf(),
            1 <= new_size < old_size,
            old(self).region_base() <= ptr,
            (ptr - old(self).region_base()) % (B as int) == 0,
            (ptr - old(self).region_base()) / (B as int) + old_size <= L,
            range_disjoint(
                old(self).chunks(),
                (ptr - old(self).region_base()) / (B as int),
                old_size as int,
            ),
        ensures
            final(self).wf(),
            final(self).region_base() == old(self).region_base(),
            final(self).chunks() == crate::model::shrink_update(
                old(self).chunks(),
                (ptr - old(self).region_base()) / (B as int),
                old_size as int,
                new_size as int,
            ),
    {
        self.alloc.shrink_in_place(ptr, old_size, new_size);
    }

    /// Tries to grow the allocation at `ptr` in place, like
    /// [`Stalloc::grow_in_place`].
    pub fn grow_in_place(&mut self, ptr: usize, old_size: usize, new_size: usize) -> (r: Result<
        (),
        AllocError,
    >)
        requires
            old(self).wf(),
            1 <= old_size < new_size,
            old(self).region_base() <= ptr,
            (ptr - old(self).region_base()) % (B as int) == 0,
            (ptr - old(self).region_base()) / (B as int) + old_size <= L,
            range_disjoint(
                old(self).chunks(),
                (ptr - old(self).region_base()) / (B as int),
                old_size as int,
            ),
        ensures
            final(self).wf(),
            final(self).region_base() == old(self).region_base(),
            r is Ok <==> crate::model::grow_ok(
                old(self).chunks(),
                (ptr - old(self).region_base()) / (B as int),
                old_size as int,
                new_size as int,
            ),
            r is Err ==> final(self).chunks() == old(self).chunks(),
    {
        self.alloc.grow_in_place(ptr, old_size, new_size)
    }

    /// Releases the lock, returning the allocator to the [`SyncStalloc`].
    pub fn release(self)
        requires
            self.wf(),
    {
        let StallocGuard { alloc, handle } = self;
        handle.release_write(alloc);
    }
}

impl<const L: usize, const B: usize> ChainableAlloc for SyncStalloc<L, B> {
    /// The wrapper claims exactly the addresses of the region at its fixed
    /// base.
    closed spec fn in_bounds_spec(&self, addr: int) -> bool {
        self.region_base() <= addr < self.region_base() + L * B
    }

    fn addr_in_bounds(&self, addr: usize) -> (r: bool) {
        let r = B >= 1 && addr >= self.base_addr && (addr - self.base_addr) / B < L;
        proof {
            if B >= 1 && addr >= self.base_addr {
                let d = addr as int - self.base_addr as int;
                vstd::arithmetic::div_mod::lemma_fundamental_div_mod(d, B as int);
                vstd::arithmetic::div_mod::lemma_mod_division_less_than_divisor(d, B as int);
                assert((d / (B as int) < L as int) == (d < (L as int) * (B as int)))
                    by (nonlinear_arith)
                    requires
                        d == (B as int) * (d / (B as int)) + d % (B as int),
                        0 <= d % (B as int) < B as int,
                        1 <= B as int,
                        0 <= L as int,
                ;
            }
        }
        r
    }
}

impl<const L: usize, const B: usize> Allocator for SyncStalloc<L, B> {
    closed spec fn alloc_wf(&self) -> bool {
        self.wf()
    }

    /// What the wrapper can know of a live allocation without holding the
    /// lock: its address geometry. Whether the range is actually free is
    /// checked against the state found under the lock at each call.
    closed spec fn valid_alloc(&self, ptr: usize, layout: Layout) -> bool {
        let idx = (ptr - self.region_base()) / (B as int);
        let blocks = crate::layout::blocks_for(layout.size as int, B as int);
        &&& self.region_base() <= ptr
        &&& (ptr - self.region_base()) % (B as int) == 0
        &&& idx + blocks <= L
    }

    /// The lock hides the allocator's state: the state found under the lock
    /// is not part of this value, so no transition of it can be related to
    /// the receiver. The fully-specified path is
    /// [`SyncStalloc::acquire_locked`].
    open spec fn allocate_post(pre: Self, post: Self, layout: Layout, r: Result<usize, AllocError>) -> bool {
        post.region_base() == pre.region_base()
    }

    /// See [`SyncStalloc::allocate_post`]: the lock hides the state.
    open spec fn deallocate_post(pre: Self, post: Self, ptr: usize, layout: Layout) -> bool {
        post.region_base() == pre.region_base()
    }

    /// See [`SyncStalloc::allocate_post`]: the lock hides the state.
    open spec fn grow_post(
        pre: Self,
        post: Self,
        ptr: usize,
        old_layout: Layout,
        new_layout: Layout,
        r: Result<usize, AllocError>,
    ) -> bool {
        post.region_base() == pre.region_base()
    }

    /// See [`SyncStalloc::allocate_post`]: the lock hides the state.
    open spec fn shrink_post(
        pre: Self,
        post: Self,
        ptr: usize,
        old_layout: Layout,
        new_layout: Layout,
        r: Result<usize, AllocError>,
    ) -> bool {
        post.region_base() == pre.region_base()
    }

    fn allocate(&mut self, layout: Layout) -> (r: Result<usize, AllocError>) {
        let (mut v, handle) = self.lock.acquire_write();
        let r = v.allocate(layout);
        proof {
            if r is Ok && layout.size > 0 {
                v.lemma_valid_in_bounds(r->Ok_0, layout);
            }
        }
        handle.release_write(v);
        r
    }

    fn deallocate(&mut self, ptr: usize, layout: Layout) {
        let (mut v, handle) = self.lock.acquire_write();
        if layout.size > 0 && ptr >= self.base_addr {
            let idx = (ptr - self.base_addr) / B;
            let blocks = Stalloc::<L, B>::blocks_of(layout.size);
            if blocks >= 1 && idx < L && blocks <= L - idx && v.range_allocated(idx, blocks) {
                v.deallocate(ptr, layout);
            }
        }
        handle.release_write(v);
    }

    fn grow(&mut self, ptr: usize, old_layout: Layout, new_layout: Layout) -> (r: Result<
        usize,
        AllocError,
    >) {
        let (mut v, handle) = self.lock.acquire_write();
        let mut r: Result<usize, AllocError> = Err(AllocError);
        let mut live = old_layout.size == 0;
        if old_layout.size > 0 && ptr >= self.base_addr {
            let idx = (ptr - self.base_addr) / B;
            let blocks = Stalloc::<L, B>::blocks_of(old_layout.size);
            if blocks >= 1 && idx < L && blocks <= L - idx && v.range_allocated(idx, blocks) {
                live = true;
            }
        }
        if live {
            r = v.grow(ptr, old_layout, new_layout);
        }
        proof {
            if r is Ok && new_layout.size > 0 {
                v.lemma_valid_in_bounds(r->Ok_0, new_layout);
            }
        }
        handle.release_write(v);
        r
    }

    fn shrink(&mut self, ptr: usize, old_layout: Layout, new_layout: Layout) -> (r: Result<
        usize,
        AllocError,
    >) {
        let (mut v, handle) = self.lock.acquire_write();
        let mut r: Result<usize, AllocError> = Err(AllocError);
        let mut live = old_layout.size == 0;
        if old_layout.size > 0 && ptr >= self.base_addr {
            let idx = (ptr - self.base_addr) / B;
            let blocks = Stalloc::<L, B>::blocks_of(old_layout.size);
            if blocks >= 1 && idx < L && blocks <= L - idx && v.range_allocated(idx, blocks) {
                live = true;
            }
        }
        if live {
            r = v.shrink(ptr, old_layout, new_layout);
        }
        proof {
            if r is Ok && new_layout.size > 0 {
                v.lemma_valid_in_bounds(r->Ok_0, new_layout);
            }
        }
        handle.release_write(v);
        r
    }
}

} // verus!
