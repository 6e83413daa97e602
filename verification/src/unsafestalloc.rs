//! A wrapper around [`Stalloc`] that adds the `realloc`-style interface in
//! which a single call grows or shrinks an allocation by its byte size.

use vstd::prelude::*;

use crate::chain::AllocChain;
use crate::chain::ChainableAlloc;
use crate::freelist::Stalloc;
use crate::layout::blocks_for;
use crate::layout::AllocError;
use crate::layout::Allocator;
use crate::layout::Layout;
use crate::model::alloc_update;
use crate::model::dealloc_update;
use crate::model::first_fit;
use crate::model::free_total;
use crate::model::front_pad;
use crate::model::grow_ok;
use crate::model::insert_pos;
use crate::model::shrink_update;
use crate::model::split_update;

verus! {

/// A wrapper around [`Stalloc`] meant for use as a process-wide allocator.
/// It exposes the same operations, reached through [`UnsafeStalloc::get`]
/// and [`UnsafeStalloc::get_mut`], and adds [`UnsafeStalloc::realloc`].
pub struct UnsafeStalloc<const L: usize, const B: usize> {
    inner: Stalloc<L, B>,
}

impl<const L: usize, const B: usize> UnsafeStalloc<L, B> {
    /// The wrapped allocator, as a value for contracts.
    pub closed spec fn inner_spec(self) -> Stalloc<L, B> {
        self.inner
    }

    /// The wrapper's invariant: the wrapped allocator's invariant.
    pub closed spec fn wf(self) -> bool {
        self.inner.wf()
    }

    /// The wrapped allocator's free list.
    pub closed spec fn chunks(self) -> Seq<(int, int)> {
        self.inner.chunks()
    }

    /// The address of the wrapped allocator's first block.
    pub closed spec fn region_base(self) -> int {
        self.inner.region_base()
    }

    /// Initializes a new empty instance whose region starts at address `0`.
    pub fn new() -> (r: Self)
        requires
            Stalloc::<L, B>::params_ok(),
        ensures
            r.wf(),
            r.region_base() == 0,
            r.inner_spec().is_empty_spec(),
            r.chunks() =~= seq![(0int, L as int)],
    {
        UnsafeStalloc { inner: Stalloc::new() }
    }

    /// A shared reference to the wrapped allocator.
    pub fn get(&self) -> (r: &Stalloc<L, B>)
        ensures
            *r == self.inner_spec(),
    {
        &self.inner
    }

    /// An exclusive reference to the wrapped allocator.
    pub fn get_mut(&mut self) -> (r: &mut Stalloc<L, B>)
        ensures
            *r == old(self).inner_spec(),
            final(self).inner_spec() == *final(r),
    {
        &mut self.inner
    }

    /// Reallocates to `new_size` bytes at the old alignment: grows when the
    /// new size is larger, shrinks when it is smaller. On failure the old
    /// allocation is untouched.
    pub fn realloc(&mut self, ptr: usize, old_layout: Layout, new_size: usize) -> (r: Result<
        usize,
        AllocError,
    >)
        requires
            old(self).wf(),
            old_layout.wf(),
            1 <= new_size,
            old_layout.size > 0 ==> old(self).inner_spec().valid_alloc(ptr, old_layout),
            ptr as int % old_layout.align as int == 0,
        ensures
            final(self).wf(),
            final(self).region_base() == old(self).region_base(),
            r is Err ==> *final(self) == *old(self),
            r is Ok ==> final(self).inner_spec().valid_alloc(
                r->Ok_0,
                Layout { size: new_size, align: old_layout.align },
            ),
            ({
                let c = old(self).chunks();
                let ob = blocks_for(old_layout.size as int, B as int);
                let nb = blocks_for(new_size as int, B as int);
                let ab = blocks_for(old_layout.align as int, B as int);
                let off = old(self).region_base() / (B as int);
                let idx = (ptr - old(self).region_base()) / (B as int);
                let ff = first_fit(c, nb, ab, off);
                let fresh = old(self).region_base() + (c[ff].0 + front_pad(off + c[ff].0, ab))
                    * B;
                &&& (nb == ob ==> r == Ok::<usize, AllocError>(ptr) && *final(self) == *old(self))
                &&& (new_size >= old_layout.size && nb != ob && ob == 0 ==> {
                    &&& (r is Err <==> ff == -1)
                    &&& (ff != -1 ==> r is Ok && r->Ok_0 as int == fresh && final(self).chunks()
                        == alloc_update(c, ff, nb, ab, off))
                })
                &&& (new_size >= old_layout.size && nb != ob && ob > 0 ==> {
                    &&& (grow_ok(c, idx, ob, nb) ==> r == Ok::<usize, AllocError>(ptr)
                        && final(self).chunks() == split_update(c, insert_pos(c, idx), 0, nb - ob))
                    &&& (!grow_ok(c, idx, ob, nb) ==> {
                        &&& (r is Err <==> ff == -1)
                        &&& (ff != -1 ==> r is Ok && r->Ok_0 as int == fresh
                            && final(self).chunks() == dealloc_update(
                            alloc_update(c, ff, nb, ab, off),
                            idx,
                            ob,
                        ))
                    })
                })
                &&& (new_size < old_layout.size && nb != ob ==> r == Ok::<usize, AllocError>(ptr)
                    && final(self).chunks() == shrink_update(c, idx, ob, nb))
            }),
    {
        proof {
            old(self).inner_spec().lemma_wf_params();
            vstd::arithmetic::div_mod::lemma_div_pos_is_pos(new_size as int - 1, B as int);
            if new_size < old_layout.size {
                vstd::arithmetic::div_mod::lemma_div_is_ordered(
                    new_size as int - 1,
                    old_layout.size as int - 1,
                    B as int,
                );
            }
            if old_layout.size > 0 {
                vstd::arithmetic::div_mod::lemma_div_pos_is_pos(
                    old_layout.size as int - 1,
                    B as int,
                );
            }
        }
        let new_layout = Layout { size: new_size, align: old_layout.align };
        if new_size >= old_layout.size {
            self.inner.grow(ptr, old_layout, new_layout)
        } else {
            self.inner.shrink(ptr, old_layout, new_layout)
        }
    }

    /// The `Allocator`-trait invariant of this type is exactly its
    /// well-formedness, so the trait operations' preconditions can be
    /// discharged from the constructor's postconditions.
    pub proof fn lemma_alloc_wf(&self)
        ensures
            self.alloc_wf() == self.wf(),
    {
        self.inner.lemma_alloc_wf();
    }

    /// Creates a new [`AllocChain`] containing this allocator and `next`.
    pub fn chain<T>(self, next: T) -> (r: AllocChain<Self, T>)
        ensures
            r == AllocChain(self, next),
    {
        AllocChain(self, next)
    }
}

impl<const L: usize, const B: usize> ChainableAlloc for UnsafeStalloc<L, B> {
    /// The wrapper claims exactly the addresses the wrapped allocator does.
    closed spec fn in_bounds_spec(&self, addr: int) -> bool {
        self.inner.in_bounds_spec(addr)
    }

    fn addr_in_bounds(&self, addr: usize) -> (r: bool) {
        self.inner.addr_in_bounds(addr)
    }
}

impl<const L: usize, const B: usize> Allocator for UnsafeStalloc<L, B> {
    closed spec fn alloc_wf(&self) -> bool {
        self.inner.alloc_wf()
    }

    closed spec fn valid_alloc(&self, ptr: usize, layout: Layout) -> bool {
        self.inner.valid_alloc(ptr, layout)
    }

    /// The wrapped allocator's exact `allocate` transition.
    open spec fn allocate_post(pre: Self, post: Self, layout: Layout, r: Result<usize, AllocError>) -> bool {
        Stalloc::allocate_post(pre.inner_spec(), post.inner_spec(), layout, r)
    }

    /// The wrapped allocator's exact `deallocate` transition.
    open spec fn deallocate_post(pre: Self, post: Self, ptr: usize, layout: Layout) -> bool {
        Stalloc::deallocate_post(pre.inner_spec(), post.inner_spec(), ptr, layout)
    }

    /// The wrapped allocator's exact `grow` transition.
    open spec fn grow_post(
        pre: Self,
        post: Self,
        ptr: usize,
        old_layout: Layout,
        new_layout: Layout,
        r: Result<usize, AllocError>,
    ) -> bool {
        Stalloc::grow_post(pre.inner_spec(), post.inner_spec(), ptr, old_layout, new_layout, r)
    }

    /// The wrapped allocator's exact `shrink` transition.
    open spec fn shrink_post(
        pre: Self,
        post: Self,
        ptr: usize,
        old_layout: Layout,
        new_layout: Layout,
        r: Result<usize, AllocError>,
    ) -> bool {
        Stalloc::shrink_post(pre.inner_spec(), post.inner_spec(), ptr, old_layout, new_layout, r)
    }

    /// First-fit allocation of the wrapped allocator, with its exact
    /// contract: fails, changing nothing, exactly when no free chunk can
    /// hold an aligned run of the rounded size.
    fn allocate(&mut self, layout: Layout) -> (r: Result<usize, AllocError>)
        ensures
            final(self).region_base() == old(self).region_base(),
            layout.size == 0 ==> r == Ok::<usize, AllocError>(layout.align),
            layout.size > 0 ==> {
                let c = old(self).chunks();
                let sb = blocks_for(layout.size as int, B as int);
                let ab = blocks_for(layout.align as int, B as int);
                let off = old(self).region_base() / (B as int);
                let ff = first_fit(c, sb, ab, off);
                &&& (r is Err <==> ff == -1)
                &&& (ff != -1 ==> r is Ok && final(self).chunks() == alloc_update(c, ff, sb, ab, off)
                    && r->Ok_0 as int == old(self).region_base() + (c[ff].0 + front_pad(
                    off + c[ff].0,
                    ab,
                )) * B && free_total(final(self).chunks()) == free_total(c) - sb)
            },
    {
        self.inner.allocate(layout)
    }

    /// Coalescing deallocation of the wrapped allocator, with its exact
    /// contract.
    fn deallocate(&mut self, ptr: usize, layout: Layout)
        ensures
            final(self).region_base() == old(self).region_base(),
            layout.size == 0 ==> *final(self) == *old(self),
            layout.size > 0 ==> final(self).chunks() == dealloc_update(
                old(self).chunks(),
                (ptr - old(self).region_base()) / (B as int),
                blocks_for(layout.size as int, B as int),
            ) && free_total(final(self).chunks()) == free_total(old(self).chunks()) + blocks_for(
                layout.size as int,
                B as int,
            ),
    {
        self.inner.deallocate(ptr, layout)
    }

    /// Growth of the wrapped allocator, with its exact contract: in place
    /// when the adjacent chunk has room, else moved to the first fit.
    fn grow(&mut self, ptr: usize, old_layout: Layout, new_layout: Layout) -> (r: Result<
        usize,
        AllocError,
    >)
        ensures
            final(self).region_base() == old(self).region_base(),
            ({
                let c = old(self).chunks();
                let ob = blocks_for(old_layout.size as int, B as int);
                let nb = blocks_for(new_layout.size as int, B as int);
                let ab = blocks_for(new_layout.align as int, B as int);
                let off = old(self).region_base() / (B as int);
                let idx = (ptr - old(self).region_base()) / (B as int);
                let ff = first_fit(c, nb, ab, off);
                let fresh = old(self).region_base() + (c[ff].0 + front_pad(off + c[ff].0, ab))
                    * B;
                &&& (nb == ob ==> r == Ok::<usize, AllocError>(ptr) && *final(self) == *old(self))
                &&& (nb != ob && ob == 0 ==> {
                    &&& (r is Err <==> ff == -1)
                    &&& (ff != -1 ==> r is Ok && r->Ok_0 as int == fresh && final(self).chunks()
                        == alloc_update(c, ff, nb, ab, off))
                })
                &&& (nb != ob && ob > 0 ==> {
                    &&& (grow_ok(c, idx, ob, nb) ==> r == Ok::<usize, AllocError>(ptr)
                        && final(self).chunks() == split_update(c, insert_pos(c, idx), 0, nb - ob))
                    &&& (!grow_ok(c, idx, ob, nb) ==> {
                        &&& (r is Err <==> ff == -1)
                        &&& (ff != -1 ==> r is Ok && r->Ok_0 as int == fresh
                            && final(self).chunks() == dealloc_update(
                            alloc_update(c, ff, nb, ab, off),
                            idx,
                            ob,
                        ))
                    })
                })
            }),
    {
        self.inner.grow(ptr, old_layout, new_layout)
    }

    /// Shrinking of the wrapped allocator, with its exact contract: in place
    /// at the same address unless the address fails the new alignment, in
    /// which case the allocation moves to the first fit.
    fn shrink(&mut self, ptr: usize, old_layout: Layout, new_layout: Layout) -> (r: Result<
        usize,
        AllocError,
    >)
        ensures
            final(self).region_base() == old(self).region_base(),
            ({
                let c = old(self).chunks();
                let ob = blocks_for(old_layout.size as int, B as int);
                let nb = blocks_for(new_layout.size as int, B as int);
                let ab = new_layout.align as int / (B as int);
                let off = old(self).region_base() / (B as int);
                let idx = (ptr - old(self).region_base()) / (B as int);
                let ff = first_fit(c, nb, ab, off);
                let fresh = old(self).region_base() + (c[ff].0 + front_pad(off + c[ff].0, ab))
                    * B;
                &&& (nb == 0 ==> {
                    &&& r == Ok::<usize, AllocError>(new_layout.align)
                    &&& (ob == 0 ==> *final(self) == *old(self))
                    &&& (ob > 0 ==> final(self).chunks() == dealloc_update(c, idx, ob))
                })
                &&& (nb > 0 && ptr as int % new_layout.align as int == 0 ==> r == Ok::<usize, AllocError>(ptr)
                    && (nb == ob ==> *final(self) == *old(self))
                    && (nb < ob ==> final(self).chunks() == shrink_update(c, idx, ob, nb)))
                &&& (nb > 0 && ptr as int % new_layout.align as int != 0 ==> {
                    &&& (r is Err <==> ff == -1)
                    &&& (ff != -1 ==> r is Ok && r->Ok_0 as int == fresh
                        && final(self).chunks() == dealloc_update(
                        alloc_update(c, ff, nb, ab, off),
                        idx,
                        ob,
                    ))
                })
            }),
    {
        self.inner.shrink(ptr, old_layout, new_layout)
    }
}

} // verus!
