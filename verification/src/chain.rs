//! Composition of allocators: the routing trait and the two-member chain.

use vstd::prelude::*;

use crate::layout::AllocError;
use crate::layout::Allocator;
use crate::layout::Layout;

verus! {

/// An allocator that another allocator can be chained to: it can say whether
/// an address lies within its region. The answer is the sole basis on which
/// a chain routes deallocations, so it must hold exactly of the addresses
/// the allocator hands out.
pub trait ChainableAlloc {
    /// The addresses this allocator claims as its own.
    spec fn in_bounds_spec(&self, addr: int) -> bool;

    /// Checks whether `addr` lies within this allocator's region.
    fn addr_in_bounds(&self, addr: usize) -> (r: bool)
        ensures
            r == self.in_bounds_spec(addr as int),
    ;
}

/// A chain of two allocators: requests are served by the first wherever
/// possible and by the second otherwise, and operations on existing
/// allocations are routed to whichever member claims the address.
pub struct AllocChain<A, B>(pub A, pub B);

impl<A, B> AllocChain<A, B> {
    /// Composes `a` and `b` into a chain that tries `a` first.
    pub fn new(a: A, b: B) -> (r: Self)
        ensures
            r == AllocChain(a, b),
    {
        AllocChain(a, b)
    }

    /// Creates a new chain containing this chain and `next`.
    pub fn chain<T>(self, next: T) -> (r: AllocChain<Self, T>)
        ensures
            r == AllocChain(self, next),
    {
        AllocChain(self, next)
    }
}

impl<A: ChainableAlloc, B: ChainableAlloc> ChainableAlloc for AllocChain<A, B> {
    /// A chain claims an address when either member does, so chains nest.
    open spec fn in_bounds_spec(&self, addr: int) -> bool {
        self.0.in_bounds_spec(addr) || self.1.in_bounds_spec(addr)
    }

    fn addr_in_bounds(&self, addr: usize) -> (r: bool) {
        self.0.addr_in_bounds(addr) || self.1.addr_in_bounds(addr)
    }
}

impl<A: Allocator, B: Allocator> Allocator for AllocChain<A, B> {
    /// Both members are well formed and no address is claimed by both: the
    /// members' regions partition the chain's address space.
    open spec fn alloc_wf(&self) -> bool {
        &&& self.0.alloc_wf()
        &&& self.1.alloc_wf()
        &&& forall|a: int| !(self.0.in_bounds_spec(a) && self.1.in_bounds_spec(a))
    }

    /// An allocation is valid for the chain when it is valid for the member
    /// that claims its address; an address claimed by neither can only carry
    /// an allocation of the second member.
    open spec fn valid_alloc(&self, ptr: usize, layout: Layout) -> bool {
        if self.0.in_bounds_spec(ptr as int) {
            self.0.valid_alloc(ptr, layout)
        } else {
            self.1.valid_alloc(ptr, layout)
        }
    }

    /// The routing of one chain allocation: either the first member served
    /// the request and the second is untouched, or the first member's
    /// allocation failed, leaving it in a failed call's state, and the
    /// result is the second member's, whatever it was.
    open spec fn allocate_post(pre: Self, post: Self, layout: Layout, r: Result<usize, AllocError>) -> bool {
        ||| (r is Ok && A::allocate_post(pre.0, post.0, layout, r) && post.1 == pre.1)
        ||| ((exists|f: Result<usize, AllocError>|
            f is Err && #[trigger] A::allocate_post(pre.0, post.0, layout, f))
            && B::allocate_post(pre.1, post.1, layout, r))
    }

    /// The routing of one chain deallocation: the member that claims the
    /// address performed it; the other member is untouched.
    open spec fn deallocate_post(pre: Self, post: Self, ptr: usize, layout: Layout) -> bool {
        if pre.0.in_bounds_spec(ptr as int) {
            A::deallocate_post(pre.0, post.0, ptr, layout) && post.1 == pre.1
        } else {
            B::deallocate_post(pre.1, post.1, ptr, layout) && post.0 == pre.0
        }
    }

    /// The routing of one chain growth. When the first member claims the
    /// address: either it grew the allocation itself with the second member
    /// untouched, or its growth failed (leaving it unchanged), the second
    /// member answered an allocation of the new layout, and on its success
    /// the first member released the old range. When the first member does
    /// not claim the address, the second member grew the allocation and the
    /// first is untouched: an allocation never migrates back.
    open spec fn grow_post(
        pre: Self,
        post: Self,
        ptr: usize,
        old_layout: Layout,
        new_layout: Layout,
        r: Result<usize, AllocError>,
    ) -> bool {
        if pre.0.in_bounds_spec(ptr as int) {
            ||| (r is Ok && A::grow_post(pre.0, post.0, ptr, old_layout, new_layout, r) && post.1
                == pre.1)
            ||| ((exists|f: Result<usize, AllocError>|
                f is Err && #[trigger] A::grow_post(pre.0, pre.0, ptr, old_layout, new_layout, f))
                && B::allocate_post(pre.1, post.1, new_layout, r) && (r is Ok
                ==> A::deallocate_post(pre.0, post.0, ptr, old_layout)) && (r is Err ==> post.0
                == pre.0))
        } else {
            B::grow_post(pre.1, post.1, ptr, old_layout, new_layout, r) && post.0 == pre.0
        }
    }

    /// The routing of one chain shrink, mirroring the growth routing: in
    /// place in the owning member when it accepts, else an allocation of the
    /// new layout from the second member with the old range released from
    /// the first; never moved back to the first member.
    open spec fn shrink_post(
        pre: Self,
        post: Self,
        ptr: usize,
        old_layout: Layout,
        new_layout: Layout,
        r: Result<usize, AllocError>,
    ) -> bool {
        if pre.0.in_bounds_spec(ptr as int) {
            ||| (r is Ok && A::shrink_post(pre.0, post.0, ptr, old_layout, new_layout, r) && post.1
                == pre.1)
            ||| ((exists|f: Result<usize, AllocError>|
                f is Err && #[trigger] A::shrink_post(
                    pre.0,
                    pre.0,
                    ptr,
                    old_layout,
                    new_layout,
                    f,
                )) && B::allocate_post(pre.1, post.1, new_layout, r) && (r is Ok
                ==> A::deallocate_post(pre.0, post.0, ptr, old_layout)) && (r is Err ==> post.0
                == pre.0))
        } else {
            B::shrink_post(pre.1, post.1, ptr, old_layout, new_layout, r) && post.0 == pre.0
        }
    }

    /// Tries the first member; on failure the request falls through to the
    /// second. A zero-size request is served by the first member's dangling
    /// address. A served address is claimed by exactly one member, and the
    /// member that did not serve the request keeps its state.
    fn allocate(&mut self, layout: Layout) -> (r: Result<usize, AllocError>)
        ensures
            r is Ok && layout.size > 0 ==> (old(self).0.in_bounds_spec(r->Ok_0 as int)
                <==> !old(self).1.in_bounds_spec(r->Ok_0 as int)),
            r is Ok && layout.size > 0 && old(self).0.in_bounds_spec(r->Ok_0 as int)
                ==> final(self).1 == old(self).1,
            r is Ok && layout.size > 0 && old(self).1.in_bounds_spec(r->Ok_0 as int)
                ==> final(self).0 == old(self).0,
    {
        let r0 = self.0.allocate(layout);
        match r0 {
            Ok(p) => Ok(p),
            Err(_) => self.1.allocate(layout),
        }
    }

    /// Routes the deallocation to the member that claims the address; the
    /// other member is untouched.
    fn deallocate(&mut self, ptr: usize, layout: Layout)
        ensures
            old(self).0.in_bounds_spec(ptr as int) ==> final(self).1 == old(self).1,
            !old(self).0.in_bounds_spec(ptr as int) ==> final(self).0 == old(self).0,
    {
        if self.0.addr_in_bounds(ptr) {
            self.0.deallocate(ptr, layout);
        } else {
            self.1.deallocate(ptr, layout);
        }
    }

    /// Grows within the owning member if possible. When the first member
    /// owns the allocation but cannot grow it, the chain allocates from the
    /// second member and releases the old range from the first. An
    /// allocation owned by the second member is never moved back: the first
    /// member is not consulted at all.
    fn grow(&mut self, ptr: usize, old_layout: Layout, new_layout: Layout) -> (r: Result<
        usize,
        AllocError,
    >)
        ensures
            !old(self).0.in_bounds_spec(ptr as int) ==> final(self).0 == old(self).0,
            r is Ok && new_layout.size > 0 ==> (old(self).0.in_bounds_spec(r->Ok_0 as int)
                <==> !old(self).1.in_bounds_spec(r->Ok_0 as int)),
            r is Ok && new_layout.size > 0 && old(self).0.in_bounds_spec(ptr as int)
                && old(self).0.in_bounds_spec(r->Ok_0 as int) ==> final(self).1 == old(self).1,
    {
        if self.0.addr_in_bounds(ptr) {
            let r0 = self.0.grow(ptr, old_layout, new_layout);
            match r0 {
                Ok(p) => Ok(p),
                Err(_) => {
                    let rb = self.1.allocate(new_layout);
                    match rb {
                        Ok(p) => {
                            self.0.deallocate(ptr, old_layout);
                            Ok(p)
                        },
                        Err(e) => Err(e),
                    }
                },
            }
        } else {
            self.1.grow(ptr, old_layout, new_layout)
        }
    }

    /// Shrinks within the owning member if possible. When the first member
    /// owns the allocation but rejects the shrink, the chain allocates the
    /// smaller range from the second member and releases the old range from
    /// the first. An allocation owned by the second member stays there: the
    /// first member is not consulted at all.
    fn shrink(&mut self, ptr: usize, old_layout: Layout, new_layout: Layout) -> (r: Result<
        usize,
        AllocError,
    >)
        ensures
            !old(self).0.in_bounds_spec(ptr as int) ==> final(self).0 == old(self).0,
            r is Ok && new_layout.size > 0 ==> (old(self).0.in_bounds_spec(r->Ok_0 as int)
                <==> !old(self).1.in_bounds_spec(r->Ok_0 as int)),
            r is Ok && new_layout.size > 0 && old(self).0.in_bounds_spec(ptr as int)
                && old(self).0.in_bounds_spec(r->Ok_0 as int) ==> final(self).1 == old(self).1,
    {
        if self.0.addr_in_bounds(ptr) {
            let r0 = self.0.shrink(ptr, old_layout, new_layout);
            match r0 {
                Ok(p) => Ok(p),
                Err(_) => {
                    let rb = self.1.allocate(new_layout);
                    match rb {
                        Ok(p) => {
                            self.0.deallocate(ptr, old_layout);
                            Ok(p)
                        },
                        Err(e) => Err(e),
                    }
                },
            }
        } else {
            self.1.shrink(ptr, old_layout, new_layout)
        }
    }
}

/// Any address served by a well-formed chain is claimed by exactly one leaf:
/// the two members' regions are disjoint, so a claim by one excludes a claim
/// by the other.
pub proof fn lemma_chain_partition<A: Allocator, B: Allocator>(c: &AllocChain<A, B>, addr: int)
    requires
        c.alloc_wf(),
        c.in_bounds_spec(addr),
    ensures
        c.0.in_bounds_spec(addr) <==> !c.1.in_bounds_spec(addr),
{
}

} // verus!
