//! The byte-level interface: the layout type, the allocator trait over it,
//! and the error type shared by all fallible operations.

use vstd::prelude::*;

verus! {

/// An error representing an allocation failure due to memory exhaustion.
/// It is the only failure kind the allocator can report.
#[derive(Copy, Clone, PartialEq, Eq, Structural, Debug)]
pub struct AllocError;

/// True when `n` is a power of two.
pub open spec fn is_pow2(n: int) -> bool
    decreases n,
{
    if n <= 0 {
        false
    } else if n == 1 {
        true
    } else {
        n % 2 == 0 && is_pow2(n / 2)
    }
}

/// The number of whole blocks of `b` bytes needed to hold `size` bytes.
pub open spec fn blocks_for(size: int, b: int) -> int {
    if size == 0 {
        0
    } else {
        1 + (size - 1) / b
    }
}

/// The smaller of two powers of two divides the larger, and the quotient is
/// a power of two again.
pub proof fn lemma_pow2_le_divides(a: int, b: int)
    requires
        is_pow2(a),
        is_pow2(b),
        a <= b,
    ensures
        b % a == 0,
        is_pow2(b / a),
    decreases a,
{
    if a == 1 {
        assert(b == b * 1) by (nonlinear_arith);
        vstd::arithmetic::div_mod::lemma_fundamental_div_mod_converse_div(b, 1, b, 0);
        vstd::arithmetic::div_mod::lemma_fundamental_div_mod_converse_mod(b, 1, b, 0);
    } else {
        assert(a % 2 == 0 && is_pow2(a / 2));
        assert(b % 2 == 0 && is_pow2(b / 2)) by {
            if b == 1 {
                assert(a <= 1);
            }
        }
        vstd::arithmetic::div_mod::lemma_div_is_ordered(a, b, 2);
        lemma_pow2_le_divides(a / 2, b / 2);
        let q = (b / 2) / (a / 2);
        vstd::arithmetic::div_mod::lemma_fundamental_div_mod(b / 2, a / 2);
        assert(b == a * q + 0) by (nonlinear_arith)
            requires
                b / 2 == (a / 2) * q + 0,
                b % 2 == 0,
                a % 2 == 0,
                b == 2 * (b / 2) + b % 2,
                a == 2 * (a / 2) + a % 2,
        ;
        assert(a >= 1);
        vstd::arithmetic::div_mod::lemma_fundamental_div_mod_converse_div(b, a, q, 0);
        vstd::arithmetic::div_mod::lemma_fundamental_div_mod_converse_mod(b, a, q, 0);
    }
}

/// A value divisible by `m` is divisible by any divisor of `m`.
pub proof fn lemma_divides_trans(x: int, m: int, a: int)
    requires
        m >= 1,
        a >= 1,
        x % m == 0,
        m % a == 0,
    ensures
        x % a == 0,
{
    let q = x / m;
    let t = m / a;
    vstd::arithmetic::div_mod::lemma_fundamental_div_mod(x, m);
    vstd::arithmetic::div_mod::lemma_fundamental_div_mod(m, a);
    assert(x == (q * t) * a) by (nonlinear_arith)
        requires
            x == m * q + 0,
            m == a * t + 0,
    ;
    vstd::arithmetic::div_mod::lemma_mod_multiples_basic(q * t, a);
}

/// A size and alignment pair, both in bytes, describing an allocation request
/// at the byte level.
#[derive(Copy, Clone, PartialEq, Eq, Structural, Debug)]
pub struct Layout {
    pub size: usize,
    pub align: usize,
}

impl Layout {
    /// A layout is well formed when its alignment is a power of two no larger
    /// than 2^29, the largest alignment the allocator supports.
    pub open spec fn wf(self) -> bool {
        is_pow2(self.align as int) && self.align <= 0x2000_0000
    }

    /// Builds a layout from a size and an alignment.
    pub fn new(size: usize, align: usize) -> (r: Layout)
        requires
            is_pow2(align as int),
            align <= 0x2000_0000,
        ensures
            r == (Layout { size, align }),
            r.wf(),
    {
        Layout { size, align }
    }
}

/// The byte-level allocator interface: allocate, deallocate, grow and shrink
/// by layout. Every operation keeps the allocator well formed and never
/// changes which addresses the allocator claims; a failed operation changes
/// nothing at all. A successful allocation of a non-empty layout returns an
/// address the allocator claims, aligned as requested, and records a valid
/// allocation that the other operations accept.
pub trait Allocator: crate::chain::ChainableAlloc + Sized {
    /// The allocator's invariant.
    spec fn alloc_wf(&self) -> bool;

    /// True when `(ptr, layout)` denotes a live allocation of this
    /// allocator: handing it to `deallocate`, `grow` or `shrink` is allowed.
    spec fn valid_alloc(&self, ptr: usize, layout: Layout) -> bool;

    /// How one `allocate` call relates the state before it, the state after
    /// it, and its result. Each implementation defines this as precisely as
    /// its state allows, and `allocate` ensures it, so an allocator built
    /// from members can state which member a call reached and with what
    /// outcome.
    spec fn allocate_post(pre: Self, post: Self, layout: Layout, r: Result<usize, AllocError>) -> bool;

    /// How one `deallocate` call relates the state before it to the state
    /// after it.
    spec fn deallocate_post(pre: Self, post: Self, ptr: usize, layout: Layout) -> bool;

    /// How one `grow` call relates the state before it, the state after it,
    /// and its result.
    spec fn grow_post(
        pre: Self,
        post: Self,
        ptr: usize,
        old_layout: Layout,
        new_layout: Layout,
        r: Result<usize, AllocError>,
    ) -> bool;

    /// How one `shrink` call relates the state before it, the state after
    /// it, and its result.
    spec fn shrink_post(
        pre: Self,
        post: Self,
        ptr: usize,
        old_layout: Layout,
        new_layout: Layout,
        r: Result<usize, AllocError>,
    ) -> bool;

    /// Allocates memory for `layout`. A zero-size request returns a dangling
    /// address and changes nothing; a failed request changes nothing.
    fn allocate(&mut self, layout: Layout) -> (r: Result<usize, AllocError>)
        requires
            old(self).alloc_wf(),
            layout.wf(),
        ensures
            final(self).alloc_wf(),
            forall|a: int| final(self).in_bounds_spec(a) == old(self).in_bounds_spec(a),
            r is Err ==> *final(self) == *old(self),
            r is Ok ==> r->Ok_0 as int % layout.align as int == 0,
            r is Ok && layout.size == 0 ==> *final(self) == *old(self),
            r is Ok && layout.size > 0 ==> old(self).in_bounds_spec(r->Ok_0 as int)
                && final(self).valid_alloc(r->Ok_0, layout),
            Self::allocate_post(*old(self), *final(self), layout, r),
    ;

    /// Releases the allocation at `ptr`. A zero-size layout is a no-op.
    fn deallocate(&mut self, ptr: usize, layout: Layout)
        requires
            old(self).alloc_wf(),
            layout.wf(),
            layout.size > 0 ==> old(self).valid_alloc(ptr, layout),
        ensures
            final(self).alloc_wf(),
            forall|a: int| final(self).in_bounds_spec(a) == old(self).in_bounds_spec(a),
            Self::deallocate_post(*old(self), *final(self), ptr, layout),
    ;

    /// Grows the allocation at `ptr` from `old_layout` to `new_layout`,
    /// in place when possible and by moving it otherwise. A failed request
    /// changes nothing.
    fn grow(&mut self, ptr: usize, old_layout: Layout, new_layout: Layout) -> (r: Result<
        usize,
        AllocError,
    >)
        requires
            old(self).alloc_wf(),
            old_layout.wf(),
            new_layout.wf(),
            new_layout.size >= old_layout.size,
            old_layout.size > 0 ==> old(self).valid_alloc(ptr, old_layout),
        ensures
            final(self).alloc_wf(),
            forall|a: int| final(self).in_bounds_spec(a) == old(self).in_bounds_spec(a),
            r is Err ==> *final(self) == *old(self),
            r is Ok && new_layout.size > 0 ==> old(self).in_bounds_spec(r->Ok_0 as int)
                && final(self).valid_alloc(r->Ok_0, new_layout),
            Self::grow_post(*old(self), *final(self), ptr, old_layout, new_layout, r),
    ;

    /// Shrinks the allocation at `ptr` from `old_layout` to `new_layout`,
    /// in place unless the address no longer satisfies the new alignment,
    /// in which case the allocation moves. A failed request changes nothing.
    fn shrink(&mut self, ptr: usize, old_layout: Layout, new_layout: Layout) -> (r: Result<
        usize,
        AllocError,
    >)
        requires
            old(self).alloc_wf(),
            old_layout.wf(),
            new_layout.wf(),
            new_layout.size <= old_layout.size,
            old_layout.size > 0 ==> old(self).valid_alloc(ptr, old_layout),
        ensures
            final(self).alloc_wf(),
            forall|a: int| final(self).in_bounds_spec(a) == old(self).in_bounds_spec(a),
            r is Err ==> *final(self) == *old(self),
            r is Ok ==> r->Ok_0 as int % new_layout.align as int == 0,
            r is Ok && new_layout.size > 0 ==> old(self).in_bounds_spec(r->Ok_0 as int)
                && final(self).valid_alloc(r->Ok_0, new_layout),
            Self::shrink_post(*old(self), *final(self), ptr, old_layout, new_layout, r),
    ;
}

} // verus!
