//! The first-fit free-list allocator.
//!
//! A `Stalloc<L, B>` manages a region of `L` blocks of `B` bytes, placed at a
//! caller-chosen base address. Free space is recorded in a chain of headers,
//! one per free chunk, each naming the chunk's length and the block index of
//! the next free chunk (`0` marks the end of the chain). The chain is anchored
//! in a separate base header whose `length` field doubles as the out-of-memory
//! marker. A ghost sequence of the chunk start indices, in chain order, ties
//! the concrete headers to the abstract model in [`crate::model`].

use vstd::prelude::*;

use crate::layout::is_pow2;
use crate::layout::blocks_for;
use crate::layout::lemma_divides_trans;
use crate::layout::lemma_pow2_le_divides;
use crate::layout::Allocator;
use crate::layout::Layout;
use crate::chain::AllocChain;
use crate::chain::ChainableAlloc;
use crate::model::lemma_dealloc_update_disjoint_mono;
use crate::model::lemma_first_fit_fits;
use crate::model::lemma_first_fit_range;
use crate::model::lemma_range_disjoint_join;
use crate::model::lemma_range_disjoint_sub;
use crate::model::lemma_split_update_disjoint_mono;
use crate::layout::AllocError;
use crate::model::alloc_update;
use crate::model::chunk_fits;
use crate::model::chunk_in_bounds;
use crate::model::chunks_wf;
use crate::model::dealloc_update;
use crate::model::first_fit;
use crate::model::free_total;
use crate::model::front_pad;
use crate::model::grow_ok;
use crate::model::shrink_update;
use crate::model::insert_pos;
use crate::model::lemma_alloc_aligned;
use crate::model::lemma_chunks_ordered;
use crate::model::lemma_chunks_ordered_all;
use crate::model::lemma_dealloc_update_total;
use crate::model::lemma_first_fit_step;
use crate::model::lemma_insert_pos_is;
use crate::model::lemma_insert_pos_props;
use crate::model::lemma_pad_aligns;
use crate::model::lemma_split_update_props;
use crate::model::range_disjoint;
use crate::model::split_update;

verus! {

/// A free-chunk header: the block index of the next free chunk (`0` means
/// end of chain) and the length of this chunk in blocks.
#[derive(Clone, Copy)]
pub(crate) struct Header {
    pub next: u16,
    pub length: u16,
}

/// The value of the base header's `length` field that marks a completely full
/// allocator. The base header's length is unused otherwise (always `0`), so
/// the flag costs nothing.
pub(crate) const OOM_MARKER: u16 = 0xffff;

/// A fast first-fit block allocator with a fixed region of `L` blocks of `B`
/// bytes each.
///
/// `L` must lie in `1..=0xffff` and `B` must be a power of two in
/// `4..=2^29`. Addresses handed out are plain `usize` values within
/// `[base, base + L * B)` for the base address the allocator was created at.
pub struct Stalloc<const L: usize, const B: usize> {
    base: Header,
    headers: Vec<Header>,
    base_addr: usize,
    starts: Ghost<Seq<int>>,
}

impl<const L: usize, const B: usize> Stalloc<L, B> {
    /// The constraints on the compile-time parameters: a block count that fits
    /// a 16-bit index, a block size that is a power of two large enough to
    /// hold a header, and a region that fits the address space.
    pub open spec fn params_ok() -> bool {
        &&& 1 <= L <= 0xffff
        &&& 4 <= B <= 0x2000_0000
        &&& is_pow2(B as int)
        &&& L * B <= usize::MAX
    }

    /// The address of the first block.
    pub closed spec fn region_base(self) -> int {
        self.base_addr as int
    }

    /// The region base divided by the block size: the offset, in blocks, of
    /// the region within the address space. Alignment padding depends on it.
    pub open spec fn off(self) -> int {
        self.region_base() / (B as int)
    }

    /// True when the allocator has no free blocks at all.
    pub closed spec fn is_oom_spec(self) -> bool {
        self.base.length == OOM_MARKER
    }

    /// True when the whole region is one free chunk starting at block `0`.
    pub closed spec fn is_empty_spec(self) -> bool {
        !self.is_oom_spec() && self.base.next == 0
    }

    /// The abstract free list: the sequence of `(start, length)` pairs of the
    /// free chunks, in chain order.
    pub closed spec fn chunks(self) -> Seq<(int, int)> {
        self.starts@.map(|k: int, i: int| (i, self.headers@[i].length as int))
    }

    /// Chain position `k` is consistent with the headers: the chunk start is
    /// a valid block index, the chunk fits in the region, and its header
    /// links to the start recorded at position `k + 1` (or ends the chain).
    closed spec fn link_ok(self, k: int) -> bool {
        let i = self.starts@[k];
        let h = self.headers@[i];
        &&& 0 <= i < L
        &&& 1 <= h.length as int
        &&& i + h.length as int <= L
        &&& (k == self.starts@.len() - 1 ==> h.next == 0)
        &&& (k < self.starts@.len() - 1 ==> h.next as int == self.starts@[k + 1]
            && self.starts@[k + 1] > i + h.length as int)
    }

    /// The allocator's invariant, established by the constructors and
    /// maintained by every operation.
    pub closed spec fn wf(self) -> bool {
        &&& Self::params_ok()
        &&& self.headers@.len() == L
        &&& self.base_addr as int % (B as int) == 0
        &&& self.base_addr + L * B <= usize::MAX
        &&& (self.base.length == OOM_MARKER || self.base.length == 0)
        &&& (self.is_oom_spec() ==> self.base.next == 0 && self.starts@.len() == 0)
        &&& (!self.is_oom_spec() ==> {
            &&& self.starts@.len() >= 1
            &&& self.base.next as int == self.starts@[0]
            &&& forall|k: int| 0 <= k < self.starts@.len() ==> self.link_ok(k)
        })
    }

    /// The `Allocator`-trait invariant of this type is exactly its
    /// well-formedness, so the trait operations' preconditions can be
    /// discharged from the constructors' postconditions.
    pub proof fn lemma_alloc_wf(&self)
        ensures
            self.alloc_wf() == self.wf(),
    {
    }

    /// A well-formed allocator has valid compile-time parameters and a
    /// block-aligned, in-range region base. Callers discharge the
    /// operations' arithmetic preconditions from these facts.
    pub proof fn lemma_wf_params(self)
        requires
            self.wf(),
        ensures
            Self::params_ok(),
            0 <= self.region_base(),
            self.region_base() % (B as int) == 0,
            0 <= self.off(),
            self.region_base() + L * B <= usize::MAX,
    {
        vstd::arithmetic::div_mod::lemma_div_pos_is_pos(self.region_base(), B as int);
    }

    /// The free list of a well-formed allocator satisfies the abstract
    /// well-formedness: chunk starts are strictly increasing, no two chunks
    /// touch, and every chunk lies inside the region. The allocator is out of
    /// memory exactly when the free list is empty.
    pub proof fn lemma_wf_chunks(self)
        requires
            self.wf(),
        ensures
            chunks_wf(self.chunks(), L as int),
            self.chunks().len() == 0 <==> self.is_oom_spec(),
    {
        let c = self.chunks();
        let l = L as int;
        if !self.is_oom_spec() {
            assert forall|k: int| 0 <= k < c.len() implies chunk_in_bounds(c, l, k) by {
                assert(self.link_ok(k));
            }
            assert forall|k: int| 0 <= k < c.len() - 1 implies #[trigger] c[k].0 + c[k].1 < c[k
                + 1].0 by {
                assert(self.link_ok(k));
            }
        }
    }

    /// Initializes a new empty allocator whose region starts at address `0`.
    pub fn new() -> (r: Self)
        requires
            Self::params_ok(),
        ensures
            r.wf(),
            r.region_base() == 0,
            r.is_empty_spec(),
            r.chunks() =~= seq![(0int, L as int)],
    {
        Self::new_at(0)
    }

    /// Initializes a new empty allocator whose region starts at `base_addr`.
    /// The base address must be block-aligned, and the region must fit below
    /// the end of the address space.
    pub fn new_at(base_addr: usize) -> (r: Self)
        requires
            Self::params_ok(),
            base_addr as int % (B as int) == 0,
            base_addr + L * B <= usize::MAX,
        ensures
            r.wf(),
            r.region_base() == base_addr,
            r.is_empty_spec(),
            r.chunks() =~= seq![(0int, L as int)],
    {
        let mut headers: Vec<Header> = Vec::new();
        let mut i: usize = 0;
        while i < L
            invariant
                i <= L,
                headers@.len() == i,
            decreases L - i,
        {
            headers.push(Header { next: 0, length: 0 });
            i = i + 1;
        }
        let first = Header { next: 0, length: L as u16 };
        headers[0] = first;
        let ghost s = seq![0int];
        let r = Stalloc {
            base: Header { next: 0, length: 0 },
            headers,
            base_addr,
            starts: Ghost(s),
        };
        assert(r.link_ok(0));
        r
    }

    /// Checks if the allocator is completely out of memory. If this returns
    /// false, a single block can still be allocated. Runs in O(1).
    pub fn is_oom(&self) -> (r: bool)
        requires
            self.wf(),
        ensures
            r == self.is_oom_spec(),
            r == (self.chunks().len() == 0),
    {
        self.base.length == OOM_MARKER
    }

    /// Checks if the allocator is empty, that is, whether its free list is
    /// anchored at block `0`. Runs in O(1).
    pub fn is_empty(&self) -> (r: bool)
        requires
            self.wf(),
        ensures
            r == self.is_empty_spec(),
            r == (self.chunks().len() > 0 && self.chunks()[0].0 == 0),
    {
        !self.is_oom() && self.base.next == 0
    }

    /// Restores the allocator to the empty state, abandoning every
    /// outstanding allocation. The caller must not return previously
    /// allocated ranges afterwards; they no longer denote allocations.
    pub fn clear(&mut self)
        requires
            old(self).wf(),
        ensures
            final(self).wf(),
            final(self).region_base() == old(self).region_base(),
            final(self).is_empty_spec(),
            final(self).chunks() =~= seq![(0int, L as int)],
            free_total(final(self).chunks()) == L as int,
    {
        self.base = Header { next: 0, length: 0 };
        let first = Header { next: 0, length: L as u16 };
        self.headers[0] = first;
        let ghost s = seq![0int];
        self.starts = Ghost(s);
        proof {
            assert(self.link_ok(0));
            let full = seq![(0int, L as int)];
            assert(free_total(full) == full[0].1 + free_total(full.drop_first()));
            assert(free_total(full.drop_first()) == 0);
        }
    }

    /// Carves a run of `size` blocks out of the free chunk at chain position
    /// `k`, which starts at block `curr_idx`, leaving the first `pad` blocks
    /// of the chunk free. `prev_is_base` says whether the chunk is the head
    /// of the chain; otherwise `prev_idx` is the start of the chunk before
    /// it. Rewrites the chain in place, in one of four shapes depending on
    /// whether blocks stay free in front of and behind the run.
    #[verifier::rlimit(100)]
    fn carve(
        &mut self,
        prev_is_base: bool,
        prev_idx: usize,
        curr_idx: usize,
        pad: usize,
        size: usize,
        Ghost(k): Ghost<int>,
    )
        requires
            old(self).wf(),
            !old(self).is_oom_spec(),
            0 <= k < old(self).chunks().len(),
            curr_idx as int == old(self).chunks()[k].0,
            k == 0 ==> prev_is_base,
            k > 0 ==> !prev_is_base && prev_idx as int == old(self).chunks()[k - 1].0,
            1 <= size,
            pad + size <= old(self).chunks()[k].1,
        ensures
            final(self).wf(),
            final(self).region_base() == old(self).region_base(),
            final(self).chunks() == split_update(old(self).chunks(), k, pad as int, size as int),
    {
        proof {
            old(self).lemma_wf_chunks();
        }
        let ghost c = self.chunks();
        let ghost l = L as int;
        let ghost starts0 = self.starts@;
        let ghost nc = split_update(c, k, pad as int, size as int);
        proof {
            assert(self.link_ok(k));
            if k > 0 {
                assert(self.link_ok(k - 1));
            }
            // where each surviving chunk start lies relative to the indices
            // the surgery writes
            assert forall|j: int| 0 <= j < starts0.len() && j != k implies (if j < k {
                starts0[j] + c[j].1 < curr_idx as int
            } else {
                starts0[j] > curr_idx as int + c[k].1
            }) by {
                if j < k {
                    lemma_chunks_ordered(c, l, j, k);
                } else {
                    lemma_chunks_ordered(c, l, k, j);
                }
            }
        }
        let curr = self.headers[curr_idx];
        let curr_len = curr.length as usize;
        let next_idx = curr.next as usize;
        let spare_back = curr_len - pad - size;
        let spare_back_idx = curr_idx + pad + size;

        if spare_back > 0 {
            let h_back = Header { next: curr.next, length: spare_back as u16 };
            self.headers[spare_back_idx] = h_back;
            if pad > 0 {
                let h_front = Header { next: spare_back_idx as u16, length: pad as u16 };
                self.headers[curr_idx] = h_front;
                let ghost s2 = starts0.insert(k + 1, spare_back_idx as int);
                self.starts = Ghost(s2);
                proof {
                    starts0.insert_ensures(k + 1, spare_back_idx as int);
                    assert forall|j: int| 0 <= j < s2.len() implies self.link_ok(j) by {
                        assert(old(self).link_ok(k));
                        if j < k {
                            assert(old(self).link_ok(j));
                        } else if j > k + 1 {
                            assert(old(self).link_ok(j - 1));
                        }
                    }
                    assert(self.chunks().len() == nc.len());
                    assert forall|j: int| 0 <= j < nc.len() implies self.chunks()[j] == nc[j] by {
                        assert(old(self).link_ok(k));
                        if j < k {
                            assert(old(self).link_ok(j));
                            assert(nc[j] == c.take(k)[j]);
                            assert(s2[j] == starts0[j]);
                            lemma_chunks_ordered(c, l, j, k);
                        } else if j == k {
                            assert(s2[j] == starts0[k]);
                        } else if j == k + 1 {
                            assert(s2[j] == spare_back_idx as int);
                            assert(nc[j] == (c[k].0 + pad + size, c[k].1 - pad - size));
                        } else {
                            assert(old(self).link_ok(j - 1));
                            assert(nc[j] == c.skip(k + 1)[j - k - 2]);
                            assert(starts0.insert(k + 1, spare_back_idx as int)[(j - 1) + 1]
                                == starts0[j - 1]);
                            assert(s2[j] == starts0[j - 1]);
                            lemma_chunks_ordered(c, l, k, j - 1);
                        }
                    }
                    assert(self.chunks() =~= nc);
                }
            } else {
                if prev_is_base {
                    self.base.next = spare_back_idx as u16;
                } else {
                    let ph = self.headers[prev_idx];
                    self.headers[prev_idx] = Header {
                        next: spare_back_idx as u16,
                        length: ph.length,
                    };
                }
                let ghost s2 = starts0.update(k, spare_back_idx as int);
                self.starts = Ghost(s2);
                proof {
                    assert forall|j: int| 0 <= j < s2.len() implies self.link_ok(j) by {
                        assert(old(self).link_ok(k));
                        if j != k {
                            assert(old(self).link_ok(j));
                        }
                    }
                    assert(self.chunks().len() == nc.len());
                    assert forall|j: int| 0 <= j < nc.len() implies self.chunks()[j] == nc[j] by {
                        assert(old(self).link_ok(k));
                        if j < k {
                            assert(old(self).link_ok(j));
                            assert(nc[j] == c.take(k)[j]);
                            assert(s2[j] == starts0[j]);
                            lemma_chunks_ordered(c, l, j, k);
                            if j < k - 1 {
                                lemma_chunks_ordered(c, l, j, k - 1);
                            }
                        } else if j == k {
                            if k > 0 {
                                lemma_chunks_ordered(c, l, k - 1, k);
                            }
                            assert(nc[j] == (c[k].0 + pad + size, c[k].1 - pad - size));
                        } else {
                            assert(old(self).link_ok(j));
                            assert(nc[j] == c.skip(k + 1)[j - k - 1]);
                            assert(s2[j] == starts0[j]);
                            lemma_chunks_ordered(c, l, k, j);
                            if k > 0 {
                                lemma_chunks_ordered(c, l, k - 1, j);
                            }
                        }
                    }
                    assert(self.chunks() =~= nc);
                }
            }
        } else if pad > 0 {
            let h_front = Header { next: curr.next, length: pad as u16 };
            self.headers[curr_idx] = h_front;
            proof {
                assert forall|j: int| 0 <= j < starts0.len() implies self.link_ok(j) by {
                    assert(old(self).link_ok(k));
                    if j != k {
                        assert(old(self).link_ok(j));
                    }
                }
                assert(self.chunks().len() == nc.len());
                assert forall|j: int| 0 <= j < nc.len() implies self.chunks()[j] == nc[j] by {
                    assert(old(self).link_ok(k));
                    if j < k {
                        assert(old(self).link_ok(j));
                        assert(nc[j] == c.take(k)[j]);
                        lemma_chunks_ordered(c, l, j, k);
                    } else if j > k {
                        assert(old(self).link_ok(j));
                        assert(nc[j] == c.skip(k + 1)[j - k - 1]);
                        lemma_chunks_ordered(c, l, k, j);
                    }
                }
                assert(self.chunks() =~= nc);
            }
        } else {
            if prev_is_base {
                self.base.next = curr.next;
                if next_idx == 0 {
                    self.base.length = OOM_MARKER;
                }
            } else {
                let ph = self.headers[prev_idx];
                self.headers[prev_idx] = Header { next: curr.next, length: ph.length };
            }
            let ghost s2 = starts0.remove(k);
            self.starts = Ghost(s2);
            proof {
                starts0.remove_ensures(k);
                assert(old(self).link_ok(k));
                if self.base.length == OOM_MARKER {
                    assert(s2.len() == 0);
                } else {
                    assert forall|j: int| 0 <= j < s2.len() implies self.link_ok(j) by {
                        assert(old(self).link_ok(k));
                        let jj = if j < k {
                            j
                        } else {
                            j + 1
                        };
                        assert(old(self).link_ok(jj));
                        if j == k - 1 && k < starts0.len() - 1 {
                            assert(old(self).link_ok(k + 1));
                        }
                    }
                }
                assert(self.chunks().len() == nc.len());
                assert forall|j: int| 0 <= j < nc.len() implies self.chunks()[j] == nc[j] by {
                    assert(old(self).link_ok(k));
                    if j < k {
                        assert(old(self).link_ok(j));
                        assert(nc[j] == c.take(k)[j]);
                        assert(s2[j] == starts0[j]);
                        lemma_chunks_ordered(c, l, j, k);
                        if j < k - 1 {
                            lemma_chunks_ordered(c, l, j, k - 1);
                        }
                    } else {
                        assert(old(self).link_ok(j + 1));
                        assert(nc[j] == c.skip(k + 1)[j - k]);
                        assert(s2[j] == starts0[j + 1]);
                        lemma_chunks_ordered(c, l, k, j + 1);
                        if k > 0 {
                            lemma_chunks_ordered(c, l, k - 1, j + 1);
                        }
                    }
                }
                assert(self.chunks() =~= nc);
            }
        }
    }

    /// Tries to allocate a run of `size` blocks at an address aligned to
    /// `align` blocks. The free list is searched front to back, and the first
    /// chunk that can hold an aligned run serves the request, splitting in up
    /// to three pieces: the blocks skipped for alignment stay free in front,
    /// and the blocks left over stay free behind. Fails, changing nothing,
    /// exactly when no chunk can hold such a run.
    #[verifier::rlimit(100)]
    pub fn allocate_blocks(&mut self, size: usize, align: usize) -> (r: Result<usize, AllocError>)
        requires
            old(self).wf(),
            1 <= size,
            is_pow2(align as int),
            align as int * B as int <= 0x2000_0000,
        ensures
            final(self).wf(),
            final(self).region_base() == old(self).region_base(),
            r is Err <==> first_fit(
                old(self).chunks(),
                size as int,
                align as int,
                old(self).off(),
            ) == -1,
            r is Err ==> *final(self) == *old(self),
            ({
                let c = old(self).chunks();
                let off = old(self).off();
                let ff = first_fit(c, size as int, align as int, off);
                ff != -1 ==> {
                    let pad = front_pad(off + c[ff].0, align as int);
                    let idx = c[ff].0 + pad;
                    &&& r is Ok
                    &&& r->Ok_0 as int == old(self).region_base() + idx * (B as int)
                    &&& 0 <= idx && idx + size <= L as int
                    &&& final(self).chunks() == alloc_update(c, ff, size as int, align as int, off)
                    &&& range_disjoint(final(self).chunks(), idx, size as int)
                    &&& free_total(final(self).chunks()) == free_total(c) - size
                }
            }),
            r is Ok ==> r->Ok_0 as int % (B as int) == 0,
            r is Ok ==> r->Ok_0 as int % (align as int * B as int) == 0,
            r is Ok ==> old(self).region_base() <= r->Ok_0 as int && r->Ok_0 as int + size * B
                <= old(self).region_base() + L * B,
    {
        proof {
            old(self).lemma_wf_chunks();
        }
        if self.is_oom() {
            return Err(AllocError);
        }
        let ghost c = self.chunks();
        let ghost off = self.off();
        let ghost l = L as int;
        let ghost ba = self.base_addr as int;
        let base_div = self.base_addr / B;
        proof {
            vstd::arithmetic::div_mod::lemma_fundamental_div_mod(ba, B as int);
            vstd::arithmetic::div_mod::lemma_mod_division_less_than_divisor(ba, B as int);
            assert(ba / (B as int) + l <= usize::MAX as int) by (nonlinear_arith)
                requires
                    ba == (B as int) * (ba / (B as int)) + ba % (B as int),
                    0 <= ba % (B as int),
                    0 <= ba,
                    1 <= B as int,
                    1 <= l,
                    ba + l * (B as int) <= usize::MAX as int,
            ;
            assert(align as int >= 1);
        }

        let mut prev_idx: usize = 0;
        let mut prev_is_base: bool = true;
        let mut curr_idx: usize = self.base.next as usize;
        let ghost mut k: int = 0;

        loop
            invariant
                self.wf(),
                *self == *old(self),
                !self.is_oom_spec(),
                c == self.chunks(),
                off == self.off(),
                l == L as int,
                ba == self.base_addr as int,
                base_div as int == off,
                base_div as int + l <= usize::MAX as int,
                chunks_wf(c, l),
                1 <= size,
                is_pow2(align as int),
                align as int >= 1,
                0 <= k < c.len(),
                curr_idx as int == c[k].0,
                k == 0 ==> prev_is_base,
                k > 0 ==> !prev_is_base && prev_idx as int == c[k - 1].0,
                forall|j: int| 0 <= j < k ==> !chunk_fits(c, j, size as int, align as int, off),
            decreases c.len() - k,
        {
            proof {
                assert(self.link_ok(k));
            }
            let curr = self.headers[curr_idx];
            let curr_len = curr.length as usize;
            let next_idx = curr.next as usize;

            let pos = base_div + curr_idx;
            let rem = pos % align;
            let pad = if rem == 0 { 0 } else { align - rem };
            proof {
                assert(pad as int == front_pad(off + c[k].0, align as int));
            }

            if pad <= curr_len && size <= curr_len - pad {
                proof {
                    assert(chunk_fits(c, k, size as int, align as int, off));
                    lemma_first_fit_step(c, size as int, align as int, off, 0, k);
                    lemma_split_update_props(c, l, k, pad as int, size as int);
                }
                let run_idx = curr_idx + pad;
                self.carve(prev_is_base, prev_idx, curr_idx, pad, size, Ghost(k));
                proof {
                    assert((run_idx as int + size as int) * (B as int) <= l * (B as int))
                        by (nonlinear_arith)
                        requires
                            run_idx as int + size as int <= l,
                            0 <= run_idx as int,
                            1 <= B as int,
                    ;
                    assert(run_idx as int * (B as int) + size as int * (B as int) == (run_idx as int
                        + size as int) * (B as int)) by (nonlinear_arith);
                    lemma_pad_aligns(off + c[k].0, align as int);
                    assert((ba / (B as int) + run_idx as int) % (align as int) == 0);
                    lemma_alloc_aligned(ba, run_idx as int, align as int, B as int);
                }
                let addr = self.base_addr + run_idx * B;
                return Ok(addr);
            }

            proof {
                assert(!chunk_fits(c, k, size as int, align as int, off));
            }
            if next_idx == 0 {
                proof {
                    assert(k == c.len() - 1) by {
                        if k < c.len() - 1 {
                            assert(self.link_ok(k));
                            assert(self.link_ok(k + 1));
                        }
                    }
                    lemma_first_fit_step(c, size as int, align as int, off, 0, c.len() as int);
                }
                return Err(AllocError);
            }
            prev_is_base = false;
            prev_idx = curr_idx;
            curr_idx = next_idx;
            proof {
                k = k + 1;
            }
        }
    }

    /// Finds the chain link whose `next` field must change to splice a chunk
    /// starting at block `idx` into the chain: the last chunk that starts
    /// before `idx`, or the base header when no chunk does. Returns
    /// `(true, 0)` for the base header, else `(false, start)` of that chunk.
    fn header_before(&self, idx: usize) -> (r: (bool, usize))
        requires
            self.wf(),
        ensures
            ({
                let p = insert_pos(self.chunks(), idx as int);
                &&& 0 <= p <= self.chunks().len()
                &&& (p == 0 ==> r.0)
                &&& (p > 0 ==> !r.0 && r.1 as int == self.chunks()[p - 1].0 && r.1 < L)
            }),
    {
        proof {
            self.lemma_wf_chunks();
            lemma_insert_pos_props(self.chunks(), L as int, idx as int);
        }
        let ghost c = self.chunks();
        let ghost l = L as int;
        if self.base.length == OOM_MARKER || self.base.next as usize >= idx {
            proof {
                if !self.is_oom_spec() {
                    assert(self.link_ok(0));
                    lemma_insert_pos_is(c, l, idx as int, 0);
                } else {
                    assert(c.len() == 0);
                }
            }
            return (true, 0);
        }
        let mut curr = self.base.next as usize;
        let ghost mut p: int = 0;
        loop
            invariant
                self.wf(),
                !self.is_oom_spec(),
                c == self.chunks(),
                l == L as int,
                chunks_wf(c, l),
                0 <= p < c.len(),
                curr as int == c[p].0,
                forall|j: int| 0 <= j <= p ==> #[trigger] c[j].0 < idx as int,
            decreases c.len() - p,
        {
            proof {
                assert(self.link_ok(p));
            }
            let h = self.headers[curr];
            let nxt = h.next as usize;
            if nxt == 0 || nxt >= idx {
                proof {
                    if nxt == 0 {
                        assert(p == c.len() - 1) by {
                            if p < c.len() - 1 {
                                assert(self.link_ok(p));
                                assert(self.link_ok(p + 1));
                            }
                        }
                    }
                    assert forall|j: int| 0 <= j < p + 1 implies #[trigger] c[j].0 < idx as int by {}
                    lemma_insert_pos_is(c, l, idx as int, p + 1);
                }
                return (false, curr);
            }
            curr = nxt;
            proof {
                assert(self.link_ok(p + 1));
                p = p + 1;
            }
        }
    }

    /// Returns the run of `size` blocks at address `ptr` to the free list.
    /// The range becomes a free chunk at its sorted place in the chain,
    /// coalesced with the chunk before it and the chunk after it wherever
    /// those are directly adjacent. Infallible, and always leaves at least
    /// one free chunk.
    pub fn deallocate_blocks(&mut self, ptr: usize, size: usize)
        requires
            old(self).wf(),
            1 <= size,
            old(self).region_base() <= ptr,
            (ptr - old(self).region_base()) % (B as int) == 0,
            (ptr - old(self).region_base()) / (B as int) + size <= L,
            range_disjoint(
                old(self).chunks(),
                (ptr - old(self).region_base()) / (B as int),
                size as int,
            ),
        ensures
            final(self).wf(),
            final(self).region_base() == old(self).region_base(),
            !final(self).is_oom_spec(),
            final(self).chunks() == dealloc_update(
                old(self).chunks(),
                (ptr - old(self).region_base()) / (B as int),
                size as int,
            ),
            free_total(final(self).chunks()) == free_total(old(self).chunks()) + size,
    {
        proof {
            old(self).lemma_wf_chunks();
        }
        let ghost c = self.chunks();
        let ghost l = L as int;
        let idx = (ptr - self.base_addr) / B;
        proof {
            vstd::arithmetic::div_mod::lemma_fundamental_div_mod(
                ptr as int - self.base_addr as int,
                B as int,
            );
            assert(idx as int == (ptr - old(self).region_base()) / (B as int));
            lemma_insert_pos_props(c, l, idx as int);
            lemma_dealloc_update_total(c, l, idx as int, size as int);
        }
        let (before_is_base, before_idx) = self.header_before(idx);
        if before_is_base {
            self.splice_head(idx, size);
        } else {
            self.splice_after(before_idx, idx, size);
        }
    }

    /// The state change of [`Self::splice_head`] when the first chunk
    /// begins exactly where the freed range ends: re-anchoring the chain at
    /// the freed range, absorbed into that chunk, leaves it well formed.
    #[verifier::rlimit(100)]
    #[verifier::spinoff_prover]
    proof fn lemma_head_merge_shape(s0: Self, s1: Self, idx: usize, size: usize)
        requires
            s0.wf(),
            1 <= size,
            idx + size <= L,
            range_disjoint(s0.chunks(), idx as int, size as int),
            ({
                let c = s0.chunks();
                &&& c.len() > 0
                &&& c[0].0 == idx + size
                &&& s1.base_addr == s0.base_addr
                &&& s1.base == (Header { next: idx as u16, length: 0 })
                &&& s1.starts@ == s0.starts@.update(0, idx as int)
                &&& s1.headers@ =~= s0.headers@.update(
                    idx as int,
                    Header {
                        next: s0.headers@[c[0].0].next,
                        length: (size + s0.headers@[c[0].0].length) as u16,
                    },
                )
            }),
        ensures
            s1.wf(),
            s1.region_base() == s0.region_base(),
            !s1.is_oom_spec(),
            s1.chunks() == dealloc_update(s0.chunks(), idx as int, size as int),
    {
        let c = s0.chunks();
        let l = L as int;
        let starts0 = s0.starts@;
        let s2 = s1.starts@;
        let nc = dealloc_update(c, idx as int, size as int);
        let target = seq![(idx as int, size + c[0].1)] + c.skip(1);
        s0.lemma_wf_chunks();
        lemma_insert_pos_props(c, l, idx as int);
        assert(insert_pos(c, idx as int) == 0);
        assert forall|j: int| 0 <= j < c.len() implies #[trigger] c[j].0 != idx as int by {
            assert(chunk_in_bounds(c, l, j));
        }
        assert(c[0].0 == starts0[0]);
        assert(s0.link_ok(0));
        lemma_chunks_ordered_all(c, l, 0);
        assert(nc == target) by {
            assert(c.take(0).len() == 0);
            assert(nc =~= target);
        }
        assert forall|j: int| 0 <= j < s2.len() implies s1.link_ok(j) by {
            if j > 0 {
                assert(s2[j] == starts0[j]);
                assert(c[j].0 == starts0[j]);
                assert(s0.link_ok(j));
                assert(c[0].0 + c[0].1 < c[j].0 || j == 0);
            }
            if j == 1 {
                assert(s0.link_ok(0));
            }
        }
        assert(s1.chunks().len() == target.len());
        assert forall|j: int| 0 <= j < target.len() implies s1.chunks()[j] == target[j] by {
            if j > 0 {
                assert(s2[j] == starts0[j]);
                assert(c[j].0 == starts0[j]);
                assert(s0.link_ok(j));
                assert(c[0].0 + c[0].1 < c[j].0 || j == 0);
                assert(target[j] == c.skip(1)[j - 1]);
            }
        }
        assert(s1.chunks() =~= target);
    }

    /// The state change of [`Self::splice_head`] when no chunk is adjacent
    /// behind the freed range: re-anchoring the chain at the freed range as
    /// a chunk of its own leaves it well formed.
    #[verifier::rlimit(100)]
    #[verifier::spinoff_prover]
    proof fn lemma_head_insert_shape(s0: Self, s1: Self, idx: usize, size: usize)
        requires
            s0.wf(),
            1 <= size,
            idx + size <= L,
            range_disjoint(s0.chunks(), idx as int, size as int),
            insert_pos(s0.chunks(), idx as int) == 0,
            ({
                let c = s0.chunks();
                &&& c.len() == 0 || c[0].0 != idx + size
                &&& s1.base_addr == s0.base_addr
                &&& s1.base == (Header { next: idx as u16, length: 0 })
                &&& s1.starts@ == seq![idx as int] + s0.starts@
                &&& s1.headers@ =~= s0.headers@.update(
                    idx as int,
                    Header { next: s0.base.next, length: size as u16 },
                )
            }),
        ensures
            s1.wf(),
            s1.region_base() == s0.region_base(),
            !s1.is_oom_spec(),
            s1.chunks() == dealloc_update(s0.chunks(), idx as int, size as int),
    {
        let c = s0.chunks();
        let l = L as int;
        let starts0 = s0.starts@;
        let s2 = s1.starts@;
        let nc = dealloc_update(c, idx as int, size as int);
        let target = seq![(idx as int, size as int)] + c;
        s0.lemma_wf_chunks();
        lemma_insert_pos_props(c, l, idx as int);
        assert forall|j: int| 0 <= j < c.len() implies #[trigger] c[j].0 != idx as int by {
            assert(chunk_in_bounds(c, l, j));
        }
        if c.len() > 0 {
            assert(c[0].0 == starts0[0]);
            assert(s0.link_ok(0));
        }
        assert(nc == target) by {
            assert(c.take(0).len() == 0);
            assert(nc =~= target);
        }
        assert forall|j: int| 0 <= j < s2.len() implies s1.link_ok(j) by {
            if j > 0 {
                assert(s2[j] == starts0[j - 1]);
                assert(c[j - 1].0 == starts0[j - 1]);
                assert(s0.link_ok(j - 1));
                if j < s2.len() - 1 {
                    assert(s2[j + 1] == starts0[j]);
                }
            } else if c.len() > 0 {
                assert(chunk_in_bounds(c, l, 0));
                assert(c[0].0 == starts0[0]);
                assert(idx as int + size as int <= c[0].0);
            }
        }
        assert(s1.chunks().len() == target.len());
        assert forall|j: int| 0 <= j < target.len() implies s1.chunks()[j] == target[j] by {
            if j > 0 {
                assert(s2[j] == starts0[j - 1]);
                assert(c[j - 1].0 == starts0[j - 1]);
                assert(s0.link_ok(j - 1));
                assert(target[j] == c[j - 1]);
            }
        }
        assert(s1.chunks() =~= target);
    }

    /// Splices the free range `[idx, idx + size)` in at the head of the
    /// chain, merging it with the first chunk when that chunk begins exactly
    /// where the range ends. Clears the out-of-memory marker.
    fn splice_head(&mut self, idx: usize, size: usize)
        requires
            old(self).wf(),
            1 <= size,
            idx + size <= L,
            range_disjoint(old(self).chunks(), idx as int, size as int),
            insert_pos(old(self).chunks(), idx as int) == 0,
        ensures
            final(self).wf(),
            final(self).region_base() == old(self).region_base(),
            !final(self).is_oom_spec(),
            final(self).chunks() == dealloc_update(old(self).chunks(), idx as int, size as int),
    {
        proof {
            old(self).lemma_wf_chunks();
            lemma_insert_pos_props(self.chunks(), L as int, idx as int);
        }
        let ghost c = self.chunks();
        let ghost starts0 = self.starts@;
        proof {
            assert forall|j: int| 0 <= j < c.len() implies #[trigger] c[j].0 != idx as int by {
                assert(chunk_in_bounds(c, L as int, j));
            }
            if c.len() > 0 {
                assert(c[0].0 == starts0[0]);
                assert(old(self).link_ok(0));
            }
        }
        let prev_next: u16 = self.base.next;
        let merge_next = idx + size == prev_next as usize;
        let mut freed = Header { next: prev_next, length: size as u16 };
        if merge_next {
            let next_chunk = self.headers[prev_next as usize];
            freed = Header {
                next: next_chunk.next,
                length: size as u16 + next_chunk.length,
            };
        }
        self.headers[idx] = freed;
        self.base.next = idx as u16;
        self.base.length = 0;
        if merge_next {
            let ghost s2 = starts0.update(0, idx as int);
            self.starts = Ghost(s2);
            proof {
                Self::lemma_head_merge_shape(*old(self), *self, idx, size);
            }
        } else {
            let ghost s2 = seq![idx as int] + starts0;
            self.starts = Ghost(s2);
            proof {
                Self::lemma_head_insert_shape(*old(self), *self, idx, size);
            }
        }
    }

    /// The state change of [`Self::absorb_after_merge`]: absorbing the
    /// freed range and the chunk after it into the chunk before it leaves
    /// the chain well formed, with the three pieces merged into one chunk.
    #[verifier::rlimit(100)]
    #[verifier::spinoff_prover]
    proof fn lemma_absorb_merge_shape(s0: Self, s1: Self, before_idx: usize, idx: usize, size: usize)
        requires
            s0.wf(),
            1 <= size,
            idx + size <= L,
            range_disjoint(s0.chunks(), idx as int, size as int),
            ({
                let c = s0.chunks();
                let p = insert_pos(c, idx as int);
                &&& 0 < p < c.len()
                &&& before_idx as int == c[p - 1].0
                &&& c[p - 1].0 + c[p - 1].1 == idx
                &&& c[p].0 == idx + size
                &&& s1.base_addr == s0.base_addr
                &&& s1.base == s0.base
                &&& s1.starts@ == s0.starts@.take(p) + s0.starts@.skip(p + 1)
                &&& s1.headers@ =~= s0.headers@.update(
                    idx as int,
                    Header {
                        next: s0.headers@[c[p].0].next,
                        length: (size + s0.headers@[c[p].0].length) as u16,
                    },
                ).update(
                    before_idx as int,
                    Header {
                        next: s0.headers@[c[p].0].next,
                        length: (s0.headers@[before_idx as int].length + size
                            + s0.headers@[c[p].0].length) as u16,
                    },
                )
            }),
        ensures
            s1.wf(),
            s1.region_base() == s0.region_base(),
            !s1.is_oom_spec(),
            s1.chunks() == dealloc_update(s0.chunks(), idx as int, size as int),
    {
        let c = s0.chunks();
        let l = L as int;
        let starts0 = s0.starts@;
        let p = insert_pos(c, idx as int);
        let s2 = s1.starts@;
        let nc = dealloc_update(c, idx as int, size as int);
        let target = c.take(p - 1) + seq![(c[p - 1].0, c[p - 1].1 + size + c[p].1)] + c.skip(p + 1);
        s0.lemma_wf_chunks();
        assert forall|j: int| 0 <= j < c.len() implies #[trigger] c[j].0 != idx as int by {
            assert(chunk_in_bounds(c, l, j));
        }
        assert(c[p - 1].0 == starts0[p - 1]);
        assert(s0.link_ok(p - 1));
        assert(c[p].0 == starts0[p]);
        assert(s0.link_ok(p));
        lemma_chunks_ordered_all(c, l, p - 1);
        lemma_chunks_ordered_all(c, l, p);
        assert(nc == target);
        assert forall|j: int| 0 <= j < s2.len() implies s1.link_ok(j) by {
            if j < p {
                assert(s2[j] == starts0[j]);
                assert(c[j].0 == starts0[j]);
                assert(s0.link_ok(j));
                if j < p - 1 {
                    assert(c[j].0 + c[j].1 < c[p - 1].0);
                }
            } else {
                assert(s2[j] == starts0[j + 1]);
                assert(c[j + 1].0 == starts0[j + 1]);
                assert(s0.link_ok(j + 1));
                assert(c[p].0 + c[p].1 < c[j + 1].0 || j + 1 == p);
            }
            if j < s2.len() - 1 {
                if j + 1 < p {
                    assert(s2[j + 1] == starts0[j + 1]);
                } else {
                    assert(s2[j + 1] == starts0[j + 2]);
                }
            }
        }
        assert(s1.chunks().len() == target.len());
        assert forall|j: int| 0 <= j < target.len() implies s1.chunks()[j] == target[j] by {
            if j < p - 1 {
                assert(s2[j] == starts0[j]);
                assert(c[j].0 == starts0[j]);
                assert(s0.link_ok(j));
                assert(c[j].0 + c[j].1 < c[p - 1].0);
                assert(target[j] == c.take(p - 1)[j]);
            } else if j == p - 1 {
                assert(s2[j] == starts0[p - 1]);
            } else {
                assert(s2[j] == starts0[j + 1]);
                assert(c[j + 1].0 == starts0[j + 1]);
                assert(s0.link_ok(j + 1));
                assert(c[p].0 + c[p].1 < c[j + 1].0 || j + 1 == p);
                assert(target[j] == c.skip(p + 1)[j - p]);
            }
        }
        assert(s1.chunks() =~= target);
    }

    /// Splices the free range `[idx, idx + size)` into the chain by
    /// absorbing it into the chunk at `before_idx`, which ends exactly where
    /// the range begins, together with the chunk that begins exactly where
    /// the range ends.
    #[verifier::rlimit(100)]
    fn absorb_after_merge(&mut self, before_idx: usize, idx: usize, size: usize)
        requires
            old(self).wf(),
            1 <= size,
            idx + size <= L,
            range_disjoint(old(self).chunks(), idx as int, size as int),
            insert_pos(old(self).chunks(), idx as int) > 0,
            before_idx as int == old(self).chunks()[insert_pos(old(self).chunks(), idx as int)
                - 1].0,
            before_idx < L,
            old(self).chunks()[insert_pos(old(self).chunks(), idx as int) - 1].0
                + old(self).chunks()[insert_pos(old(self).chunks(), idx as int) - 1].1 == idx,
            insert_pos(old(self).chunks(), idx as int) < old(self).chunks().len(),
            old(self).chunks()[insert_pos(old(self).chunks(), idx as int)].0 == idx + size,
        ensures
            final(self).wf(),
            final(self).region_base() == old(self).region_base(),
            !final(self).is_oom_spec(),
            final(self).chunks() == dealloc_update(old(self).chunks(), idx as int, size as int),
    {
        proof {
            old(self).lemma_wf_chunks();
        }
        let ghost c = self.chunks();
        let ghost starts0 = self.starts@;
        let ghost p = insert_pos(c, idx as int);
        proof {
            assert(c[p - 1].0 == starts0[p - 1]);
            assert(old(self).link_ok(p - 1));
            assert(c[p].0 == starts0[p]);
            assert(old(self).link_ok(p));
            assert forall|j: int| 0 <= j < c.len() implies #[trigger] c[j].0 != idx as int by {
                assert(chunk_in_bounds(c, L as int, j));
            }
        }
        let prev_next: u16 = self.headers[before_idx].next;
        let next_chunk = self.headers[prev_next as usize];
        let freed = Header {
            next: next_chunk.next,
            length: size as u16 + next_chunk.length,
        };
        self.headers[idx] = freed;
        let before = self.headers[before_idx];
        self.headers[before_idx] = Header {
            next: freed.next,
            length: before.length + freed.length,
        };
        let ghost s2 = starts0.take(p) + starts0.skip(p + 1);
        self.starts = Ghost(s2);
        proof {
            Self::lemma_absorb_merge_shape(*old(self), *self, before_idx, idx, size);
        }
    }

    /// The state change of [`Self::absorb_after_plain`]: extending the
    /// chunk at `before_idx` over the freed range leaves the chain well
    /// formed, with the chunk now covering both.
    #[verifier::rlimit(100)]
    #[verifier::spinoff_prover]
    proof fn lemma_absorb_plain_shape(s0: Self, s1: Self, before_idx: usize, idx: usize, size: usize)
        requires
            s0.wf(),
            1 <= size,
            idx + size <= L,
            range_disjoint(s0.chunks(), idx as int, size as int),
            ({
                let c = s0.chunks();
                let p = insert_pos(c, idx as int);
                &&& 0 < p <= c.len()
                &&& before_idx as int == c[p - 1].0
                &&& c[p - 1].0 + c[p - 1].1 == idx
                &&& p == c.len() || c[p].0 != idx + size
                &&& s1.base_addr == s0.base_addr
                &&& s1.base == s0.base
                &&& s1.starts@ == s0.starts@
                &&& s1.headers@ =~= s0.headers@.update(
                    idx as int,
                    Header { next: s0.headers@[before_idx as int].next, length: size as u16 },
                ).update(
                    before_idx as int,
                    Header {
                        next: s0.headers@[before_idx as int].next,
                        length: (s0.headers@[before_idx as int].length + size) as u16,
                    },
                )
            }),
        ensures
            s1.wf(),
            s1.region_base() == s0.region_base(),
            !s1.is_oom_spec(),
            s1.chunks() == dealloc_update(s0.chunks(), idx as int, size as int),
    {
        let c = s0.chunks();
        let l = L as int;
        let starts0 = s0.starts@;
        let p = insert_pos(c, idx as int);
        let nc = dealloc_update(c, idx as int, size as int);
        let target = c.take(p - 1) + seq![(c[p - 1].0, c[p - 1].1 + size)] + c.skip(p);
        s0.lemma_wf_chunks();
        lemma_insert_pos_props(c, l, idx as int);
        assert forall|j: int| 0 <= j < c.len() implies #[trigger] c[j].0 != idx as int by {
            assert(chunk_in_bounds(c, l, j));
        }
        assert(c[p - 1].0 == starts0[p - 1]);
        assert(s0.link_ok(p - 1));
        if p < c.len() {
            assert(c[p].0 == starts0[p]);
            assert(s0.link_ok(p));
        }
        lemma_chunks_ordered_all(c, l, p - 1);
        assert(nc == target);
        assert forall|j: int| 0 <= j < starts0.len() implies s1.link_ok(j) by {
            assert(c[j].0 == starts0[j]);
            assert(s0.link_ok(j));
            if j < p - 1 {
                lemma_chunks_ordered(c, l, j, p - 1);
            }
            if j > p - 1 {
                lemma_chunks_ordered(c, l, p - 1, j);
            }
            if p < c.len() {
                assert(c[p].0 == starts0[p]);
            }
        }
        assert(s1.chunks().len() == target.len());
        assert forall|j: int| 0 <= j < target.len() implies s1.chunks()[j] == target[j] by {
            assert(c[j].0 == starts0[j]);
            assert(s0.link_ok(j));
            if j < p - 1 {
                lemma_chunks_ordered(c, l, j, p - 1);
                assert(target[j] == c.take(p - 1)[j]);
            }
            if j > p - 1 {
                lemma_chunks_ordered(c, l, p - 1, j);
                assert(target[j] == c.skip(p)[j - p]);
            }
        }
        assert(s1.chunks() =~= target);
    }

    /// Splices the free range `[idx, idx + size)` into the chain by
    /// absorbing it into the chunk at `before_idx`, which ends exactly where
    /// the range begins; no chunk is adjacent behind the range.
    fn absorb_after_plain(&mut self, before_idx: usize, idx: usize, size: usize)
        requires
            old(self).wf(),
            1 <= size,
            idx + size <= L,
            range_disjoint(old(self).chunks(), idx as int, size as int),
            insert_pos(old(self).chunks(), idx as int) > 0,
            before_idx as int == old(self).chunks()[insert_pos(old(self).chunks(), idx as int)
                - 1].0,
            before_idx < L,
            old(self).chunks()[insert_pos(old(self).chunks(), idx as int) - 1].0
                + old(self).chunks()[insert_pos(old(self).chunks(), idx as int) - 1].1 == idx,
            insert_pos(old(self).chunks(), idx as int) == old(self).chunks().len()
                || old(self).chunks()[insert_pos(old(self).chunks(), idx as int)].0 != idx + size,
        ensures
            final(self).wf(),
            final(self).region_base() == old(self).region_base(),
            !final(self).is_oom_spec(),
            final(self).chunks() == dealloc_update(old(self).chunks(), idx as int, size as int),
    {
        proof {
            old(self).lemma_wf_chunks();
            lemma_insert_pos_props(self.chunks(), L as int, idx as int);
        }
        let ghost c = self.chunks();
        let ghost starts0 = self.starts@;
        let ghost p = insert_pos(c, idx as int);
        proof {
            assert(c[p - 1].0 == starts0[p - 1]);
            assert(old(self).link_ok(p - 1));
            assert forall|j: int| 0 <= j < c.len() implies #[trigger] c[j].0 != idx as int by {
                assert(chunk_in_bounds(c, L as int, j));
            }
        }
        let prev_next: u16 = self.headers[before_idx].next;
        let freed = Header { next: prev_next, length: size as u16 };
        self.headers[idx] = freed;
        let before = self.headers[before_idx];
        self.headers[before_idx] = Header {
            next: freed.next,
            length: before.length + freed.length,
        };
        proof {
            Self::lemma_absorb_plain_shape(*old(self), *self, before_idx, idx, size);
        }
    }

    /// Splices the free range `[idx, idx + size)` into the chain by
    /// absorbing it into the chunk at `before_idx`, which ends exactly where
    /// the range begins, merging the chunk after the range as well when it
    /// is adjacent.
    fn absorb_after(&mut self, before_idx: usize, idx: usize, size: usize)
        requires
            old(self).wf(),
            1 <= size,
            idx + size <= L,
            range_disjoint(old(self).chunks(), idx as int, size as int),
            insert_pos(old(self).chunks(), idx as int) > 0,
            before_idx as int == old(self).chunks()[insert_pos(old(self).chunks(), idx as int)
                - 1].0,
            before_idx < L,
            old(self).chunks()[insert_pos(old(self).chunks(), idx as int) - 1].0
                + old(self).chunks()[insert_pos(old(self).chunks(), idx as int) - 1].1 == idx,
        ensures
            final(self).wf(),
            final(self).region_base() == old(self).region_base(),
            !final(self).is_oom_spec(),
            final(self).chunks() == dealloc_update(old(self).chunks(), idx as int, size as int),
    {
        proof {
            old(self).lemma_wf_chunks();
            lemma_insert_pos_props(self.chunks(), L as int, idx as int);
            let ghost c = self.chunks();
            let ghost p = insert_pos(c, idx as int);
            assert(c[p - 1].0 == self.starts@[p - 1]);
            assert(self.link_ok(p - 1));
            if p < c.len() {
                assert(c[p].0 == self.starts@[p]);
                assert(self.link_ok(p));
            }
        }
        let prev_next: u16 = self.headers[before_idx].next;
        if idx + size == prev_next as usize {
            self.absorb_after_merge(before_idx, idx, size);
        } else {
            self.absorb_after_plain(before_idx, idx, size);
        }
    }

    /// The state change of [`Self::link_after_merge`]: inserting the freed
    /// range after the chunk at `before_idx` and absorbing the adjacent
    /// chunk behind it leaves the chain well formed, the two merged into one
    /// chunk at the freed range's start.
    #[verifier::rlimit(100)]
    #[verifier::spinoff_prover]
    proof fn lemma_link_merge_shape(s0: Self, s1: Self, before_idx: usize, idx: usize, size: usize)
        requires
            s0.wf(),
            1 <= size,
            idx + size <= L,
            range_disjoint(s0.chunks(), idx as int, size as int),
            ({
                let c = s0.chunks();
                let p = insert_pos(c, idx as int);
                &&& 0 < p < c.len()
                &&& before_idx as int == c[p - 1].0
                &&& c[p - 1].0 + c[p - 1].1 != idx
                &&& c[p].0 == idx + size
                &&& s1.base_addr == s0.base_addr
                &&& s1.base == s0.base
                &&& s1.starts@ == s0.starts@.update(p, idx as int)
                &&& s1.headers@ =~= s0.headers@.update(
                    idx as int,
                    Header {
                        next: s0.headers@[c[p].0].next,
                        length: (size + s0.headers@[c[p].0].length) as u16,
                    },
                ).update(
                    before_idx as int,
                    Header {
                        next: idx as u16,
                        length: s0.headers@[before_idx as int].length,
                    },
                )
            }),
        ensures
            s1.wf(),
            s1.region_base() == s0.region_base(),
            !s1.is_oom_spec(),
            s1.chunks() == dealloc_update(s0.chunks(), idx as int, size as int),
    {
        let c = s0.chunks();
        let l = L as int;
        let starts0 = s0.starts@;
        let p = insert_pos(c, idx as int);
        let s2 = s1.starts@;
        let nc = dealloc_update(c, idx as int, size as int);
        let target = c.take(p) + seq![(idx as int, size + c[p].1)] + c.skip(p + 1);
        s0.lemma_wf_chunks();
        lemma_insert_pos_props(c, l, idx as int);
        assert forall|j: int| 0 <= j < c.len() implies #[trigger] c[j].0 != idx as int by {
            assert(chunk_in_bounds(c, l, j));
        }
        assert(c[p - 1].0 == starts0[p - 1]);
        assert(s0.link_ok(p - 1));
        assert(c[p].0 == starts0[p]);
        assert(s0.link_ok(p));
        lemma_chunks_ordered_all(c, l, p - 1);
        lemma_chunks_ordered_all(c, l, p);
        assert(nc == target);
        assert forall|j: int| 0 <= j < s2.len() implies s1.link_ok(j) by {
            if j != p {
                assert(s2[j] == starts0[j]);
                assert(c[j].0 == starts0[j]);
                assert(s0.link_ok(j));
                if j < p - 1 {
                    assert(c[j].0 + c[j].1 < c[p - 1].0);
                }
                if j > p {
                    assert(c[p].0 + c[p].1 < c[j].0);
                    assert(c[p - 1].0 + c[p - 1].1 < c[j].0);
                }
            }
        }
        assert(s1.chunks().len() == target.len());
        assert forall|j: int| 0 <= j < target.len() implies s1.chunks()[j] == target[j] by {
            if j != p {
                assert(s2[j] == starts0[j]);
                assert(c[j].0 == starts0[j]);
                assert(s0.link_ok(j));
                if j < p - 1 {
                    assert(c[j].0 + c[j].1 < c[p - 1].0);
                }
                if j > p {
                    assert(c[p].0 + c[p].1 < c[j].0);
                    assert(c[p - 1].0 + c[p - 1].1 < c[j].0);
                }
                if j < p {
                    assert(target[j] == c.take(p)[j]);
                } else {
                    assert(target[j] == c.skip(p + 1)[j - p - 1]);
                }
            }
        }
        assert(s1.chunks() =~= target);
    }

    /// Splices the free range `[idx, idx + size)` into the chain as a new
    /// chunk after the chunk at `before_idx`, absorbing the chunk that
    /// begins exactly where the range ends.
    fn link_after_merge(&mut self, before_idx: usize, idx: usize, size: usize)
        requires
            old(self).wf(),
            1 <= size,
            idx + size <= L,
            range_disjoint(old(self).chunks(), idx as int, size as int),
            insert_pos(old(self).chunks(), idx as int) > 0,
            before_idx as int == old(self).chunks()[insert_pos(old(self).chunks(), idx as int)
                - 1].0,
            before_idx < L,
            old(self).chunks()[insert_pos(old(self).chunks(), idx as int) - 1].0
                + old(self).chunks()[insert_pos(old(self).chunks(), idx as int) - 1].1 != idx,
            insert_pos(old(self).chunks(), idx as int) < old(self).chunks().len(),
            old(self).chunks()[insert_pos(old(self).chunks(), idx as int)].0 == idx + size,
        ensures
            final(self).wf(),
            final(self).region_base() == old(self).region_base(),
            !final(self).is_oom_spec(),
            final(self).chunks() == dealloc_update(old(self).chunks(), idx as int, size as int),
    {
        proof {
            old(self).lemma_wf_chunks();
            lemma_insert_pos_props(self.chunks(), L as int, idx as int);
        }
        let ghost c = self.chunks();
        let ghost starts0 = self.starts@;
        let ghost p = insert_pos(c, idx as int);
        proof {
            assert(c[p - 1].0 == starts0[p - 1]);
            assert(old(self).link_ok(p - 1));
            assert(c[p].0 == starts0[p]);
            assert(old(self).link_ok(p));
            assert forall|j: int| 0 <= j < c.len() implies #[trigger] c[j].0 != idx as int by {
                assert(chunk_in_bounds(c, L as int, j));
            }
        }
        let prev_next: u16 = self.headers[before_idx].next;
        let next_chunk = self.headers[prev_next as usize];
        let freed = Header {
            next: next_chunk.next,
            length: size as u16 + next_chunk.length,
        };
        self.headers[idx] = freed;
        let before = self.headers[before_idx];
        self.headers[before_idx] = Header { next: idx as u16, length: before.length };
        let ghost s2 = starts0.update(p, idx as int);
        self.starts = Ghost(s2);
        proof {
            Self::lemma_link_merge_shape(*old(self), *self, before_idx, idx, size);
        }
    }

    /// The state change of [`Self::link_after_plain`]: inserting the freed
    /// range as a chunk of its own after the chunk at `before_idx` leaves
    /// the chain well formed, with the new chunk at its sorted place.
    #[verifier::rlimit(100)]
    #[verifier::spinoff_prover]
    proof fn lemma_link_plain_shape(s0: Self, s1: Self, before_idx: usize, idx: usize, size: usize)
        requires
            s0.wf(),
            1 <= size,
            idx + size <= L,
            range_disjoint(s0.chunks(), idx as int, size as int),
            ({
                let c = s0.chunks();
                let p = insert_pos(c, idx as int);
                &&& 0 < p <= c.len()
                &&& before_idx as int == c[p - 1].0
                &&& c[p - 1].0 + c[p - 1].1 != idx
                &&& p == c.len() || c[p].0 != idx + size
                &&& s1.base_addr == s0.base_addr
                &&& s1.base == s0.base
                &&& s1.starts@ == s0.starts@.take(p) + seq![idx as int] + s0.starts@.skip(p)
                &&& s1.headers@ =~= s0.headers@.update(
                    idx as int,
                    Header { next: s0.headers@[before_idx as int].next, length: size as u16 },
                ).update(
                    before_idx as int,
                    Header {
                        next: idx as u16,
                        length: s0.headers@[before_idx as int].length,
                    },
                )
            }),
        ensures
            s1.wf(),
            s1.region_base() == s0.region_base(),
            !s1.is_oom_spec(),
            s1.chunks() == dealloc_update(s0.chunks(), idx as int, size as int),
    {
        let c = s0.chunks();
        let l = L as int;
        let starts0 = s0.starts@;
        let p = insert_pos(c, idx as int);
        let s2 = s1.starts@;
        let nc = dealloc_update(c, idx as int, size as int);
        let target = c.take(p) + seq![(idx as int, size as int)] + c.skip(p);
        s0.lemma_wf_chunks();
        lemma_insert_pos_props(c, l, idx as int);
        assert forall|j: int| 0 <= j < c.len() implies #[trigger] c[j].0 != idx as int by {
            assert(chunk_in_bounds(c, l, j));
        }
        assert(c[p - 1].0 == starts0[p - 1]);
        assert(s0.link_ok(p - 1));
        if p < c.len() {
            assert(c[p].0 == starts0[p]);
            assert(s0.link_ok(p));
        }
        lemma_chunks_ordered_all(c, l, p - 1);
        assert(nc == target);
        assert forall|j: int| 0 <= j < s2.len() implies s1.link_ok(j) by {
            if j < p {
                assert(s2[j] == starts0[j]);
                assert(c[j].0 == starts0[j]);
                assert(s0.link_ok(j));
                if j < p - 1 {
                    lemma_chunks_ordered(c, l, j, p - 1);
                    assert(s2[j + 1] == starts0[j + 1]);
                } else {
                    assert(s2[j + 1] == idx as int);
                }
            } else if j == p {
                assert(s2[j] == idx as int);
                if p < c.len() {
                    assert(c[p].0 == starts0[p]);
                    assert(s2[j + 1] == starts0[p]);
                }
            } else {
                assert(s2[j] == starts0[j - 1]);
                assert(c[j - 1].0 == starts0[j - 1]);
                assert(s0.link_ok(j - 1));
                lemma_chunks_ordered(c, l, p - 1, j - 1);
                if j < s2.len() - 1 {
                    assert(s2[j + 1] == starts0[j]);
                }
            }
        }
        assert(s1.chunks().len() == target.len());
        assert forall|j: int| 0 <= j < target.len() implies s1.chunks()[j] == target[j] by {
            if j < p {
                assert(s2[j] == starts0[j]);
                assert(c[j].0 == starts0[j]);
                assert(s0.link_ok(j));
                if j < p - 1 {
                    lemma_chunks_ordered(c, l, j, p - 1);
                }
                assert(target[j] == c.take(p)[j]);
            } else if j == p {
                assert(s2[j] == idx as int);
            } else {
                assert(s2[j] == starts0[j - 1]);
                assert(c[j - 1].0 == starts0[j - 1]);
                assert(s0.link_ok(j - 1));
                lemma_chunks_ordered(c, l, p - 1, j - 1);
                assert(target[j] == c.skip(p)[j - p - 1]);
            }
        }
        assert(s1.chunks() =~= target);
    }

    /// Splices the free range `[idx, idx + size)` into the chain as a new
    /// chunk of its own after the chunk at `before_idx`, with no chunk
    /// adjacent on either side.
    fn link_after_plain(&mut self, before_idx: usize, idx: usize, size: usize)
        requires
            old(self).wf(),
            1 <= size,
            idx + size <= L,
            range_disjoint(old(self).chunks(), idx as int, size as int),
            insert_pos(old(self).chunks(), idx as int) > 0,
            before_idx as int == old(self).chunks()[insert_pos(old(self).chunks(), idx as int)
                - 1].0,
            before_idx < L,
            old(self).chunks()[insert_pos(old(self).chunks(), idx as int) - 1].0
                + old(self).chunks()[insert_pos(old(self).chunks(), idx as int) - 1].1 != idx,
            insert_pos(old(self).chunks(), idx as int) == old(self).chunks().len()
                || old(self).chunks()[insert_pos(old(self).chunks(), idx as int)].0 != idx + size,
        ensures
            final(self).wf(),
            final(self).region_base() == old(self).region_base(),
            !final(self).is_oom_spec(),
            final(self).chunks() == dealloc_update(old(self).chunks(), idx as int, size as int),
    {
        proof {
            old(self).lemma_wf_chunks();
            lemma_insert_pos_props(self.chunks(), L as int, idx as int);
        }
        let ghost c = self.chunks();
        let ghost starts0 = self.starts@;
        let ghost p = insert_pos(c, idx as int);
        proof {
            assert(c[p - 1].0 == starts0[p - 1]);
            assert(old(self).link_ok(p - 1));
            assert forall|j: int| 0 <= j < c.len() implies #[trigger] c[j].0 != idx as int by {
                assert(chunk_in_bounds(c, L as int, j));
            }
        }
        let prev_next: u16 = self.headers[before_idx].next;
        let freed = Header { next: prev_next, length: size as u16 };
        self.headers[idx] = freed;
        let before = self.headers[before_idx];
        self.headers[before_idx] = Header { next: idx as u16, length: before.length };
        let ghost s2 = starts0.take(p) + seq![idx as int] + starts0.skip(p);
        self.starts = Ghost(s2);
        proof {
            Self::lemma_link_plain_shape(*old(self), *self, before_idx, idx, size);
        }
    }

    /// Splices the free range `[idx, idx + size)` into the chain as a chunk
    /// of its own right after the chunk starting at `before_idx`, merging it
    /// with the chunk after it when that one is adjacent.
    fn link_after(&mut self, before_idx: usize, idx: usize, size: usize)
        requires
            old(self).wf(),
            1 <= size,
            idx + size <= L,
            range_disjoint(old(self).chunks(), idx as int, size as int),
            insert_pos(old(self).chunks(), idx as int) > 0,
            before_idx as int == old(self).chunks()[insert_pos(old(self).chunks(), idx as int)
                - 1].0,
            before_idx < L,
            old(self).chunks()[insert_pos(old(self).chunks(), idx as int) - 1].0
                + old(self).chunks()[insert_pos(old(self).chunks(), idx as int) - 1].1 != idx,
        ensures
            final(self).wf(),
            final(self).region_base() == old(self).region_base(),
            !final(self).is_oom_spec(),
            final(self).chunks() == dealloc_update(old(self).chunks(), idx as int, size as int),
    {
        proof {
            old(self).lemma_wf_chunks();
            lemma_insert_pos_props(self.chunks(), L as int, idx as int);
            let ghost c = self.chunks();
            let ghost p = insert_pos(c, idx as int);
            assert(c[p - 1].0 == self.starts@[p - 1]);
            assert(self.link_ok(p - 1));
            if p < c.len() {
                assert(c[p].0 == self.starts@[p]);
                assert(self.link_ok(p));
            }
        }
        let prev_next: u16 = self.headers[before_idx].next;
        if idx + size == prev_next as usize {
            self.link_after_merge(before_idx, idx, size);
        } else {
            self.link_after_plain(before_idx, idx, size);
        }
    }

    /// Splices the free range `[idx, idx + size)` into the chain right after
    /// the chunk starting at `before_idx`, merging it with that chunk and
    /// with the chunk after it wherever those are directly adjacent.
    fn splice_after(&mut self, before_idx: usize, idx: usize, size: usize)
        requires
            old(self).wf(),
            1 <= size,
            idx + size <= L,
            range_disjoint(old(self).chunks(), idx as int, size as int),
            insert_pos(old(self).chunks(), idx as int) > 0,
            before_idx as int == old(self).chunks()[insert_pos(old(self).chunks(), idx as int)
                - 1].0,
            before_idx < L,
        ensures
            final(self).wf(),
            final(self).region_base() == old(self).region_base(),
            !final(self).is_oom_spec(),
            final(self).chunks() == dealloc_update(old(self).chunks(), idx as int, size as int),
    {
        proof {
            old(self).lemma_wf_chunks();
            lemma_insert_pos_props(self.chunks(), L as int, idx as int);
            let ghost c = self.chunks();
            let ghost p = insert_pos(c, idx as int);
            assert(c[p - 1].0 == self.starts@[p - 1]);
            assert(self.link_ok(p - 1));
        }
        let before = self.headers[before_idx];
        if before_idx + before.length as usize == idx {
            self.absorb_after(before_idx, idx, size);
        } else {
            self.link_after(before_idx, idx, size);
        }
    }

    /// Shrinks the allocation of `old_size` blocks at address `ptr` to
    /// `new_size` blocks in place: the trailing blocks become a free chunk at
    /// their sorted place in the chain, merged with the chunk after them when
    /// directly adjacent. Infallible and never moves the allocation.
    pub fn shrink_in_place(&mut self, ptr: usize, old_size: usize, new_size: usize)
        requires
            old(self).wf(),
            1 <= new_size < old_size,
            old(self).region_base() <= ptr,
            (ptr - old(self).region_base()) % (B as int) == 0,
            (ptr - old(self).region_base()) / (B as int) + old_size <= L,
            range_disjoint(
                old(self).chunks(),
                (ptr - old(self).region_base()) / (B as int),
                old_size as int,
            ),
        ensures
            final(self).wf(),
            final(self).region_base() == old(self).region_base(),
            !final(self).is_oom_spec(),
            final(self).chunks() == shrink_update(
                old(self).chunks(),
                (ptr - old(self).region_base()) / (B as int),
                old_size as int,
                new_size as int,
            ),
            free_total(final(self).chunks()) == free_total(old(self).chunks()) + old_size
                - new_size,
    {
        proof {
            old(self).lemma_wf_chunks();
        }
        let ghost c = self.chunks();
        let ghost l = L as int;
        let idx = (ptr - self.base_addr) / B;
        let new_idx = idx + new_size;
        let spare = old_size - new_size;
        proof {
            vstd::arithmetic::div_mod::lemma_fundamental_div_mod(
                ptr as int - self.base_addr as int,
                B as int,
            );
            assert(idx as int == (ptr - old(self).region_base()) / (B as int));
            lemma_insert_pos_props(c, l, idx as int);
            let p = insert_pos(c, idx as int);
            // no chunk start lies inside the allocation, so the splice point
            // of the trailing range is the splice point of the allocation
            assert forall|j: int| 0 <= j < p implies #[trigger] c[j].0 < new_idx as int by {}
            if p < c.len() {
                assert(chunk_in_bounds(c, l, p));
                assert(c[p].0 >= idx + old_size);
            }
            lemma_insert_pos_is(c, l, new_idx as int, p);
            assert(range_disjoint(c, new_idx as int, spare as int));
            lemma_dealloc_update_total(c, l, new_idx as int, spare as int);
        }
        let (before_is_base, before_idx) = self.header_before(idx);
        if before_is_base {
            self.splice_head(new_idx, spare);
        } else {
            proof {
                let p = insert_pos(c, idx as int);
                assert(c[p - 1].0 == self.starts@[p - 1]);
                assert(self.link_ok(p - 1));
            }
            self.splice_after(before_idx, new_idx, spare);
        }
    }

    /// Tries to grow the allocation of `old_size` blocks at address `ptr` to
    /// `new_size` blocks in place. This succeeds exactly when a free chunk
    /// begins where the allocation ends and has at least the missing blocks;
    /// the chunk then loses them from its front. Fails, changing nothing,
    /// otherwise.
    pub fn grow_in_place(&mut self, ptr: usize, old_size: usize, new_size: usize) -> (r: Result<
        (),
        AllocError,
    >)
        requires
            old(self).wf(),
            1 <= old_size < new_size,
            old(self).region_base() <= ptr,
            (ptr - old(self).region_base()) % (B as int) == 0,
            (ptr - old(self).region_base()) / (B as int) + old_size <= L,
            range_disjoint(
                old(self).chunks(),
                (ptr - old(self).region_base()) / (B as int),
                old_size as int,
            ),
        ensures
            final(self).wf(),
            final(self).region_base() == old(self).region_base(),
            r is Ok <==> grow_ok(
                old(self).chunks(),
                (ptr - old(self).region_base()) / (B as int),
                old_size as int,
                new_size as int,
            ),
            r is Err ==> *final(self) == *old(self),
            r is Ok ==> final(self).chunks() == split_update(
                old(self).chunks(),
                insert_pos(old(self).chunks(), (ptr - old(self).region_base()) / (B as int)),
                0,
                new_size - old_size,
            ),
            r is Ok ==> ({
                let c = old(self).chunks();
                let p = insert_pos(c, (ptr - old(self).region_base()) / (B as int));
                &&& 0 <= p < c.len()
                &&& c[p].0 == (ptr - old(self).region_base()) / (B as int) + old_size
                &&& new_size - old_size <= c[p].1
            }),
            r is Ok ==> free_total(final(self).chunks()) == free_total(old(self).chunks())
                - (new_size - old_size),
    {
        proof {
            old(self).lemma_wf_chunks();
        }
        let ghost c = self.chunks();
        let ghost l = L as int;
        let idx = (ptr - self.base_addr) / B;
        proof {
            vstd::arithmetic::div_mod::lemma_fundamental_div_mod(
                ptr as int - self.base_addr as int,
                B as int,
            );
            assert(idx as int == (ptr - old(self).region_base()) / (B as int));
            lemma_insert_pos_props(c, l, idx as int);
        }
        let ghost p = insert_pos(c, idx as int);
        let (before_is_base, before_idx) = self.header_before(idx);
        let next_free = if before_is_base {
            self.base.next as usize
        } else {
            self.headers[before_idx].next as usize
        };
        proof {
            if p > 0 {
                assert(c[p - 1].0 == self.starts@[p - 1]);
                assert(self.link_ok(p - 1));
            }
            if self.is_oom_spec() {
                assert(next_free == 0);
            } else if p == c.len() {
                assert(next_free == 0);
            } else {
                assert(next_free as int == c[p].0);
                assert(chunk_in_bounds(c, l, p));
                assert(c[p].0 >= idx + old_size);
            }
            assert forall|k: int|
                0 <= k < c.len() && k != p implies #[trigger] c[k].0 != idx as int
                + old_size as int by {
                if k < p {
                } else {
                    lemma_chunks_ordered(c, l, p, k);
                    assert(chunk_in_bounds(c, l, p));
                    assert(c[p].0 >= idx + old_size);
                }
            }
        }
        if idx + old_size != next_free {
            proof {
                assert(!grow_ok(c, idx as int, old_size as int, new_size as int));
            }
            return Err(AllocError);
        }
        let room = self.headers[next_free].length as usize;
        proof {
            assert(c[p].1 == room as int);
        }
        let needed = new_size - old_size;
        if needed > room {
            proof {
                assert(!grow_ok(c, idx as int, old_size as int, new_size as int));
            }
            return Err(AllocError);
        }
        proof {
            lemma_split_update_props(c, l, p, 0, needed as int);
        }
        self.carve(before_is_base, before_idx, next_free, 0, needed, Ghost(p));
        Ok(())
    }

    /// Grows the allocation of `old_size` blocks at address `ptr` in place by
    /// as much as possible, up to `new_size` blocks, and returns the size
    /// achieved: `old_size` plus however much of the adjacent free chunk (if
    /// any) could be consumed. Infallible; the result lies in
    /// `old_size..=new_size`.
    pub fn grow_up_to(&mut self, ptr: usize, old_size: usize, new_size: usize) -> (r: usize)
        requires
            old(self).wf(),
            1 <= old_size < new_size,
            old(self).region_base() <= ptr,
            (ptr - old(self).region_base()) % (B as int) == 0,
            (ptr - old(self).region_base()) / (B as int) + old_size <= L,
            range_disjoint(
                old(self).chunks(),
                (ptr - old(self).region_base()) / (B as int),
                old_size as int,
            ),
        ensures
            final(self).wf(),
            final(self).region_base() == old(self).region_base(),
            ({
                let c = old(self).chunks();
                let idx = (ptr - old(self).region_base()) / (B as int);
                let p = insert_pos(c, idx);
                let adj = p < c.len() && c[p].0 == idx + old_size;
                let gain = if !adj {
                    0
                } else if new_size - old_size <= c[p].1 {
                    new_size - old_size
                } else {
                    c[p].1
                };
                &&& old_size <= r <= new_size
                &&& r == old_size + gain
                &&& (gain == 0 ==> *final(self) == *old(self))
                &&& (gain > 0 ==> final(self).chunks() == split_update(c, p, 0, gain))
                &&& (gain > 0 ==> free_total(final(self).chunks()) == free_total(c) - gain)
            }),
    {
        proof {
            old(self).lemma_wf_chunks();
        }
        let ghost c = self.chunks();
        let ghost l = L as int;
        let idx = (ptr - self.base_addr) / B;
        proof {
            vstd::arithmetic::div_mod::lemma_fundamental_div_mod(
                ptr as int - self.base_addr as int,
                B as int,
            );
            assert(idx as int == (ptr - old(self).region_base()) / (B as int));
            lemma_insert_pos_props(c, l, idx as int);
        }
        let ghost p = insert_pos(c, idx as int);
        let (before_is_base, before_idx) = self.header_before(idx);
        let next_free = if before_is_base {
            self.base.next as usize
        } else {
            self.headers[before_idx].next as usize
        };
        proof {
            if p > 0 {
                assert(c[p - 1].0 == self.starts@[p - 1]);
                assert(self.link_ok(p - 1));
            }
            if self.is_oom_spec() {
                assert(next_free == 0);
            } else if p == c.len() {
                assert(next_free == 0);
            } else {
                assert(next_free as int == c[p].0);
                assert(chunk_in_bounds(c, l, p));
            }
        }
        if idx + old_size != next_free {
            return old_size;
        }
        let room = self.headers[next_free].length as usize;
        proof {
            assert(c[p].1 == room as int);
        }
        let diff = new_size - old_size;
        let needed = if diff <= room {
            diff
        } else {
            room
        };
        proof {
            lemma_split_update_props(c, l, p, 0, needed as int);
        }
        self.carve(before_is_base, before_idx, next_free, 0, needed, Ghost(p));
        old_size + needed
    }

    /// Reports the free list as a vector of `(start, length)` pairs, in
    /// chain order: the chunks of the abstract free list, smallest start
    /// first.
    pub fn free_chunks(&self) -> (v: Vec<(u16, u16)>)
        requires
            self.wf(),
        ensures
            v@.len() == self.chunks().len(),
            forall|k: int|
                0 <= k < v@.len() ==> #[trigger] v@[k].0 as int == self.chunks()[k].0
                    && v@[k].1 as int == self.chunks()[k].1,
    {
        let ghost c = self.chunks();
        let ghost l = L as int;
        let mut v: Vec<(u16, u16)> = Vec::new();
        if self.is_oom() {
            return v;
        }
        let mut curr = self.base.next as usize;
        let ghost mut k: int = 0;
        loop
            invariant
                self.wf(),
                !self.is_oom_spec(),
                c == self.chunks(),
                0 <= k < c.len(),
                curr as int == c[k].0,
                v@.len() == k,
                forall|j: int|
                    0 <= j < k ==> #[trigger] v@[j].0 as int == c[j].0 && v@[j].1 as int == c[j].1,
            decreases c.len() - k,
        {
            proof {
                assert(self.link_ok(k));
            }
            let h = self.headers[curr];
            v.push((curr as u16, h.length));
            if h.next == 0 {
                proof {
                    if k < c.len() - 1 {
                        assert(self.link_ok(k + 1));
                    }
                }
                return v;
            }
            curr = h.next as usize;
            proof {
                k = k + 1;
            }
        }
    }

    /// Checks that no block of the range `[idx, idx + size)` lies in any
    /// free chunk, that is, that the whole range is currently allocated.
    /// Runs through the free list once.
    pub fn range_allocated(&self, idx: usize, size: usize) -> (r: bool)
        requires
            self.wf(),
            1 <= size,
        ensures
            r == range_disjoint(self.chunks(), idx as int, size as int),
    {
        let ghost c = self.chunks();
        if self.is_oom() {
            return true;
        }
        let mut curr = self.base.next as usize;
        let ghost mut k: int = 0;
        loop
            invariant
                self.wf(),
                !self.is_oom_spec(),
                1 <= size,
                c == self.chunks(),
                0 <= k < c.len(),
                curr as int == c[k].0,
                forall|j: int|
                    0 <= j < k ==> idx as int + size as int <= #[trigger] c[j].0 || c[j].0 + c[j].1
                        <= idx as int,
            decreases c.len() - k,
        {
            proof {
                assert(self.link_ok(k));
            }
            let h = self.headers[curr];
            let overlaps = if idx >= curr {
                idx - curr < h.length as usize
            } else {
                size > curr - idx
            };
            if overlaps {
                proof {
                    assert(c[k].0 == self.starts@[k]);
                    assert(c[k].1 == h.length as int);
                    assert(!(idx as int + size as int <= c[k].0 || c[k].0 + c[k].1 <= idx as int));
                }
                return false;
            }
            if h.next == 0 {
                proof {
                    if k < c.len() - 1 {
                        assert(self.link_ok(k + 1));
                    }
                }
                return true;
            }
            curr = h.next as usize;
            proof {
                k = k + 1;
            }
        }
    }

    /// A well-formed allocator whose free blocks number the whole region is
    /// empty: once every allocated run has been returned, in any order, the
    /// coalescing in [`Stalloc::deallocate_blocks`] has rebuilt the single
    /// full-length chunk at block `0`.
    pub proof fn lemma_full_free_is_empty(&self)
        requires
            self.wf(),
            free_total(self.chunks()) == L as int,
        ensures
            self.is_empty_spec(),
            self.chunks() =~= seq![(0int, L as int)],
    {
        self.lemma_wf_chunks();
        crate::model::lemma_full_free_is_single_chunk(self.chunks(), L as int);
        assert(self.chunks().len() == 1);
        assert(self.chunks()[0].0 == self.starts@[0]);
    }

    /// Creates a new [`AllocChain`] containing this allocator and `next`.
    pub fn chain<T>(self, next: T) -> (r: AllocChain<Self, T>)
        ensures
            r == AllocChain(self, next),
    {
        AllocChain(self, next)
    }

    /// The block index of an address within the region: the number of whole
    /// blocks between the region base and the address.
    pub fn index_of(&self, addr: usize) -> (r: usize)
        requires
            self.wf(),
            self.region_base() <= addr,
        ensures
            r as int == (addr - self.region_base()) / (B as int),
    {
        (addr - self.base_addr) / B
    }
}


// Conversions between byte-level layouts and block counts.
impl<const L: usize, const B: usize> Stalloc<L, B> {
    /// The number of blocks needed for `size` bytes, rounding up.
    pub(crate) fn blocks_of(size: usize) -> (r: usize)
        requires
            Self::params_ok(),
        ensures
            r as int == blocks_for(size as int, B as int),
            r == 0 <==> size == 0,
            r as int <= size as int,
    {
        if size == 0 {
            0
        } else {
            proof {
                vstd::arithmetic::div_mod::lemma_div_nonincreasing(size as int - 1, B as int);
                vstd::arithmetic::div_mod::lemma_div_pos_is_pos(size as int - 1, B as int);
            }
            1 + (size - 1) / B
        }
    }

    /// The alignment in blocks for an alignment in bytes: one block when the
    /// alignment does not exceed the block size, the exact quotient
    /// otherwise. The result is a power of two, and a run of blocks aligned
    /// to it is aligned to the requested byte alignment.
    fn align_blocks_of(align: usize) -> (r: usize)
        requires
            Self::params_ok(),
            is_pow2(align as int),
            align <= 0x2000_0000,
        ensures
            r as int == blocks_for(align as int, B as int),
            is_pow2(r as int),
            r as int * B as int <= 0x2000_0000,
            (r as int * B as int) % align as int == 0,
    {
        proof {
            if align <= B {
                lemma_pow2_le_divides(align as int, B as int);
                assert((align as int - 1) / (B as int) == 0) by {
                    vstd::arithmetic::div_mod::lemma_basic_div(align as int - 1, B as int);
                }
                assert(blocks_for(align as int, B as int) == 1);
                assert((1 * (B as int)) % (align as int) == 0) by {
                    assert(1 * (B as int) == B as int) by (nonlinear_arith);
                }
            } else {
                lemma_pow2_le_divides(B as int, align as int);
                let q = align as int / (B as int);
                vstd::arithmetic::div_mod::lemma_fundamental_div_mod(align as int, B as int);
                assert(align as int - 1 == (q - 1) * (B as int) + (B as int - 1))
                    by (nonlinear_arith)
                    requires
                        align as int == (B as int) * q + 0,
                ;
                vstd::arithmetic::div_mod::lemma_fundamental_div_mod_converse_div(
                    align as int - 1,
                    B as int,
                    q - 1,
                    B as int - 1,
                );
                assert(blocks_for(align as int, B as int) == q);
                assert(q * (B as int) == align as int) by (nonlinear_arith)
                    requires
                        align as int == (B as int) * q + 0,
                ;
                vstd::arithmetic::div_mod::lemma_mod_multiples_basic(1, align as int);
                assert(1 * (align as int) == align as int) by (nonlinear_arith);
            }
        }
        1 + (align - 1) / B
    }

    /// A freshly allocated run is a valid allocation: its address maps back
    /// to its block index, the run lies inside the region, and no free chunk
    /// of the state after the allocation overlaps it.
    proof fn lemma_valid_fresh(&self, s0: Self, addr: usize, sb: usize, ab: usize, layout: Layout)
        requires
            self.wf(),
            s0.wf(),
            self.region_base() == s0.region_base(),
            layout.size > 0,
            1 <= ab,
            sb as int == blocks_for(layout.size as int, B as int),
            ({
                let c = s0.chunks();
                let off = s0.off();
                let ff = first_fit(c, sb as int, ab as int, off);
                &&& ff != -1
                &&& addr as int == s0.region_base() + (c[ff].0 + front_pad(
                    off + c[ff].0,
                    ab as int,
                )) * (B as int)
                &&& c[ff].0 + front_pad(off + c[ff].0, ab as int) + sb <= L
                &&& range_disjoint(
                    self.chunks(),
                    c[ff].0 + front_pad(off + c[ff].0, ab as int),
                    sb as int,
                )
            }),
        ensures
            self.valid_alloc(addr, layout),
            self.in_bounds_spec(addr as int),
            s0.in_bounds_spec(addr as int),
            ({
                let c = s0.chunks();
                let off = s0.off();
                let ff = first_fit(c, sb as int, ab as int, off);
                (addr - s0.region_base()) / (B as int) == c[ff].0 + front_pad(
                    off + c[ff].0,
                    ab as int,
                )
            }),
    {
        let c = s0.chunks();
        let off = s0.off();
        let ff = first_fit(c, sb as int, ab as int, off);
        lemma_first_fit_range(c, sb as int, ab as int, off, 0);
        lemma_first_fit_fits(c, sb as int, ab as int, off);
        vstd::arithmetic::div_mod::lemma_div_pos_is_pos(s0.region_base(), B as int);
        s0.lemma_wf_chunks();
        assert(chunk_in_bounds(c, L as int, ff));
        lemma_pad_aligns(off + c[ff].0, ab as int);
        let pad = front_pad(off + c[ff].0, ab as int);
        let i = c[ff].0 + pad;
        let ba = s0.region_base();
        assert(addr as int - ba == i * (B as int)) by (nonlinear_arith)
            requires
                addr as int == ba + i * (B as int),
        ;
        assert(i * (B as int) == (B as int) * i + 0) by (nonlinear_arith);
        vstd::arithmetic::div_mod::lemma_fundamental_div_mod_converse_div(
            i * (B as int),
            B as int,
            i,
            0,
        );
        vstd::arithmetic::div_mod::lemma_fundamental_div_mod_converse_mod(
            i * (B as int),
            B as int,
            i,
            0,
        );
        assert(i * (B as int) >= 0) by (nonlinear_arith)
            requires
                i >= 0,
                B as int >= 1,
        ;
        assert(ba + (L as int) * (B as int) > addr as int) by (nonlinear_arith)
            requires
                addr as int == ba + i * (B as int),
                i + sb <= L as int,
                1 <= sb as int,
                1 <= B as int,
        ;
    }

    /// An address of a valid allocation of a non-empty layout lies within
    /// the region.
    pub proof fn lemma_valid_in_bounds(&self, ptr: usize, layout: Layout)
        requires
            self.wf(),
            layout.size > 0,
            self.valid_alloc(ptr, layout),
        ensures
            self.in_bounds_spec(ptr as int),
    {
        let ba = self.region_base();
        let idx = (ptr - ba) / (B as int);
        let blocks = blocks_for(layout.size as int, B as int);
        vstd::arithmetic::div_mod::lemma_fundamental_div_mod(ptr as int - ba, B as int);
        vstd::arithmetic::div_mod::lemma_div_pos_is_pos(ptr as int - ba, B as int);
        assert(1 <= blocks) by {
            vstd::arithmetic::div_mod::lemma_div_pos_is_pos(
                layout.size as int - 1,
                B as int,
            );
        }
        assert(ba + (L as int) * (B as int) > ptr as int) by (nonlinear_arith)
            requires
                ptr as int - ba == (B as int) * idx + 0,
                idx + blocks <= L as int,
                1 <= blocks,
                0 <= idx,
                1 <= B as int,
        ;
    }
}

impl<const L: usize, const B: usize> ChainableAlloc for Stalloc<L, B> {
    /// The allocator claims exactly the addresses of its region.
    open spec fn in_bounds_spec(&self, addr: int) -> bool {
        self.region_base() <= addr < self.region_base() + L * B
    }

    fn addr_in_bounds(&self, addr: usize) -> (r: bool) {
        let r = B >= 1 && addr >= self.base_addr && (addr - self.base_addr) / B < L;
        proof {
            if B >= 1 && addr >= self.base_addr {
                let d = addr as int - self.base_addr as int;
                vstd::arithmetic::div_mod::lemma_fundamental_div_mod(d, B as int);
                vstd::arithmetic::div_mod::lemma_mod_division_less_than_divisor(d, B as int);
                assert((d / (B as int) < L as int) == (d < (L as int) * (B as int)))
                    by (nonlinear_arith)
                    requires
                        d == (B as int) * (d / (B as int)) + d % (B as int),
                        0 <= d % (B as int) < B as int,
                        1 <= B as int,
                        0 <= L as int,
                ;
            }
        }
        r
    }
}

impl<const L: usize, const B: usize> Allocator for Stalloc<L, B> {
    open spec fn alloc_wf(&self) -> bool {
        self.wf()
    }

    /// A live allocation of `blocks_for(layout.size)` blocks: its address is
    /// block-aligned within the region, the run lies inside the region, and
    /// no block of the run belongs to a free chunk.
    open spec fn valid_alloc(&self, ptr: usize, layout: Layout) -> bool {
        let idx = (ptr - self.region_base()) / (B as int);
        let blocks = blocks_for(layout.size as int, B as int);
        &&& self.region_base() <= ptr
        &&& (ptr - self.region_base()) % (B as int) == 0
        &&& idx + blocks <= L
        &&& range_disjoint(self.chunks(), idx, blocks)
    }

    /// The exact transition of one `allocate` call: a zero-size request
    /// returns the alignment as a dangling address and changes nothing; a
    /// non-empty request succeeds exactly when the rounded request has a
    /// first fit, serving it at the first-fit address.
    open spec fn allocate_post(pre: Self, post: Self, layout: Layout, r: Result<usize, AllocError>) -> bool {
        let c = pre.chunks();
        let sb = blocks_for(layout.size as int, B as int);
        let ab = blocks_for(layout.align as int, B as int);
        let off = pre.off();
        let ff = first_fit(c, sb, ab, off);
        &&& post.region_base() == pre.region_base()
        &&& (layout.size == 0 ==> r == Ok::<usize, AllocError>(layout.align) && post == pre)
        &&& (layout.size > 0 ==> {
            &&& (r is Err <==> ff == -1)
            &&& (r is Err ==> post == pre)
            &&& (ff != -1 ==> r is Ok && post.chunks() == alloc_update(c, ff, sb, ab, off)
                && r->Ok_0 as int == pre.region_base() + (c[ff].0 + front_pad(off + c[ff].0, ab))
                    * B && free_total(post.chunks()) == free_total(c) - sb)
        })
    }

    /// The exact transition of one `deallocate` call: a zero-size layout
    /// changes nothing; otherwise the freed run rejoins the free list,
    /// coalesced with its neighbours.
    open spec fn deallocate_post(pre: Self, post: Self, ptr: usize, layout: Layout) -> bool {
        let idx = (ptr - pre.region_base()) / (B as int);
        let blocks = blocks_for(layout.size as int, B as int);
        &&& post.region_base() == pre.region_base()
        &&& (layout.size == 0 ==> post == pre)
        &&& (layout.size > 0 ==> {
            &&& post.chunks() == dealloc_update(pre.chunks(), idx, blocks)
            &&& !post.is_oom_spec()
            &&& free_total(post.chunks()) == free_total(pre.chunks()) + blocks
        })
    }

    /// The exact transition of one `grow` call: unchanged block counts keep
    /// the address; otherwise the allocation grows in place exactly when the
    /// adjacent chunk has room, and moves to the first fit otherwise, the
    /// old run freed. Fails, changing nothing, exactly when neither works.
    open spec fn grow_post(
        pre: Self,
        post: Self,
        ptr: usize,
        old_layout: Layout,
        new_layout: Layout,
        r: Result<usize, AllocError>,
    ) -> bool {
        let c = pre.chunks();
        let ob = blocks_for(old_layout.size as int, B as int);
        let nb = blocks_for(new_layout.size as int, B as int);
        let ab = blocks_for(new_layout.align as int, B as int);
        let off = pre.off();
        let idx = (ptr - pre.region_base()) / (B as int);
        let ff = first_fit(c, nb, ab, off);
        let fresh = pre.region_base() + (c[ff].0 + front_pad(off + c[ff].0, ab)) * B;
        &&& post.region_base() == pre.region_base()
        &&& (r is Err ==> post == pre)
        &&& (nb == ob ==> r == Ok::<usize, AllocError>(ptr) && post == pre)
        &&& (nb != ob && ob == 0 ==> {
            &&& (r is Err <==> ff == -1)
            &&& (ff != -1 ==> r is Ok && r->Ok_0 as int == fresh && post.chunks() == alloc_update(
                c,
                ff,
                nb,
                ab,
                off,
            ))
        })
        &&& (nb != ob && ob > 0 ==> {
            &&& (grow_ok(c, idx, ob, nb) ==> r == Ok::<usize, AllocError>(ptr) && post.chunks()
                == split_update(c, insert_pos(c, idx), 0, nb - ob))
            &&& (!grow_ok(c, idx, ob, nb) ==> {
                &&& (r is Err <==> ff == -1)
                &&& (ff != -1 ==> r is Ok && r->Ok_0 as int == fresh && post.chunks()
                    == dealloc_update(alloc_update(c, ff, nb, ab, off), idx, ob))
            })
        })
    }

    /// The exact transition of one `shrink` call: a zero new size frees the
    /// allocation and returns a dangling address; an address satisfying the
    /// new alignment shrinks in place; otherwise the allocation moves to the
    /// first fit at the stricter alignment, the old run freed. Fails,
    /// changing nothing, exactly when that move finds no fit.
    open spec fn shrink_post(
        pre: Self,
        post: Self,
        ptr: usize,
        old_layout: Layout,
        new_layout: Layout,
        r: Result<usize, AllocError>,
    ) -> bool {
        let c = pre.chunks();
        let ob = blocks_for(old_layout.size as int, B as int);
        let nb = blocks_for(new_layout.size as int, B as int);
        let ab = new_layout.align as int / (B as int);
        let off = pre.off();
        let idx = (ptr - pre.region_base()) / (B as int);
        let ff = first_fit(c, nb, ab, off);
        let fresh = pre.region_base() + (c[ff].0 + front_pad(off + c[ff].0, ab)) * B;
        &&& post.region_base() == pre.region_base()
        &&& (r is Err ==> post == pre)
        &&& (nb == 0 ==> {
            &&& r == Ok::<usize, AllocError>(new_layout.align)
            &&& (ob == 0 ==> post == pre)
            &&& (ob > 0 ==> post.chunks() == dealloc_update(c, idx, ob))
        })
        &&& (nb > 0 && ptr as int % new_layout.align as int == 0 ==> r == Ok::<usize, AllocError>(ptr)
            && (nb == ob ==> post == pre)
            && (nb < ob ==> post.chunks() == shrink_update(c, idx, ob, nb)))
        &&& (nb > 0 && ptr as int % new_layout.align as int != 0 ==> {
            &&& (r is Err <==> ff == -1)
            &&& (ff != -1 ==> r is Ok && r->Ok_0 as int == fresh && post.chunks()
                == dealloc_update(alloc_update(c, ff, nb, ab, off), idx, ob))
        })
    }

    /// First-fit allocation. The request is rounded up to whole blocks and
    /// the alignment to whole blocks; a zero-size request returns the
    /// alignment itself as a dangling address. Fails, changing nothing,
    /// exactly when no free chunk can hold an aligned run of the rounded
    /// size.
    fn allocate(&mut self, layout: Layout) -> (r: Result<usize, AllocError>)
    {
        if layout.size == 0 {
            proof {
                vstd::arithmetic::div_mod::lemma_mod_multiples_basic(1, layout.align as int);
                assert(1 * (layout.align as int) == layout.align as int) by (nonlinear_arith);
            }
            return Ok(layout.align);
        }
        let size_blocks = Self::blocks_of(layout.size);
        let align_blocks = Self::align_blocks_of(layout.align);
        let r = self.allocate_blocks(size_blocks, align_blocks);
        match r {
            Ok(addr) => {
                proof {
                    let c = old(self).chunks();
                    let off = old(self).off();
                    let ff = first_fit(c, size_blocks as int, align_blocks as int, off);
                    old(self).lemma_wf_chunks();
                    lemma_first_fit_range(c, size_blocks as int, align_blocks as int, off, 0);
                    lemma_first_fit_fits(c, size_blocks as int, align_blocks as int, off);
                    assert(chunk_in_bounds(c, L as int, ff));
                    vstd::arithmetic::div_mod::lemma_div_pos_is_pos(
                        old(self).region_base(),
                        B as int,
                    );
                    lemma_pad_aligns(off + c[ff].0, align_blocks as int);
                    let pad = front_pad(off + c[ff].0, align_blocks as int);
                    let i = c[ff].0 + pad;
                    let ba = old(self).region_base();
                    // the address maps back to the block index
                    assert(addr as int - ba == i * (B as int)) by (nonlinear_arith)
                        requires
                            addr as int == ba + i * (B as int),
                    ;
                    vstd::arithmetic::div_mod::lemma_fundamental_div_mod_converse_div(
                        i * (B as int),
                        B as int,
                        i,
                        0,
                    );
                    vstd::arithmetic::div_mod::lemma_fundamental_div_mod_converse_mod(
                        i * (B as int),
                        B as int,
                        i,
                        0,
                    );
                    assert(i * (B as int) == (B as int) * i + 0) by (nonlinear_arith);
                    // the run lies inside the region
                    assert(i * (B as int) >= 0) by (nonlinear_arith)
                        requires
                            i >= 0,
                            B as int >= 1,
                    ;
                    assert(ba + (L as int) * (B as int) > addr as int) by (nonlinear_arith)
                        requires
                            addr as int == ba + i * (B as int),
                            i + size_blocks <= L as int,
                            1 <= size_blocks as int,
                            1 <= B as int,
                    ;
                    // block alignment implies the requested byte alignment
                    assert(align_blocks as int * B as int >= 1) by (nonlinear_arith)
                        requires
                            align_blocks as int >= 1,
                            B as int >= 1,
                    ;
                    lemma_divides_trans(
                        addr as int,
                        align_blocks as int * B as int,
                        layout.align as int,
                    );
                }
                Ok(addr)
            },
            Err(e) => Err(e),
        }
    }

    /// Frees the allocation, coalescing the freed run with its free
    /// neighbours. A zero-size layout is a no-op; otherwise the freed blocks
    /// rejoin the free list and the allocator is no longer out of memory.
    fn deallocate(&mut self, ptr: usize, layout: Layout)
    {
        if layout.size == 0 {
            return ;
        }
        let size_blocks = Self::blocks_of(layout.size);
        self.deallocate_blocks(ptr, size_blocks);
    }

    /// Grows the allocation: in place when the free chunk after it has room,
    /// else by allocating a new run, moving, and freeing the old run. When
    /// the old size was zero the address was dangling and a fresh run is
    /// allocated. Fails, changing nothing, when no room can be found.
    fn grow(&mut self, ptr: usize, old_layout: Layout, new_layout: Layout) -> (r: Result<
        usize,
        AllocError,
    >)
    {
        let old_b = Self::blocks_of(old_layout.size);
        let new_b = Self::blocks_of(new_layout.size);
        proof {
            vstd::arithmetic::div_mod::lemma_div_is_ordered(
                old_layout.size as int - 1,
                new_layout.size as int - 1,
                B as int,
            );
        }
        if new_b == old_b {
            proof {
                if new_layout.size > 0 {
                    assert(old_layout.size > 0);
                    assert(blocks_for(new_layout.size as int, B as int) == blocks_for(
                        old_layout.size as int,
                        B as int,
                    ));
                    self.lemma_valid_in_bounds(ptr, new_layout);
                }
            }
            return Ok(ptr);
        }
        let align_blocks = Self::align_blocks_of(new_layout.align);
        if old_b == 0 {
            let r = self.allocate_blocks(new_b, align_blocks);
            match r {
                Ok(addr) => {
                    proof {
                        self.lemma_valid_fresh(
                            *old(self),
                            addr,
                            new_b,
                            align_blocks,
                            new_layout,
                        );
                    }
                    Ok(addr)
                },
                Err(e) => Err(e),
            }
        } else {
            let ri = self.grow_in_place(ptr, old_b, new_b);
            match ri {
                Ok(_) => {
                    proof {
                        let c = old(self).chunks();
                        let l = L as int;
                        let idx = (ptr - old(self).region_base()) / (B as int);
                        let p = insert_pos(c, idx);
                        old(self).lemma_wf_chunks();
                        lemma_split_update_props(c, l, p, 0, new_b as int - old_b as int);
                        lemma_split_update_disjoint_mono(
                            c,
                            p,
                            0,
                            new_b as int - old_b as int,
                            idx,
                            old_b as int,
                        );
                        final(self).lemma_wf_chunks();
                        lemma_range_disjoint_join(
                            final(self).chunks(),
                            l,
                            idx,
                            old_b as int,
                            new_b as int - old_b as int,
                        );
                        final(self).lemma_valid_in_bounds(ptr, new_layout);
                    }
                    Ok(ptr)
                },
                Err(_) => {
                    let r = self.allocate_blocks(new_b, align_blocks);
                    match r {
                        Ok(addr) => {
                            proof {
                                self.lemma_valid_fresh(
                                    *old(self),
                                    addr,
                                    new_b,
                                    align_blocks,
                                    new_layout,
                                );
                                let c = old(self).chunks();
                                let off = old(self).off();
                                let idx = (ptr - old(self).region_base()) / (B as int);
                                let ff = first_fit(c, new_b as int, align_blocks as int, off);
                                lemma_first_fit_range(c, new_b as int, align_blocks as int, off, 0);
                                lemma_first_fit_fits(c, new_b as int, align_blocks as int, off);
                                lemma_split_update_disjoint_mono(
                                    c,
                                    ff,
                                    front_pad(off + c[ff].0, align_blocks as int),
                                    new_b as int,
                                    idx,
                                    old_b as int,
                                );
                            }
                            let ghost mid = *self;
                            self.deallocate_blocks(ptr, old_b);
                            proof {
                                let c = old(self).chunks();
                                let off = old(self).off();
                                let idx = (ptr - old(self).region_base()) / (B as int);
                                let new_idx = (addr - old(self).region_base()) / (B as int);
                                let ff = first_fit(c, new_b as int, align_blocks as int, off);
                                old(self).lemma_wf_chunks();
                                lemma_first_fit_range(c, new_b as int, align_blocks as int, off, 0);
                                lemma_first_fit_fits(c, new_b as int, align_blocks as int, off);
                                assert(chunk_in_bounds(c, L as int, ff));
                                vstd::arithmetic::div_mod::lemma_div_pos_is_pos(
                                    old(self).region_base(),
                                    B as int,
                                );
                                lemma_pad_aligns(off + c[ff].0, align_blocks as int);
                                mid.lemma_wf_chunks();
                                assert(idx + old_b <= c[ff].0 || c[ff].0 + c[ff].1 <= idx);
                                lemma_dealloc_update_disjoint_mono(
                                    mid.chunks(),
                                    L as int,
                                    idx,
                                    old_b as int,
                                    new_idx,
                                    new_b as int,
                                );
                            }
                            Ok(addr)
                        },
                        Err(e) => Err(e),
                    }
                },
            }
        }
    }

    /// Shrinks the allocation. A zero new size frees the allocation and
    /// returns a dangling address; an address that no longer satisfies the
    /// new alignment forces a move; otherwise the allocation shrinks in
    /// place at the same address, and equal rounded sizes change nothing.
    fn shrink(&mut self, ptr: usize, old_layout: Layout, new_layout: Layout) -> (r: Result<
        usize,
        AllocError,
    >)
    {
        let old_b = Self::blocks_of(old_layout.size);
        let new_b = Self::blocks_of(new_layout.size);
        proof {
            vstd::arithmetic::div_mod::lemma_div_is_ordered(
                new_layout.size as int - 1,
                old_layout.size as int - 1,
                B as int,
            );
        }
        if new_b == 0 {
            if old_b != 0 {
                self.deallocate_blocks(ptr, old_b);
            }
            proof {
                vstd::arithmetic::div_mod::lemma_mod_multiples_basic(1, new_layout.align as int);
                assert(1 * (new_layout.align as int) == new_layout.align as int)
                    by (nonlinear_arith);
            }
            return Ok(new_layout.align);
        }
        if ptr % new_layout.align != 0 {
            // the address is not aligned for the new layout: the block
            // alignment B divides the old address, so the new alignment must
            // exceed B, and a fresh aligned run is needed
            proof {
                let ba = old(self).region_base();
                vstd::arithmetic::div_mod::lemma_fundamental_div_mod(
                    ptr as int - ba,
                    B as int,
                );
                vstd::arithmetic::div_mod::lemma_add_mod_noop(ba, ptr as int - ba, B as int);
                assert(ptr as int % (B as int) == 0);
                if new_layout.align <= B {
                    lemma_pow2_le_divides(new_layout.align as int, B as int);
                    lemma_divides_trans(ptr as int, B as int, new_layout.align as int);
                }
                assert(new_layout.align > B);
                lemma_pow2_le_divides(B as int, new_layout.align as int);
            }
            let ab = new_layout.align / B;
            proof {
                let q = new_layout.align as int / (B as int);
                vstd::arithmetic::div_mod::lemma_fundamental_div_mod(
                    new_layout.align as int,
                    B as int,
                );
                assert(q * (B as int) == new_layout.align as int) by (nonlinear_arith)
                    requires
                        new_layout.align as int == (B as int) * q + 0,
                ;
            }
            let r = self.allocate_blocks(new_b, ab);
            match r {
                Ok(addr) => {
                    proof {
                        let c = old(self).chunks();
                        let off = old(self).off();
                        let idx = (ptr - old(self).region_base()) / (B as int);
                        let ff = first_fit(c, new_b as int, ab as int, off);
                        lemma_first_fit_range(c, new_b as int, ab as int, off, 0);
                        lemma_first_fit_fits(c, new_b as int, ab as int, off);
                        lemma_split_update_disjoint_mono(
                            c,
                            ff,
                            front_pad(off + c[ff].0, ab as int),
                            new_b as int,
                            idx,
                            old_b as int,
                        );
                    }
                    let ghost mid = *self;
                    proof {
                        self.lemma_valid_fresh(*old(self), addr, new_b, ab, new_layout);
                    }
                    self.deallocate_blocks(ptr, old_b);
                    proof {
                        let c = old(self).chunks();
                        let off = old(self).off();
                        let idx = (ptr - old(self).region_base()) / (B as int);
                        let new_idx = (addr - old(self).region_base()) / (B as int);
                        let ff = first_fit(c, new_b as int, ab as int, off);
                        old(self).lemma_wf_chunks();
                        lemma_first_fit_range(c, new_b as int, ab as int, off, 0);
                        lemma_first_fit_fits(c, new_b as int, ab as int, off);
                        assert(chunk_in_bounds(c, L as int, ff));
                        vstd::arithmetic::div_mod::lemma_div_pos_is_pos(
                            old(self).region_base(),
                            B as int,
                        );
                        lemma_pad_aligns(off + c[ff].0, ab as int);
                        mid.lemma_wf_chunks();
                        assert(idx + old_b <= c[ff].0 || c[ff].0 + c[ff].1 <= idx);
                        lemma_dealloc_update_disjoint_mono(
                            mid.chunks(),
                            L as int,
                            idx,
                            old_b as int,
                            new_idx,
                            new_b as int,
                        );
                    }
                    Ok(addr)
                },
                Err(e) => Err(e),
            }
        } else if old_b == new_b {
            proof {
                if new_layout.size > 0 {
                    assert(old_layout.size > 0);
                    assert(blocks_for(new_layout.size as int, B as int) == blocks_for(
                        old_layout.size as int,
                        B as int,
                    ));
                    self.lemma_valid_in_bounds(ptr, new_layout);
                }
            }
            Ok(ptr)
        } else {
            let ghost c = old(self).chunks();
            let ghost idx = (ptr - old(self).region_base()) / (B as int);
            self.shrink_in_place(ptr, old_b, new_b);
            proof {
                old(self).lemma_wf_chunks();
                lemma_range_disjoint_sub(c, idx, old_b as int, idx + new_b, old_b - new_b);
                lemma_range_disjoint_sub(c, idx, old_b as int, idx, new_b as int);
                lemma_dealloc_update_disjoint_mono(
                    c,
                    L as int,
                    idx + new_b,
                    old_b - new_b,
                    idx,
                    new_b as int,
                );
                final(self).lemma_valid_in_bounds(ptr, new_layout);
            }
            Ok(ptr)
        }
    }
}

} // verus!
