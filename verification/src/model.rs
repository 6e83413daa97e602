//! The abstract model of the free list.
//!
//! A free list is modelled as a sequence of chunks `(start, length)`, in list
//! order, measured in blocks. The concrete allocator maintains a linked chain
//! of headers; its contracts state every mutation as a pure function on this
//! sequence, defined here together with the laws those functions obey.

use vstd::prelude::*;

verus! {

/// One chunk lies inside the region of `l` blocks and is non-empty.
pub open spec fn chunk_in_bounds(c: Seq<(int, int)>, l: int, k: int) -> bool {
    0 <= c[k].0 && 1 <= c[k].1 && c[k].0 + c[k].1 <= l
}

/// Well-formedness of a free list of a region of `l` blocks: every chunk is
/// in bounds, and successive chunks are strictly increasing and separated by
/// at least one allocated block (adjacent free chunks are always coalesced).
pub open spec fn chunks_wf(c: Seq<(int, int)>, l: int) -> bool {
    &&& forall|k: int| 0 <= k < c.len() ==> chunk_in_bounds(c, l, k)
    &&& forall|k: int| 0 <= k < c.len() - 1 ==> #[trigger] c[k].0 + c[k].1 < c[k + 1].0
}

/// The number of free blocks: the sum of all chunk lengths.
pub open spec fn free_total(c: Seq<(int, int)>) -> int
    decreases c.len(),
{
    if c.len() == 0 {
        0
    } else {
        c[0].1 + free_total(c.drop_first())
    }
}

/// True when the block range `[i, i + size)` overlaps no free chunk.
/// Every range handed out by the allocator satisfies this until it is freed.
pub open spec fn range_disjoint(c: Seq<(int, int)>, i: int, size: int) -> bool {
    forall|k: int| 0 <= k < c.len() ==> i + size <= #[trigger] c[k].0 || c[k].0 + c[k].1 <= i
}

/// The position at which a chunk starting at block `i` would be inserted to
/// keep the sequence sorted: the number of chunks that start before `i`.
pub open spec fn insert_pos(c: Seq<(int, int)>, i: int) -> int
    decreases c.len(),
{
    if c.len() == 0 {
        0
    } else if c[0].0 >= i {
        0
    } else {
        1 + insert_pos(c.drop_first(), i)
    }
}

/// The padding in blocks needed in front of a run beginning at block position
/// `pos` of the address space (region base divided by the block size, plus the
/// block index) so that the run is aligned to `align` blocks.
pub open spec fn front_pad(pos: int, align: int) -> int {
    if pos % align == 0 {
        0
    } else {
        align - pos % align
    }
}

/// True when chunk `k` can serve a request of `size` blocks aligned to
/// `align` blocks, for a region whose base address is `off * B`.
pub open spec fn chunk_fits(c: Seq<(int, int)>, k: int, size: int, align: int, off: int) -> bool {
    front_pad(off + c[k].0, align) + size <= c[k].1
}

/// The position of the first chunk that can serve the request, searching from
/// position `k`; `-1` when none can.
pub open spec fn first_fit_from(
    c: Seq<(int, int)>,
    size: int,
    align: int,
    off: int,
    k: int,
) -> int
    decreases c.len() - k,
{
    if k < 0 || k >= c.len() {
        -1
    } else if chunk_fits(c, k, size, align, off) {
        k
    } else {
        first_fit_from(c, size, align, off, k + 1)
    }
}

/// The position of the first chunk that can serve the request; `-1` when the
/// request cannot be served.
pub open spec fn first_fit(c: Seq<(int, int)>, size: int, align: int, off: int) -> int {
    first_fit_from(c, size, align, off, 0)
}

/// The free list after a run of `size` blocks is carved out of chunk `k`,
/// skipping `pad` blocks at the chunk's front: the chunk is replaced by what
/// is left of it in front of the run (when `pad` is non-zero) and behind the
/// run (when the run does not reach the chunk's end).
pub open spec fn split_update(c: Seq<(int, int)>, k: int, pad: int, size: int) -> Seq<(int, int)> {
    let idx = c[k].0 + pad;
    let back = c[k].1 - pad - size;
    let front_part = if pad > 0 {
        seq![(c[k].0, pad)]
    } else {
        Seq::<(int, int)>::empty()
    };
    let back_part = if back > 0 {
        seq![(idx + size, back)]
    } else {
        Seq::<(int, int)>::empty()
    };
    c.take(k) + front_part + back_part + c.skip(k + 1)
}

/// The free list after serving a request from chunk `k`, with the padding
/// dictated by the requested alignment.
pub open spec fn alloc_update(
    c: Seq<(int, int)>,
    k: int,
    size: int,
    align: int,
    off: int,
) -> Seq<(int, int)> {
    split_update(c, k, front_pad(off + c[k].0, align), size)
}

/// The free list after the block range `[i, i + size)` is returned: the range
/// becomes a chunk at its sorted position, merged with the chunk before it
/// and the chunk after it wherever those are directly adjacent.
pub open spec fn dealloc_update(c: Seq<(int, int)>, i: int, size: int) -> Seq<(int, int)> {
    let k = insert_pos(c, i);
    let merge_next = k < c.len() && i + size == c[k].0;
    let merge_prev = k > 0 && c[k - 1].0 + c[k - 1].1 == i;
    let lo = if merge_prev { c[k - 1].0 } else { i };
    let len = (if merge_prev { c[k - 1].1 } else { 0 }) + size + (if merge_next { c[k].1 } else { 0 });
    let before = if merge_prev { c.take(k - 1) } else { c.take(k) };
    let after = if merge_next { c.skip(k + 1) } else { c.skip(k) };
    before + seq![(lo, len)] + after
}

/// True when an allocation of `old_size` blocks at block `i` can grow in
/// place: some free chunk begins exactly where the allocation ends and has
/// room for the missing blocks.
pub open spec fn grow_ok(c: Seq<(int, int)>, i: int, old_size: int, new_size: int) -> bool {
    exists|k: int|
        0 <= k < c.len() && #[trigger] c[k].0 == i + old_size && new_size - old_size <= c[k].1
}

/// The free list after an allocation of `old_size` blocks at block `i` shrank
/// to `new_size` blocks: the trailing blocks become a free chunk, merged with
/// the chunk after them when directly adjacent.
pub open spec fn shrink_update(c: Seq<(int, int)>, i: int, old_size: int, new_size: int) -> Seq<
    (int, int),
> {
    dealloc_update(c, i + new_size, old_size - new_size)
}

/// The number of free blocks in a concatenation is the sum over the parts.
pub proof fn lemma_free_total_concat(a: Seq<(int, int)>, b: Seq<(int, int)>)
    ensures
        free_total(a + b) == free_total(a) + free_total(b),
    decreases a.len(),
{
    if a.len() == 0 {
        assert(a + b =~= b);
    } else {
        assert((a + b).drop_first() =~= a.drop_first() + b);
        lemma_free_total_concat(a.drop_first(), b);
        assert((a + b)[0] == a[0]);
        assert(free_total(a + b) == (a + b)[0].1 + free_total((a + b).drop_first()));
    }
}

/// The number of free blocks, split at the chunk in position `k`.
pub proof fn lemma_free_total_split(c: Seq<(int, int)>, k: int)
    requires
        0 <= k < c.len(),
    ensures
        free_total(c) == free_total(c.take(k)) + c[k].1 + free_total(c.skip(k + 1)),
{
    assert(c =~= c.take(k) + seq![c[k]] + c.skip(k + 1));
    lemma_free_total_concat(c.take(k) + seq![c[k]], c.skip(k + 1));
    lemma_free_total_concat(c.take(k), seq![c[k]]);
    assert(free_total(seq![c[k]]) == c[k].1 + free_total(seq![c[k]].drop_first()));
    assert(seq![c[k]].drop_first().len() == 0);
}

/// Skipping over positions whose chunks cannot serve the request does not
/// change where the first fit is found.
pub proof fn lemma_first_fit_step(
    c: Seq<(int, int)>,
    size: int,
    align: int,
    off: int,
    m: int,
    j: int,
)
    requires
        0 <= m <= j <= c.len(),
        forall|i: int| m <= i < j ==> !chunk_fits(c, i, size, align, off),
    ensures
        first_fit_from(c, size, align, off, m) == first_fit_from(c, size, align, off, j),
    decreases j - m,
{
    if m < j {
        assert(!chunk_fits(c, m, size, align, off));
        lemma_first_fit_step(c, size, align, off, m + 1, j);
    }
}

/// The padding put in front of a run makes the run start at a multiple of the
/// alignment, and is always smaller than the alignment.
pub proof fn lemma_pad_aligns(pos: int, align: int)
    requires
        align >= 1,
        pos >= 0,
    ensures
        0 <= front_pad(pos, align) < align,
        (pos + front_pad(pos, align)) % align == 0,
{
    let r = pos % align;
    vstd::arithmetic::div_mod::lemma_fundamental_div_mod(pos, align);
    vstd::arithmetic::div_mod::lemma_mod_division_less_than_divisor(pos, align);
    if r == 0 {
    } else {
        let q = pos / align;
        assert(pos + (align - r) == (q + 1) * align) by (nonlinear_arith)
            requires
                pos == align * q + r,
        ;
        vstd::arithmetic::div_mod::lemma_mod_multiples_basic(q + 1, align);
    }
}

/// A run whose block position is a multiple of the alignment sits at an
/// address that is a multiple of both the block size and the alignment in
/// bytes.
pub proof fn lemma_alloc_aligned(base: int, i: int, align: int, b: int)
    requires
        b >= 1,
        align >= 1,
        base >= 0,
        i >= 0,
        base % b == 0,
        (base / b + i) % align == 0,
    ensures
        (base + i * b) % b == 0,
        (base + i * b) % (align * b) == 0,
{
    let q = base / b;
    vstd::arithmetic::div_mod::lemma_fundamental_div_mod(base, b);
    let s = q + i;
    let t = s / align;
    vstd::arithmetic::div_mod::lemma_fundamental_div_mod(s, align);
    assert(base + i * b == s * b) by (nonlinear_arith)
        requires
            base == b * q + 0,
            s == q + i,
    ;
    assert(s * b == t * (align * b)) by (nonlinear_arith)
        requires
            s == align * t + 0,
    ;
    assert(align * b > 0) by (nonlinear_arith)
        requires
            align >= 1,
            b >= 1,
    ;
    vstd::arithmetic::div_mod::lemma_mod_multiples_basic(t, align * b);
    vstd::arithmetic::div_mod::lemma_mod_multiples_basic(t * align, b);
    assert(s * b == (t * align) * b) by (nonlinear_arith)
        requires
            s == align * t + 0,
    ;
}

/// Carving a run out of a chunk removes exactly `size` blocks from the free
/// list, the run lies inside the region, and no chunk of the new free list
/// overlaps it.
pub proof fn lemma_split_update_props(c: Seq<(int, int)>, l: int, k: int, pad: int, size: int)
    requires
        chunks_wf(c, l),
        0 <= k < c.len(),
        0 <= pad,
        1 <= size,
        pad + size <= c[k].1,
    ensures
        ({
            let idx = c[k].0 + pad;
            &&& 0 <= idx && idx + size <= l
            &&& free_total(split_update(c, k, pad, size)) == free_total(c) - size
            &&& range_disjoint(split_update(c, k, pad, size), idx, size)
        }),
{
    let idx = c[k].0 + pad;
    let back = c[k].1 - pad - size;
    assert(chunk_in_bounds(c, l, k));
    let front_part = if pad > 0 {
        seq![(c[k].0, pad)]
    } else {
        Seq::<(int, int)>::empty()
    };
    let back_part = if back > 0 {
        seq![(idx + size, back)]
    } else {
        Seq::<(int, int)>::empty()
    };
    let u = split_update(c, k, pad, size);
    assert(u == c.take(k) + front_part + back_part + c.skip(k + 1));
    lemma_free_total_concat(c.take(k) + front_part + back_part, c.skip(k + 1));
    lemma_free_total_concat(c.take(k) + front_part, back_part);
    lemma_free_total_concat(c.take(k), front_part);
    lemma_free_total_split(c, k);
    if pad > 0 {
        assert(free_total(front_part) == pad + free_total(front_part.drop_first()));
        assert(front_part.drop_first().len() == 0);
    }
    if back > 0 {
        assert(free_total(back_part) == back + free_total(back_part.drop_first()));
        assert(back_part.drop_first().len() == 0);
    }
    let nf: int = front_part.len() as int;
    let nb: int = back_part.len() as int;
    assert forall|j: int| 0 <= j < u.len() implies idx + size <= #[trigger] u[j].0 || u[j].0
        + u[j].1 <= idx by {
        if j < k {
            assert(u[j] == c[j]);
            lemma_chunks_ordered(c, l, j, k);
        } else if j < k + nf {
            assert(u[j] == (c[k].0, pad));
        } else if j < k + nf + nb {
            assert(u[j] == (idx + size, back));
        } else {
            let j2 = j - nf - nb + 1;
            assert(u[j] == c[j2]);
            lemma_chunks_ordered(c, l, k, j2);
        }
    }
}

/// In a sorted free list, `insert_pos` splits the chunks into those that
/// start before `i` and those that do not.
pub proof fn lemma_insert_pos_props(c: Seq<(int, int)>, l: int, i: int)
    requires
        chunks_wf(c, l),
    ensures
        0 <= insert_pos(c, i) <= c.len(),
        forall|j: int| 0 <= j < insert_pos(c, i) ==> #[trigger] c[j].0 < i,
        forall|j: int| insert_pos(c, i) <= j < c.len() ==> #[trigger] c[j].0 >= i,
    decreases c.len(),
{
    if c.len() > 0 {
        let rest = c.drop_first();
        lemma_wf_drop_first(c, l);
        lemma_insert_pos_props(rest, l, i);
        if c[0].0 >= i {
            assert forall|j: int| 0 <= j < c.len() implies #[trigger] c[j].0 >= i by {
                if j > 0 {
                    lemma_chunks_ordered(c, l, 0, j);
                    assert(chunk_in_bounds(c, l, 0));
                }
            }
        } else {
            let p = 1 + insert_pos(rest, i);
            assert(insert_pos(c, i) == p);
            assert forall|j: int| 0 <= j < p implies #[trigger] c[j].0 < i by {
                if j > 0 {
                    assert(rest[j - 1].0 < i);
                }
            }
            assert forall|j: int| p <= j < c.len() implies #[trigger] c[j].0 >= i by {
                assert(rest[j - 1].0 >= i);
            }
        }
    }
}

/// The position the allocator's chain walk stops at is `insert_pos`: every
/// chunk before it starts below `i`, and the chunk at it (if any) does not.
pub proof fn lemma_insert_pos_is(c: Seq<(int, int)>, l: int, i: int, p: int)
    requires
        chunks_wf(c, l),
        0 <= p <= c.len(),
        forall|j: int| 0 <= j < p ==> #[trigger] c[j].0 < i,
        p < c.len() ==> c[p].0 >= i,
    ensures
        insert_pos(c, i) == p,
{
    lemma_insert_pos_props(c, l, i);
    let q = insert_pos(c, i);
    if q < p {
        assert(c[q].0 < i);
    }
    if p < q {
        assert(c[p].0 < i);
    }
}

/// Returning a range adds exactly `size` blocks to the free list.
pub proof fn lemma_dealloc_update_total(c: Seq<(int, int)>, l: int, i: int, size: int)
    requires
        chunks_wf(c, l),
        range_disjoint(c, i, size),
        1 <= size,
        0 <= i,
    ensures
        free_total(dealloc_update(c, i, size)) == free_total(c) + size,
{
    let k = insert_pos(c, i);
    lemma_insert_pos_props(c, l, i);
    let merge_next = k < c.len() && i + size == c[k].0;
    let merge_prev = k > 0 && c[k - 1].0 + c[k - 1].1 == i;
    let lo = if merge_prev {
        c[k - 1].0
    } else {
        i
    };
    let len = (if merge_prev {
        c[k - 1].1
    } else {
        0
    }) + size + (if merge_next {
        c[k].1
    } else {
        0
    });
    let before = if merge_prev {
        c.take(k - 1)
    } else {
        c.take(k)
    };
    let after = if merge_next {
        c.skip(k + 1)
    } else {
        c.skip(k)
    };
    let u = dealloc_update(c, i, size);
    assert(u == before + seq![(lo, len)] + after);
    lemma_free_total_concat(before + seq![(lo, len)], after);
    lemma_free_total_concat(before, seq![(lo, len)]);
    assert(free_total(seq![(lo, len)]) == len + free_total(seq![(lo, len)].drop_first()));
    assert(seq![(lo, len)].drop_first().len() == 0);
    if merge_prev {
        lemma_free_total_split(c, k - 1);
        assert(free_total(c) == free_total(c.take(k - 1)) + c[k - 1].1 + free_total(c.skip(k)));
        if merge_next {
            assert(c.skip(k)[0] == c[k]);
            assert(c.skip(k).drop_first() =~= c.skip(k + 1));
            assert(free_total(c.skip(k)) == c[k].1 + free_total(c.skip(k + 1)));
        }
    } else {
        if merge_next {
            lemma_free_total_split(c, k);
        } else {
            assert(c =~= c.take(k) + c.skip(k));
            lemma_free_total_concat(c.take(k), c.skip(k));
        }
    }
}

/// When the first-fit search finds a position, the chunk there can serve the
/// request and no earlier chunk can.
pub proof fn lemma_first_fit_fits(c: Seq<(int, int)>, size: int, align: int, off: int)
    requires
        first_fit(c, size, align, off) >= 0,
    ensures
        0 <= first_fit(c, size, align, off) < c.len(),
        chunk_fits(c, first_fit(c, size, align, off), size, align, off),
    decreases c.len(),
{
    lemma_first_fit_fits_from(c, size, align, off, 0);
}

/// The first-fit search yields either `-1` or a position in the sequence.
pub proof fn lemma_first_fit_range(c: Seq<(int, int)>, size: int, align: int, off: int, m: int)
    requires
        0 <= m,
    ensures
        first_fit_from(c, size, align, off, m) == -1 || m <= first_fit_from(
            c,
            size,
            align,
            off,
            m,
        ) < c.len(),
    decreases c.len() - m,
{
    if m < c.len() && !chunk_fits(c, m, size, align, off) {
        lemma_first_fit_range(c, size, align, off, m + 1);
    }
}

/// Helper for [`lemma_first_fit_fits`], generalized over the start position.
pub proof fn lemma_first_fit_fits_from(c: Seq<(int, int)>, size: int, align: int, off: int, m: int)
    requires
        0 <= m,
        first_fit_from(c, size, align, off, m) >= 0,
    ensures
        m <= first_fit_from(c, size, align, off, m) < c.len(),
        chunk_fits(c, first_fit_from(c, size, align, off, m), size, align, off),
    decreases c.len() - m,
{
    if m < c.len() && !chunk_fits(c, m, size, align, off) {
        lemma_first_fit_fits_from(c, size, align, off, m + 1);
    }
}

/// A range disjoint from every chunk in two adjacent pieces is disjoint from
/// every chunk as a whole.
pub proof fn lemma_range_disjoint_join(c: Seq<(int, int)>, l: int, i: int, s1: int, s2: int)
    requires
        chunks_wf(c, l),
        range_disjoint(c, i, s1),
        range_disjoint(c, i + s1, s2),
        0 <= s1,
        0 <= s2,
    ensures
        range_disjoint(c, i, s1 + s2),
    decreases c.len(),
{
    assert forall|k: int| 0 <= k < c.len() implies i + (s1 + s2) <= #[trigger] c[k].0 || c[k].0
        + c[k].1 <= i by {
        assert(chunk_in_bounds(c, l, k));
        assert(i + s1 <= c[k].0 || c[k].0 + c[k].1 <= i);
        assert(i + s1 + s2 <= c[k].0 || c[k].0 + c[k].1 <= i + s1);
    }
}

/// A sub-range of a range disjoint from the free list is disjoint as well.
pub proof fn lemma_range_disjoint_sub(c: Seq<(int, int)>, i: int, size: int, i2: int, s2: int)
    requires
        range_disjoint(c, i, size),
        i <= i2,
        i2 + s2 <= i + size,
    ensures
        range_disjoint(c, i2, s2),
{
    assert forall|k: int| 0 <= k < c.len() implies i2 + s2 <= #[trigger] c[k].0 || c[k].0 + c[k].1
        <= i2 by {
        assert(i + size <= c[k].0 || c[k].0 + c[k].1 <= i);
    }
}

/// Carving a run out of a chunk only shrinks the free space, so any range
/// disjoint from the free list stays disjoint.
pub proof fn lemma_split_update_disjoint_mono(
    c: Seq<(int, int)>,
    k: int,
    pad: int,
    size: int,
    a: int,
    s: int,
)
    requires
        0 <= k < c.len(),
        0 <= pad,
        0 <= size,
        pad + size <= c[k].1,
        range_disjoint(c, a, s),
    ensures
        range_disjoint(split_update(c, k, pad, size), a, s),
{
    let u = split_update(c, k, pad, size);
    let idx = c[k].0 + pad;
    let back = c[k].1 - pad - size;
    let nf: int = if pad > 0 {
        1
    } else {
        0
    };
    let nb: int = if back > 0 {
        1
    } else {
        0
    };
    assert forall|j: int| 0 <= j < u.len() implies a + s <= #[trigger] u[j].0 || u[j].0 + u[j].1
        <= a by {
        if j < k {
            assert(u[j] == c.take(k)[j]);
            assert(a + s <= c[j].0 || c[j].0 + c[j].1 <= a);
        } else if j < k + nf {
            assert(u[j] == (c[k].0, pad));
            assert(a + s <= c[k].0 || c[k].0 + c[k].1 <= a);
        } else if j < k + nf + nb {
            assert(u[j] == (idx + size, back));
            assert(a + s <= c[k].0 || c[k].0 + c[k].1 <= a);
        } else {
            let j2 = j - nf - nb + 1;
            assert(u[j] == c.skip(k + 1)[j - k - nf - nb]);
            assert(u[j] == c[j2]);
            assert(a + s <= c[j2].0 || c[j2].0 + c[j2].1 <= a);
        }
    }
}

/// Returning a range that lies entirely after a disjoint range keeps that
/// range disjoint from the free list.
pub proof fn lemma_dealloc_update_disjoint_mono(
    c: Seq<(int, int)>,
    l: int,
    i: int,
    size: int,
    a: int,
    s: int,
)
    requires
        chunks_wf(c, l),
        range_disjoint(c, i, size),
        range_disjoint(c, a, s),
        1 <= size,
        1 <= s,
        a + s <= i || i + size <= a,
    ensures
        range_disjoint(dealloc_update(c, i, size), a, s),
{
    let k = insert_pos(c, i);
    lemma_insert_pos_props(c, l, i);
    let merge_next = k < c.len() && i + size == c[k].0;
    let merge_prev = k > 0 && c[k - 1].0 + c[k - 1].1 == i;
    let lo = if merge_prev {
        c[k - 1].0
    } else {
        i
    };
    let len = (if merge_prev {
        c[k - 1].1
    } else {
        0
    }) + size + (if merge_next {
        c[k].1
    } else {
        0
    });
    let before = if merge_prev {
        c.take(k - 1)
    } else {
        c.take(k)
    };
    let after = if merge_next {
        c.skip(k + 1)
    } else {
        c.skip(k)
    };
    let u = dealloc_update(c, i, size);
    assert(u == before + seq![(lo, len)] + after);
    let kb = before.len() as int;
    assert forall|j: int| 0 <= j < u.len() implies a + s <= #[trigger] u[j].0 || u[j].0 + u[j].1
        <= a by {
        if j < kb {
            assert(u[j] == before[j]);
            assert(before[j] == c[j]);
            assert(a + s <= c[j].0 || c[j].0 + c[j].1 <= a);
        } else if j == kb {
            assert(u[j] == (lo, len));
            // the merged chunk is the union of the freed range and at most
            // one old chunk on each side, each disjoint from `[a, a + s)`
            if merge_prev {
                assert(a + s <= c[k - 1].0 || c[k - 1].0 + c[k - 1].1 <= a);
            }
            if merge_next {
                assert(a + s <= c[k].0 || c[k].0 + c[k].1 <= a);
            }
            assert(lo + len == (if merge_next {
                c[k].0 + c[k].1
            } else {
                i + size
            }));
        } else {
            let j2 = j - kb - 1 + (if merge_next {
                k + 1
            } else {
                k
            });
            assert(u[j] == after[j - kb - 1]);
            assert(after[j - kb - 1] == c[j2]);
            assert(a + s <= c[j2].0 || c[j2].0 + c[j2].1 <= a);
        }
    }
}

/// Carving a run out of a chunk leaves a well-formed free list.
pub proof fn lemma_split_update_wf(c: Seq<(int, int)>, l: int, k: int, pad: int, size: int)
    requires
        chunks_wf(c, l),
        0 <= k < c.len(),
        0 <= pad,
        1 <= size,
        pad + size <= c[k].1,
    ensures
        chunks_wf(split_update(c, k, pad, size), l),
{
    let u = split_update(c, k, pad, size);
    let idx = c[k].0 + pad;
    let back = c[k].1 - pad - size;
    let nf: int = if pad > 0 {
        1
    } else {
        0
    };
    let nb: int = if back > 0 {
        1
    } else {
        0
    };
    assert(chunk_in_bounds(c, l, k));
    assert forall|j: int| 0 <= j < u.len() implies chunk_in_bounds(u, l, j) by {
        lemma_chunks_ordered_all(c, l, k);
        if j < k {
            assert(u[j] == c.take(k)[j]);
            assert(chunk_in_bounds(c, l, j));
        } else if j < k + nf {
            assert(u[j] == (c[k].0, pad));
        } else if j < k + nf + nb {
            assert(u[j] == (idx + size, back));
        } else {
            let j2 = j - nf - nb + 1;
            assert(u[j] == c.skip(k + 1)[j - k - nf - nb]);
            assert(u[j] == c[j2]);
            assert(chunk_in_bounds(c, l, j2));
        }
    }
    assert forall|j: int| 0 <= j < u.len() - 1 implies #[trigger] u[j].0 + u[j].1 < u[j + 1].0 by {
        lemma_chunks_ordered_all(c, l, k);
        if j < k {
            assert(u[j] == c.take(k)[j]);
            assert(chunk_in_bounds(c, l, j));
        }
        if j + 1 < k {
            assert(u[j + 1] == c.take(k)[j + 1]);
        }
        if k <= j < k + nf + nb {
            assert(u[j] == (if j < k + nf {
                (c[k].0, pad)
            } else {
                (idx + size, back)
            }));
        }
        if k <= j + 1 < k + nf + nb {
            assert(u[j + 1] == (if j + 1 < k + nf {
                (c[k].0, pad)
            } else {
                (idx + size, back)
            }));
        }
        if j >= k + nf + nb {
            assert(u[j] == c.skip(k + 1)[j - k - nf - nb]);
            assert(u[j] == c[j - nf - nb + 1]);
            assert(chunk_in_bounds(c, l, j - nf - nb + 1));
        }
        if j + 1 >= k + nf + nb {
            assert(u[j + 1] == c.skip(k + 1)[j + 1 - k - nf - nb]);
            assert(u[j + 1] == c[j - nf - nb + 2]);
            if j - nf - nb + 2 > k {
                lemma_chunks_ordered(c, l, k, j - nf - nb + 2);
            }
            if 0 <= j < k {
                lemma_chunks_ordered(c, l, j, j - nf - nb + 2);
            }
        }
    }
}

/// Deallocating a run immediately after allocating it restores the free
/// list exactly: the pieces the allocation split off are merged back into
/// one chunk in the same place.
#[verifier::rlimit(100)]
pub proof fn lemma_alloc_dealloc_roundtrip(
    c: Seq<(int, int)>,
    l: int,
    size: int,
    align: int,
    off: int,
)
    requires
        chunks_wf(c, l),
        1 <= size,
        1 <= align,
        0 <= off,
        first_fit(c, size, align, off) != -1,
    ensures
        ({
            let k = first_fit(c, size, align, off);
            let pad = front_pad(off + c[k].0, align);
            dealloc_update(alloc_update(c, k, size, align, off), c[k].0 + pad, size) =~= c
        }),
{
    let k = first_fit(c, size, align, off);
    lemma_first_fit_range(c, size, align, off, 0);
    lemma_first_fit_fits(c, size, align, off);
    assert(chunk_in_bounds(c, l, k));
    let pad = front_pad(off + c[k].0, align);
    lemma_pad_aligns(off + c[k].0, align);
    let i = c[k].0 + pad;
    let back = c[k].1 - pad - size;
    let nf: int = if pad > 0 {
        1
    } else {
        0
    };
    let nb: int = if back > 0 {
        1
    } else {
        0
    };
    let u = alloc_update(c, k, size, align, off);
    lemma_split_update_wf(c, l, k, pad, size);
    assert(chunk_in_bounds(c, l, k));
    lemma_chunks_ordered_all(c, l, k);

    // the freed run goes back in right where it came from
    assert forall|j: int| 0 <= j < k + nf implies #[trigger] u[j].0 < i by {
        if j < k {
            assert(u[j] == c.take(k)[j]);
            lemma_chunks_ordered(c, l, j, k);
            assert(chunk_in_bounds(c, l, j));
        } else {
            assert(u[j] == (c[k].0, pad));
        }
    }
    if k + nf < u.len() {
        assert(u[k + nf].0 >= i + size) by {
            if nb > 0 {
            } else {
                assert(u[k + nf] == c.skip(k + 1)[0]);
            }
        }
    }
    lemma_insert_pos_is(u, l, i, k + nf);

    let p = k + nf;
    let merge_next = p < u.len() && i + size == u[p].0;
    let merge_prev = p > 0 && u[p - 1].0 + u[p - 1].1 == i;
    assert(merge_next == (nb == 1)) by {
        if nb == 1 {
            assert(u[p] == (i + size, back));
        } else if p < u.len() {
            assert(u[p] == c.skip(k + 1)[0]);
            assert(u[p].0 == c[k + 1].0);
        }
    }
    assert(merge_prev == (nf == 1)) by {
        if nf == 1 {
            assert(u[p - 1] == (c[k].0, pad));
        } else if p > 0 {
            assert(u[p - 1] == c.take(k)[k - 1]);
        }
    }

    let d = dealloc_update(u, i, size);
    let lo = if merge_prev {
        u[p - 1].0
    } else {
        i
    };
    let len = (if merge_prev {
        u[p - 1].1
    } else {
        0
    }) + size + (if merge_next {
        u[p].1
    } else {
        0
    });
    assert((lo, len) == c[k]) by {
        if nf == 1 {
            assert(u[p - 1] == (c[k].0, pad));
        }
        if nb == 1 {
            assert(u[p] == (i + size, back));
        }
    }
    assert(d.len() == c.len());
    assert forall|j: int| 0 <= j < c.len() implies d[j] == c[j] by {
        let before = if merge_prev {
            u.take(p - 1)
        } else {
            u.take(p)
        };
        let kb = before.len() as int;
        assert(kb == k);
        if j < k {
            assert(d[j] == before[j]);
            assert(before[j] == u[j]);
            assert(u[j] == c.take(k)[j]);
        } else if j > k {
            let after = if merge_next {
                u.skip(p + 1)
            } else {
                u.skip(p)
            };
            assert(d[j] == after[j - k - 1]);
            assert(after[j - k - 1] == u[j - k - 1 + p + nb]);
            assert(u[j - k - 1 + p + nb] == c.skip(k + 1)[j - k - 1]);
        }
    }
    assert(d =~= c);
}

/// Chunk starts are strictly increasing across the whole sequence, not just
/// between neighbours.
pub proof fn lemma_chunks_ordered(c: Seq<(int, int)>, l: int, k1: int, k2: int)
    requires
        chunks_wf(c, l),
        0 <= k1 < k2 < c.len(),
    ensures
        c[k1].0 + c[k1].1 < c[k2].0,
    decreases k2 - k1,
{
    if k2 == k1 + 1 {
    } else {
        lemma_chunks_ordered(c, l, k1, k2 - 1);
        assert(chunk_in_bounds(c, l, k2 - 1));
    }
}

/// The chunk at position `k`, put in order against every other chunk.
pub proof fn lemma_chunks_ordered_all(c: Seq<(int, int)>, l: int, k: int)
    requires
        chunks_wf(c, l),
        0 <= k < c.len(),
    ensures
        forall|j: int| 0 <= j < k ==> #[trigger] c[j].0 + c[j].1 < c[k].0,
        forall|j: int| k < j < c.len() ==> c[k].0 + c[k].1 < #[trigger] c[j].0,
{
    assert forall|j: int| 0 <= j < k implies #[trigger] c[j].0 + c[j].1 < c[k].0 by {
        lemma_chunks_ordered(c, l, j, k);
    }
    assert forall|j: int| k < j < c.len() implies c[k].0 + c[k].1 < #[trigger] c[j].0 by {
        lemma_chunks_ordered(c, l, k, j);
    }
}

/// In a well-formed free list the blocks from the first chunk on fit between
/// its start and the end of the region.
pub proof fn lemma_free_total_le(c: Seq<(int, int)>, l: int)
    requires
        chunks_wf(c, l),
        c.len() > 0,
    ensures
        free_total(c) <= l - c[0].0,
    decreases c.len(),
{
    assert(chunk_in_bounds(c, l, 0));
    let rest = c.drop_first();
    assert(free_total(c) == c[0].1 + free_total(rest));
    if c.len() > 1 {
        lemma_wf_drop_first(c, l);
        lemma_free_total_le(rest, l);
        assert(c[0].0 + c[0].1 < c[1].0);
        assert(rest[0] == c[1]);
    } else {
        assert(rest.len() == 0);
        assert(free_total(rest) == 0);
    }
}

/// Dropping the first chunk of a well-formed free list leaves a well-formed
/// free list.
pub proof fn lemma_wf_drop_first(c: Seq<(int, int)>, l: int)
    requires
        chunks_wf(c, l),
        c.len() > 0,
    ensures
        chunks_wf(c.drop_first(), l),
{
    let rest = c.drop_first();
    assert forall|k: int| 0 <= k < rest.len() implies chunk_in_bounds(rest, l, k) by {
        assert(chunk_in_bounds(c, l, k + 1));
    }
    assert forall|k: int| 0 <= k < rest.len() - 1 implies #[trigger] rest[k].0 + rest[k].1 < rest[k
        + 1].0 by {
        assert(c[k + 1].0 + c[k + 1].1 < c[k + 2].0);
    }
}

/// A well-formed free list that covers the whole region is the single chunk
/// `(0, l)`: a fully freed allocator is empty.
pub proof fn lemma_full_free_is_single_chunk(c: Seq<(int, int)>, l: int)
    requires
        chunks_wf(c, l),
        l >= 1,
        free_total(c) == l,
    ensures
        c =~= seq![(0, l)],
{
    if c.len() == 0 {
        assert(free_total(c) == 0);
    }
    assert(chunk_in_bounds(c, l, 0));
    lemma_free_total_le(c, l);
    assert(c[0].0 == 0);
    let rest = c.drop_first();
    assert(free_total(c) == c[0].1 + free_total(rest));
    if c.len() > 1 {
        lemma_wf_drop_first(c, l);
        lemma_free_total_le(rest, l);
        assert(c[0].0 + c[0].1 < c[1].0);
        assert(rest[0] == c[1]);
        assert(free_total(c) < l);
    }
    assert(free_total(rest) == 0);
    assert(c[0].1 == l);
}

} // verus!
