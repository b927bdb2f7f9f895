use vstd::arithmetic::div_mod::{
    lemma_div_is_ordered, lemma_div_plus_one, lemma_div_pos_is_pos, lemma_fundamental_div_mod,
    lemma_fundamental_div_mod_converse, lemma_mod_division_less_than_divisor,
};
use vstd::arithmetic::mul::{lemma_mul_inequality, lemma_mul_is_commutative, lemma_mul_nonnegative};
use vstd::prelude::*;

verus! {

/// Where a stretch starting at `start` of length `size` would end, cut
/// back to `limit` when it would pass the edge.
pub open spec fn clamped_end(start: int, size: int, limit: int) -> int {
    if start + size <= limit {
        start + size
    } else {
        limit
    }
}

/// How many blocks of edge length `s` cover an axis of extent `len`, the
/// last block clamped to the edge.
pub open spec fn num_blocks(len: int, s: int) -> int {
    (len + s - 1) / s
}

/// The first coordinate of block `i` along an axis.
pub open spec fn block_lo(s: int, i: int) -> int {
    i * s
}

/// One past the last coordinate of block `i` along an axis of extent
/// `limit`.
pub open spec fn block_hi(limit: int, s: int, i: int) -> int {
    clamped_end(i * s, s, limit)
}

/// The position of block (xi, yi) when a grid of `ny` blocks per column
/// is listed column by column.
pub open spec fn pair_index(ny: int, xi: int, yi: int) -> int {
    xi * ny + yi
}

/// Pixel (x, y) lies inside grid block (xi, yi) of a w-by-h image.
pub open spec fn block_contains(w: int, h: int, s: int, xi: int, yi: int, x: int, y: int) -> bool {
    block_lo(s, xi) <= x < block_hi(w, s, xi) && block_lo(s, yi) <= y < block_hi(h, s, yi)
}

/// Along one axis, coordinate `v` falls into block `v / s` and into no
/// other block.
pub proof fn lemma_block_index_1d(limit: int, s: int, v: int)
    requires
        s >= 1,
        0 <= v < limit,
    ensures
        block_lo(s, v / s) <= v < block_hi(limit, s, v / s),
        forall|i: int|
            (#[trigger] block_lo(s, i)) <= v && v < block_hi(limit, s, i) ==> i == v / s,
        0 <= v / s < num_blocks(limit, s),
{
    lemma_fundamental_div_mod(v, s);
    lemma_mod_division_less_than_divisor(v, s);
    lemma_mul_is_commutative(v / s, s);
    assert(block_lo(s, v / s) <= v < block_hi(limit, s, v / s));
    assert forall|i: int|
        (#[trigger] block_lo(s, i)) <= v && v < block_hi(limit, s, i) implies i == v / s by {
        lemma_fundamental_div_mod_converse(v, s, i, v - i * s);
    }
    lemma_div_pos_is_pos(v, s);
    lemma_div_is_ordered(v, limit - 1, s);
    lemma_div_plus_one(limit - 1, s);
}

/// The count of blocks along an axis of extent at least one: there is a
/// block, together they pass the edge, and dropping the last one no
/// longer does.
pub proof fn lemma_num_blocks_bounds(limit: int, s: int)
    requires
        s >= 1,
        limit >= 1,
    ensures
        num_blocks(limit, s) >= 1,
        num_blocks(limit, s) * s >= limit,
        (num_blocks(limit, s) - 1) * s <= limit - 1,
{
    let nb = num_blocks(limit, s);
    lemma_fundamental_div_mod(limit + s - 1, s);
    lemma_mod_division_less_than_divisor(limit + s - 1, s);
    let r = (limit + s - 1) % s;
    assert(s * nb == limit + s - 1 - r);
    lemma_mul_is_commutative(nb, s);
    assert((nb - 1) * s == nb * s - s) by (nonlinear_arith);
    if nb <= 0 {
        assert(nb * s <= 0) by (nonlinear_arith)
            requires
                nb <= 0,
                s >= 1,
        ;
        assert(false);
    }
}

/// Walking an axis in steps of `s` from 0: step `i` still starts inside
/// the axis exactly when `i` is a valid block index.
pub proof fn lemma_block_step(limit: int, s: int, i: int)
    requires
        s >= 1,
        limit >= 1,
        0 <= i,
    ensures
        (i < num_blocks(limit, s)) <==> (i * s < limit),
{
    let nb = num_blocks(limit, s);
    lemma_num_blocks_bounds(limit, s);
    if i < nb {
        lemma_mul_inequality(i, nb - 1, s);
    }
    if i >= nb {
        lemma_mul_inequality(nb, i, s);
    }
}

/// Every block with a valid index is non-empty and lies inside the axis.
pub proof fn lemma_block_bounds_1d(limit: int, s: int, i: int)
    requires
        s >= 1,
        limit >= 1,
        0 <= i < num_blocks(limit, s),
    ensures
        0 <= block_lo(s, i),
        block_lo(s, i) < block_hi(limit, s, i),
        block_hi(limit, s, i) <= limit,
{
    lemma_mul_nonnegative(i, s);
    lemma_block_step(limit, s, i);
}

/// Exact tiling: every pixel of a w-by-h image lies in the grid block
/// (x / s, y / s), whose index is valid, and in no other grid block —
/// the grid covers the image with no gap and no duplicate coverage.
pub proof fn lemma_exact_tiling(w: int, h: int, s: int, x: int, y: int)
    requires
        s >= 1,
        0 <= x < w,
        0 <= y < h,
    ensures
        block_contains(w, h, s, x / s, y / s, x, y),
        forall|xi: int, yi: int|
            block_contains(w, h, s, xi, yi, x, y) ==> xi == x / s && yi == y / s,
        0 <= x / s < num_blocks(w, s),
        0 <= y / s < num_blocks(h, s),
{
    lemma_block_index_1d(w, s, x);
    lemma_block_index_1d(h, s, y);
    assert forall|xi: int, yi: int| block_contains(w, h, s, xi, yi, x, y) implies xi == x / s && yi
        == y / s by {
        assert(block_lo(s, xi) <= x < block_hi(w, s, xi));
        assert(block_lo(s, yi) <= y < block_hi(h, s, yi));
    }
}

} // verus!
