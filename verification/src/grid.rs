//! Grid geometry: block counts, block pixel rectangles, the valid region of
//! blocks left after the border margin, and block-coordinate distance.

use vstd::prelude::*;

verus! {

/// Number of blocks of side `square` needed to cover `len` pixels
/// (ceiling division).
pub open spec fn blocks_of(len: int, square: int) -> int {
    (len + square - 1) / square
}

/// Sample of a row-major grid of width `width` at column `x`, row `y`.
pub open spec fn cell(g: Seq<u16>, width: int, x: int, y: int) -> u16 {
    g[y * width + x]
}

/// First pixel coordinate of block `b` along one axis.
pub open spec fn block_lo(square: int, b: int) -> int {
    b * square
}

/// One-past-last pixel coordinate of block `b` along an axis of `len` pixels:
/// the last block is clipped to the grid bound.
pub open spec fn block_hi(square: int, len: int, b: int) -> int {
    if b * square + square <= len {
        b * square + square
    } else {
        len
    }
}

/// Block coordinates `(bx, by)` lie in the valid region: at least `border`
/// block rows and columns are skipped on every side.
pub open spec fn valid_block(border: int, bw: int, bh: int, bx: int, by: int) -> bool {
    border <= bx < bw - border && border <= by < bh - border
}

/// Column of the block with linear index `i` in a grid of `bw` block columns.
pub open spec fn idx_col(i: int, bw: int) -> int {
    i % bw
}

/// Row of the block with linear index `i`.
pub open spec fn idx_row(i: int, bw: int) -> int {
    i / bw
}

/// The block with linear index `i` lies in the valid region.
pub open spec fn valid_idx(border: int, bw: int, bh: int, i: int) -> bool {
    valid_block(border, bw, bh, idx_col(i, bw), idx_row(i, bw))
}

/// Chebyshev (maximum-coordinate) distance between two block coordinates.
pub open spec fn cheb(ax: int, ay: int, bx: int, by: int) -> int {
    let dx = if ax >= bx { ax - bx } else { bx - ax };
    let dy = if ay >= by { ay - by } else { by - ay };
    if dx >= dy { dx } else { dy }
}

/// A block index in range is determined by its row and column.
pub proof fn lemma_idx_split(i: int, bw: int, bh: int)
    requires
        bw >= 1,
        0 <= i < bw * bh,
    ensures
        i == idx_row(i, bw) * bw + idx_col(i, bw),
        0 <= idx_col(i, bw) < bw,
        0 <= idx_row(i, bw) < bh,
{
    vstd::arithmetic::div_mod::lemma_fundamental_div_mod(i, bw);
    vstd::arithmetic::div_mod::lemma_mod_bound(i, bw);
    assert((i / bw) * bw == bw * (i / bw)) by (nonlinear_arith);
    assert(0 <= i / bw < bh) by (nonlinear_arith)
        requires
            bw >= 1,
            0 <= i < bw * bh,
            i == bw * (i / bw) + i % bw,
            0 <= i % bw < bw,
    ;
}

/// Conversely, row and column in range determine the linear index.
pub proof fn lemma_split_idx(bx: int, by: int, bw: int, bh: int)
    requires
        bw >= 1,
        0 <= bx < bw,
        0 <= by < bh,
    ensures
        idx_col(by * bw + bx, bw) == bx,
        idx_row(by * bw + bx, bw) == by,
        0 <= by * bw + bx < bw * bh,
{
    vstd::arithmetic::div_mod::lemma_fundamental_div_mod_converse(by * bw + bx, bw, by, bx);
    assert(0 <= by * bw + bx < bw * bh) by (nonlinear_arith)
        requires
            bw >= 1,
            0 <= bx < bw,
            0 <= by < bh,
    ;
}

/// The block count covers the axis: the last block starts before the end of
/// the grid and the blocks together reach it.
pub proof fn lemma_blocks_cover(len: int, square: int)
    requires
        square >= 1,
        len >= 1,
    ensures
        blocks_of(len, square) >= 1,
        blocks_of(len, square) * square >= len,
        (blocks_of(len, square) - 1) * square < len,
{
    let b = blocks_of(len, square);
    vstd::arithmetic::div_mod::lemma_fundamental_div_mod(len + square - 1, square);
    vstd::arithmetic::div_mod::lemma_mod_bound(len + square - 1, square);
    assert(b * square == square * b) by (nonlinear_arith);
    assert((b - 1) * square == square * b - square) by (nonlinear_arith);
    assert(b >= 1) by (nonlinear_arith)
        requires
            square >= 1,
            len >= 1,
            square * b >= len,
    ;
}

} // verus!
