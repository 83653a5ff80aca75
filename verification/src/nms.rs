//! The greedy non-maximum suppression selector, as a mathematical model:
//! walk the ranked candidate order, accept every block that is unsuppressed,
//! has a nonzero max and lies in the valid region, and after each acceptance
//! suppress the Chebyshev window of blocks around it, until the requested
//! number of peaks is reached. Per-frame statistics over the valid region's
//! block maxima are modelled here too.

use vstd::prelude::*;
use crate::grid::blocks_of;
use crate::grid::block_lo;
use crate::grid::block_hi;
use crate::grid::valid_block;
use crate::grid::valid_idx;
use crate::grid::idx_col;
use crate::grid::idx_row;
use crate::grid::cheb;
use crate::grid::lemma_split_idx;
use crate::scan::BlockInfo;
use crate::scan::info0;
use crate::scan::rect_best;
use crate::order::sorted_order;
use vstd::arithmetic::div_mod::lemma_fundamental_div_mod;
use vstd::arithmetic::div_mod::lemma_mod_bound;

verus! {

/// The per-block records of one frame: the scan record of every block of the
/// valid region, the never-written record for every block outside it.
pub open spec fn spec_maxes(g: Seq<u16>, border: int, square: int, height: int, width: int) -> Seq<
    BlockInfo,
> {
    let bw = blocks_of(width, square);
    let bh = blocks_of(height, square);
    Seq::new(
        (bw * bh) as nat,
        |i: int|
            if valid_idx(border, bw, bh, i) {
                rect_best(
                    g,
                    width,
                    block_lo(square, idx_col(i, bw)),
                    block_hi(square, width, idx_col(i, bw)),
                    block_lo(square, idx_row(i, bw)),
                    block_hi(square, height, idx_row(i, bw)),
                )
            } else {
                info0()
            },
    )
}

/// Block `i` lies in the suppression window of radius `dist` around block
/// `b`: a Chebyshev square in block coordinates, clamped to the valid region.
pub open spec fn in_window(border: int, bw: int, bh: int, dist: int, b: int, i: int) -> bool {
    let bx = idx_col(b, bw);
    let by = idx_row(b, bw);
    let ix = idx_col(i, bw);
    let iy = idx_row(i, bw);
    &&& (if bx - dist >= border {
        bx - dist
    } else {
        border
    }) <= ix
    &&& ix <= (if bx + dist <= bw - border - 1 {
        bx + dist
    } else {
        bw - border - 1
    })
    &&& (if by - dist >= border {
        by - dist
    } else {
        border
    }) <= iy
    &&& iy <= (if by + dist <= bh - border - 1 {
        by + dist
    } else {
        bh - border - 1
    })
}

/// The suppression map after marking the window around block `b`.
pub open spec fn suppress(
    sup: Seq<bool>,
    border: int,
    bw: int,
    bh: int,
    dist: int,
    b: int,
) -> Seq<bool> {
    Seq::new(sup.len(), |i: int| sup[i] || in_window(border, bw, bh, dist, b, i))
}

/// Block `b` is accepted when reached: not suppressed, a nonzero max, and in
/// the valid region.
pub open spec fn accepts(
    maxes: Seq<BlockInfo>,
    sup: Seq<bool>,
    border: int,
    bw: int,
    bh: int,
    b: int,
) -> bool {
    &&& !sup[b]
    &&& maxes[b].max != 0
    &&& valid_idx(border, bw, bh, b)
}

/// The selector: walk `order`, accept or skip each block, suppress around
/// every acceptance, stop when `budget` peaks were accepted.
pub open spec fn spec_nms(
    maxes: Seq<BlockInfo>,
    order: Seq<usize>,
    sup: Seq<bool>,
    border: int,
    bw: int,
    bh: int,
    dist: int,
    budget: nat,
) -> Seq<BlockInfo>
    decreases order.len(),
{
    if budget == 0 || order.len() == 0 {
        Seq::empty()
    } else {
        let b = order[0] as int;
        if accepts(maxes, sup, border, bw, bh, b) {
            seq![maxes[b]] + spec_nms(
                maxes,
                order.drop_first(),
                suppress(sup, border, bw, bh, dist, b),
                border,
                bw,
                bh,
                dist,
                (budget - 1) as nat,
            )
        } else {
            spec_nms(maxes, order.drop_first(), sup, border, bw, bh, dist, budget)
        }
    }
}

/// A suppression map with nothing suppressed.
pub open spec fn all_false(n: nat) -> Seq<bool> {
    Seq::new(n, |i: int| false)
}

/// One full invocation: scan every valid block, rank all blocks, select.
pub open spec fn spec_run(
    g: Seq<u16>,
    border: int,
    square: int,
    height: int,
    width: int,
    dist: int,
    total: nat,
) -> Seq<BlockInfo> {
    let bw = blocks_of(width, square);
    let bh = blocks_of(height, square);
    let maxes = spec_maxes(g, border, square, height, width);
    spec_nms(maxes, sorted_order(maxes), all_false((bw * bh) as nat), border, bw, bh, dist, total)
}

/// Running statistics of the block maxima of the valid region, over block
/// indices below `k`: their sum, the sum of their squares, and their count.
pub open spec fn stats_upto(
    maxes: Seq<BlockInfo>,
    border: int,
    bw: int,
    bh: int,
    k: nat,
) -> (int, int, int)
    decreases k,
{
    if k == 0 {
        (0, 0, 0)
    } else {
        let p = stats_upto(maxes, border, bw, bh, (k - 1) as nat);
        if valid_idx(border, bw, bh, k - 1) {
            (
                p.0 + maxes[k - 1].max,
                p.1 + maxes[k - 1].max * maxes[k - 1].max,
                p.2 + 1,
            )
        } else {
            p
        }
    }
}

/// The statistics of a whole frame.
pub open spec fn spec_stats(maxes: Seq<BlockInfo>, border: int, bw: int, bh: int) -> (int, int, int) {
    stats_upto(maxes, border, bw, bh, (bw * bh) as nat)
}

/// The statistics of a whole frame, from the grid.
pub open spec fn spec_frame_stats(
    g: Seq<u16>,
    border: int,
    square: int,
    height: int,
    width: int,
) -> (int, int, int) {
    spec_stats(
        spec_maxes(g, border, square, height, width),
        border,
        blocks_of(width, square),
        blocks_of(height, square),
    )
}

/// Dropping the head of a suffix is the next suffix.
pub proof fn lemma_skip_succ(s: Seq<usize>, k: int)
    requires
        0 <= k < s.len(),
    ensures
        s.skip(k).drop_first() =~= s.skip(k + 1),
        s.skip(k)[0] == s[k],
        s.skip(k).len() == s.len() - k,
{
}

/// Every record of the valid region sits inside its own block: dividing its
/// position by the block side recovers the block coordinates.
pub open spec fn placed(maxes: Seq<BlockInfo>, border: int, square: int, bw: int, bh: int) -> bool {
    forall|b: int|
        0 <= b < maxes.len() && valid_idx(border, bw, bh, b) ==> (#[trigger] maxes[b]).x as int
            / square == idx_col(b, bw) && maxes[b].y as int / square == idx_row(b, bw)
}

/// The linear block index a peak record points back into.
pub open spec fn peak_block(square: int, bw: int, pk: BlockInfo) -> int {
    (pk.y as int / square) * bw + (pk.x as int / square)
}

/// What one accepted peak satisfies, relative to the suppression map that was
/// in force when the selector started.
pub open spec fn peak_ok(
    maxes: Seq<BlockInfo>,
    sup: Seq<bool>,
    border: int,
    square: int,
    bw: int,
    bh: int,
    pk: BlockInfo,
) -> bool {
    let blk = peak_block(square, bw, pk);
    &&& valid_block(border, bw, bh, pk.x as int / square, pk.y as int / square)
    &&& pk.max != 0
    &&& 0 <= blk < maxes.len()
    &&& pk == maxes[blk]
    &&& !sup[blk]
}

/// A valid block index in a nonempty block grid is in range and split by
/// row and column.
pub proof fn lemma_valid_idx_range(border: int, bw: int, bh: int, b: int)
    requires
        bw >= 1,
        border >= 0,
        b >= 0,
        valid_idx(border, bw, bh, b),
    ensures
        0 <= b < bw * bh,
        b == idx_row(b, bw) * bw + idx_col(b, bw),
{
    lemma_fundamental_div_mod(b, bw);
    lemma_mod_bound(b, bw);
    assert((b / bw) * bw == bw * (b / bw)) by (nonlinear_arith);
    assert(b < bw * bh) by (nonlinear_arith)
        requires
            bw >= 1,
            b == (b / bw) * bw + b % bw,
            0 <= b % bw < bw,
            b / bw < bh,
    ;
}

/// What the selector guarantees: no more peaks than the budget; every peak is
/// the genuine record of a valid-region block with a nonzero max that was not
/// suppressed at the start; and every two accepted peaks lie strictly more
/// than `dist` apart in block-coordinate Chebyshev distance.
pub proof fn lemma_nms_props(
    maxes: Seq<BlockInfo>,
    order: Seq<usize>,
    sup: Seq<bool>,
    border: int,
    square: int,
    bw: int,
    bh: int,
    dist: int,
    budget: nat,
)
    requires
        bw >= 1,
        border >= 0,
        dist >= 0,
        square >= 1,
        maxes.len() == bw * bh,
        sup.len() == bw * bh,
        placed(maxes, border, square, bw, bh),
    ensures
        ({
            let r = spec_nms(maxes, order, sup, border, bw, bh, dist, budget);
            &&& r.len() <= budget
            &&& forall|p: int|
                0 <= p < r.len() ==> peak_ok(maxes, sup, border, square, bw, bh, #[trigger] r[p])
            &&& forall|p: int, q: int|
                0 <= p < q < r.len() ==> cheb(
                    #[trigger] r[p].x as int / square,
                    r[p].y as int / square,
                    #[trigger] r[q].x as int / square,
                    r[q].y as int / square,
                ) > dist
        }),
    decreases order.len(),
{
    let r = spec_nms(maxes, order, sup, border, bw, bh, dist, budget);
    if budget == 0 || order.len() == 0 {
    } else {
        let b = order[0] as int;
        if accepts(maxes, sup, border, bw, bh, b) {
            lemma_valid_idx_range(border, bw, bh, b);
            let bx = idx_col(b, bw);
            let by = idx_row(b, bw);
            let sup2 = suppress(sup, border, bw, bh, dist, b);
            lemma_nms_props(
                maxes,
                order.drop_first(),
                sup2,
                border,
                square,
                bw,
                bh,
                dist,
                (budget - 1) as nat,
            );
            let rest = spec_nms(
                maxes,
                order.drop_first(),
                sup2,
                border,
                bw,
                bh,
                dist,
                (budget - 1) as nat,
            );
            assert(r == seq![maxes[b]] + rest);
            assert(peak_block(square, bw, maxes[b]) == b);
            assert(peak_ok(maxes, sup, border, square, bw, bh, maxes[b]));
            // Peaks of the tail: unsuppressed under the grown map, hence
            // under the starting one, and outside the window around `b`.
            assert forall|p: int| 0 <= p < rest.len() implies peak_ok(
                maxes,
                sup,
                border,
                square,
                bw,
                bh,
                #[trigger] rest[p],
            ) && cheb(
                bx,
                by,
                rest[p].x as int / square,
                rest[p].y as int / square,
            ) > dist by {
                let qx = rest[p].x as int / square;
                let qy = rest[p].y as int / square;
                let blk = peak_block(square, bw, rest[p]);
                assert(peak_ok(maxes, sup2, border, square, bw, bh, rest[p]));
                assert(!sup2[blk]);
                assert(!in_window(border, bw, bh, dist, b, blk));
                lemma_split_idx(qx, qy, bw, bh);
                assert(idx_col(blk, bw) == qx && idx_row(blk, bw) == qy);
                if cheb(bx, by, qx, qy) <= dist {
                    assert(in_window(border, bw, bh, dist, b, blk));
                }
            }
            assert forall|p: int, q: int| 0 <= p < q < r.len() implies cheb(
                #[trigger] r[p].x as int / square,
                r[p].y as int / square,
                #[trigger] r[q].x as int / square,
                r[q].y as int / square,
            ) > dist by {
                if p == 0 {
                    assert(r[q] == rest[q - 1]);
                    assert(r[0] == maxes[b]);
                    assert(r[0].x as int / square == bx && r[0].y as int / square == by);
                } else {
                    assert(r[p] == rest[p - 1] && r[q] == rest[q - 1]);
                }
            }
        } else {
            lemma_nms_props(maxes, order.drop_first(), sup, border, square, bw, bh, dist, budget);
        }
    }
}

/// The frame's records are placed: every valid-region record's position lies
/// inside its own block, so dividing the position by the block side recovers
/// the block. Records outside the valid region are the never-written record.
pub proof fn lemma_spec_maxes_placed(g: Seq<u16>, border: int, square: int, height: int, width: int)
    requires
        square >= 1,
        1 <= height <= usize::MAX,
        1 <= width <= usize::MAX,
        border >= 0,
    ensures
        placed(
            spec_maxes(g, border, square, height, width),
            border,
            square,
            blocks_of(width, square),
            blocks_of(height, square),
        ),
{
    let bw = blocks_of(width, square);
    let bh = blocks_of(height, square);
    let m = spec_maxes(g, border, square, height, width);
    crate::grid::lemma_blocks_cover(width, square);
    crate::grid::lemma_blocks_cover(height, square);
    assert forall|b: int|
        0 <= b < m.len() && valid_idx(border, bw, bh, b) implies (#[trigger] m[b]).x as int / square
        == idx_col(b, bw) && m[b].y as int / square == idx_row(b, bw) by {
        crate::grid::lemma_idx_split(b, bw, bh);
        let bx = idx_col(b, bw);
        let by = idx_row(b, bw);
        let x0 = block_lo(square, bx);
        let x1 = block_hi(square, width, bx);
        let y0 = block_lo(square, by);
        let y1 = block_hi(square, height, by);
        assert(0 <= x0 && x0 + square <= bw * square) by (nonlinear_arith)
            requires
                0 <= bx < bw,
                square >= 1,
                x0 == bx * square,
        ;
        assert(x0 < width) by {
            assert(bx * square <= (bw - 1) * square) by (nonlinear_arith)
                requires
                    bx <= bw - 1,
                    square >= 1,
            ;
        }
        assert(0 <= y0 && y0 < height) by {
            assert(0 <= by * square && by * square <= (bh - 1) * square) by (nonlinear_arith)
                requires
                    0 <= by <= bh - 1,
                    square >= 1,
            ;
        }
        crate::scan::lemma_rect_best_props(g, width, x0, x1, y0, y1);
        let pk = m[b];
        assert(pk == rect_best(g, width, x0, x1, y0, y1));
        vstd::arithmetic::div_mod::lemma_fundamental_div_mod_converse(
            pk.x as int,
            square,
            bx,
            pk.x as int - x0,
        );
        vstd::arithmetic::div_mod::lemma_fundamental_div_mod_converse(
            pk.y as int,
            square,
            by,
            pk.y as int - y0,
        );
    }
}

/// With no acceptable block anywhere in the order, the selector returns
/// nothing.
pub proof fn lemma_nms_no_candidate(
    maxes: Seq<BlockInfo>,
    order: Seq<usize>,
    sup: Seq<bool>,
    border: int,
    bw: int,
    bh: int,
    dist: int,
    budget: nat,
)
    requires
        forall|i: int|
            0 <= i < order.len() ==> !accepts(maxes, sup, border, bw, bh, #[trigger] order[i] as int),
    ensures
        spec_nms(maxes, order, sup, border, bw, bh, dist, budget).len() == 0,
    decreases order.len(),
{
    if budget != 0 && order.len() != 0 {
        assert(forall|i: int|
            0 <= i < order.drop_first().len() ==> order.drop_first()[i] == order[i + 1]);
        lemma_nms_no_candidate(maxes, order.drop_first(), sup, border, bw, bh, dist, budget);
    }
}

/// With exactly one acceptable block in the order, the selector returns
/// exactly that block's record: after accepting it, its own window suppresses
/// it, and every other block stays unacceptable because suppression only
/// grows.
pub proof fn lemma_nms_single_candidate(
    maxes: Seq<BlockInfo>,
    order: Seq<usize>,
    sup: Seq<bool>,
    border: int,
    bw: int,
    bh: int,
    dist: int,
    budget: nat,
    c: int,
)
    requires
        bw >= 1,
        border >= 0,
        dist >= 0,
        budget >= 1,
        maxes.len() == bw * bh,
        sup.len() == bw * bh,
        order.contains(c as usize),
        0 <= c <= usize::MAX,
        accepts(maxes, sup, border, bw, bh, c),
        forall|i: int|
            0 <= i < order.len() && order[i] != c ==> !accepts(
                maxes,
                sup,
                border,
                bw,
                bh,
                #[trigger] order[i] as int,
            ),
    ensures
        spec_nms(maxes, order, sup, border, bw, bh, dist, budget) =~= seq![maxes[c]],
    decreases order.len(),
{
    lemma_valid_idx_range(border, bw, bh, c);
    let h = order[0] as int;
    if h == c {
        let sup2 = suppress(sup, border, bw, bh, dist, c);
        assert(in_window(border, bw, bh, dist, c, c));
        assert(sup2[c]);
        assert forall|i: int|
            0 <= i < order.drop_first().len() implies !accepts(
            maxes,
            sup2,
            border,
            bw,
            bh,
            #[trigger] order.drop_first()[i] as int,
        ) by {
            let b = order.drop_first()[i] as int;
            assert(order[i + 1] as int == b);
            if b != c {
                assert(!accepts(maxes, sup, border, bw, bh, b));
                if accepts(maxes, sup2, border, bw, bh, b) {
                    lemma_valid_idx_range(border, bw, bh, b);
                    assert(!sup2[b]);
                    assert(!sup[b]);
                    assert(accepts(maxes, sup, border, bw, bh, b));
                    assert(false);
                }
            }
        }
        lemma_nms_no_candidate(
            maxes,
            order.drop_first(),
            sup2,
            border,
            bw,
            bh,
            dist,
            (budget - 1) as nat,
        );
    } else {
        assert(!accepts(maxes, sup, border, bw, bh, h));
        let j = choose|j: int| 0 <= j < order.len() && order[j] == c as usize;
        assert(j != 0);
        assert(order.drop_first()[j - 1] == c as usize);
        assert(order.drop_first().contains(c as usize));
        assert(forall|i: int|
            0 <= i < order.drop_first().len() ==> order.drop_first()[i] == order[i + 1]);
        lemma_nms_single_candidate(
            maxes,
            order.drop_first(),
            sup,
            border,
            bw,
            bh,
            dist,
            budget,
            c,
        );
    }
}

/// Bounds on the running statistics: sums of at most `k` samples of at most
/// the largest 16-bit value.
pub proof fn lemma_stats_bounds(maxes: Seq<BlockInfo>, border: int, bw: int, bh: int, k: nat)
    ensures
        ({
            let s = stats_upto(maxes, border, bw, bh, k);
            &&& 0 <= s.0 <= k * 0xFFFF
            &&& 0 <= s.1 <= k * (0xFFFF * 0xFFFF)
            &&& 0 <= s.2 <= k
        }),
    decreases k,
{
    if k > 0 {
        lemma_stats_bounds(maxes, border, bw, bh, (k - 1) as nat);
        assert((k - 1) * 0xFFFF + 0xFFFF == k * 0xFFFF) by (nonlinear_arith);
        assert((k - 1) * (0xFFFF * 0xFFFF) + 0xFFFF * 0xFFFF == k * (0xFFFF * 0xFFFF))
            by (nonlinear_arith);
        assert(maxes[k - 1].max * maxes[k - 1].max <= 0xFFFF * 0xFFFF) by (nonlinear_arith)
            requires
                0 <= maxes[k - 1].max <= 0xFFFF,
        ;
    }
}

/// Over a range of block indices that all lie outside the valid region, the
/// running statistics do not move.
pub proof fn lemma_stats_invalid_range(
    maxes: Seq<BlockInfo>,
    border: int,
    bw: int,
    bh: int,
    a: nat,
    b: nat,
)
    requires
        a <= b,
        forall|k: int| a <= k < b ==> !valid_idx(border, bw, bh, k),
    ensures
        stats_upto(maxes, border, bw, bh, b) == stats_upto(maxes, border, bw, bh, a),
    decreases b - a,
{
    if b > a {
        lemma_stats_invalid_range(maxes, border, bw, bh, a, (b - 1) as nat);
    }
}

} // verus!
