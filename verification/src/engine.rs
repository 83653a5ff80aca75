//! The engine: geometry fixed at construction, persistent per-block buffers
//! sized once from it, and the per-invocation pipeline of scan, statistics,
//! ranking and greedy selection.

use vstd::prelude::*;
use crate::grid::blocks_of;
use crate::grid::valid_block;
use crate::grid::valid_idx;
use crate::grid::idx_col;
use crate::grid::idx_row;
use crate::grid::cheb;
use crate::grid::lemma_split_idx;
use crate::grid::lemma_blocks_cover;
use crate::scan::BlockInfo;
use crate::scan::info0;
use crate::scan::block_info;
use crate::order::sort_order;
use crate::order::sorted_order;
use crate::order::is_ranked_perm;
use crate::order::lemma_sorted_order_props;
use crate::nms::spec_maxes;
use crate::nms::spec_run;
use crate::nms::spec_nms;
use crate::nms::spec_stats;
use crate::nms::spec_frame_stats;
use crate::nms::stats_upto;
use crate::nms::all_false;
use crate::nms::suppress;
use crate::nms::in_window;
use crate::nms::accepts;
use crate::nms::peak_ok;
use crate::nms::lemma_skip_succ;
use crate::nms::lemma_nms_props;
use crate::nms::lemma_spec_maxes_placed;
use crate::nms::lemma_stats_bounds;
use crate::nms::lemma_stats_invalid_range;
use vstd::arithmetic::mul::lemma_mul_inequality;

verus! {

/// Per-frame statistics over the valid region's block maxima: the sum of the
/// maxima, the sum of their squares, and how many blocks were scanned. A
/// caller derives the mean, the variance and each accepted peak's
/// peak-to-sidelobe score from these.
pub struct FrameStats {
    pub sum: u128,
    pub sq: u128,
    pub count: usize,
}

/// The peak finder. One instance serves one fixed frame geometry and is
/// invoked sequentially across frames; every invocation rewrites the
/// persistent buffers in place.
pub struct BlockNms {
    pub border_skip: usize,
    pub square: usize,
    pub height: usize,
    pub width: usize,
    pub blocks_w: usize,
    pub blocks_h: usize,
    pub order: Vec<usize>,
    pub suppressed: Vec<bool>,
    pub maxes: Vec<BlockInfo>,
}

impl BlockNms {
    /// Well-formed engine state: geometry as derived at construction, buffers
    /// sized to the block grid, and no record ever written for a block
    /// outside the valid region.
    pub closed spec fn wf(self) -> bool {
        &&& self.square >= 1
        &&& self.height >= 1
        &&& self.width >= 1
        &&& self.height + self.square <= usize::MAX
        &&& self.width + self.square <= usize::MAX
        &&& self.blocks_w == blocks_of(self.width as int, self.square as int)
        &&& self.blocks_h == blocks_of(self.height as int, self.square as int)
        &&& self.blocks_w >= 1
        &&& self.blocks_h >= 1
        &&& self.blocks_w * self.blocks_h <= usize::MAX
        &&& self.order@.len() == self.blocks_w * self.blocks_h
        &&& self.suppressed@.len() == self.blocks_w * self.blocks_h
        &&& self.maxes@.len() == self.blocks_w * self.blocks_h
        &&& forall|i: int|
            0 <= i < self.maxes@.len() && !valid_idx(
                self.border_skip as int,
                self.blocks_w as int,
                self.blocks_h as int,
                i,
            ) ==> self.maxes@[i] == info0()
    }

    /// Build an engine for frames of `height x width` samples, blocks of side
    /// `square`, skipping `border_skip` block rows and columns on every side.
    /// All persistent buffers are sized here, once.
    pub fn new(border_skip: usize, square: usize, height: usize, width: usize) -> (r: BlockNms)
        requires
            square >= 1,
            height >= 1,
            width >= 1,
            height + square <= usize::MAX,
            width + square <= usize::MAX,
            blocks_of(width as int, square as int) * blocks_of(height as int, square as int)
                <= usize::MAX,
        ensures
            r.wf(),
            r.border_skip == border_skip,
            r.square == square,
            r.height == height,
            r.width == width,
            r.blocks_w == blocks_of(width as int, square as int),
            r.blocks_h == blocks_of(height as int, square as int),
    {
        let blocks_h = (height + square - 1) / square;
        let blocks_w = (width + square - 1) / square;
        proof {
            lemma_blocks_cover(width as int, square as int);
            lemma_blocks_cover(height as int, square as int);
        }
        let nblocks = blocks_w * blocks_h;
        let mut order: Vec<usize> = Vec::new();
        let mut suppressed: Vec<bool> = Vec::new();
        let mut maxes: Vec<BlockInfo> = Vec::new();
        let mut i: usize = 0;
        while i < nblocks
            invariant
                i <= nblocks,
                order@.len() == i,
                suppressed@.len() == i,
                maxes@.len() == i,
                forall|j: int| 0 <= j < i ==> maxes@[j] == info0(),
            decreases nblocks - i,
        {
            order.push(i);
            suppressed.push(false);
            maxes.push(BlockInfo { max: 0, x: 0, y: 0 });
            i = i + 1;
        }
        BlockNms { border_skip, square, height, width, blocks_w, blocks_h, order, suppressed, maxes }
    }

    /// One invocation on a frame of the constructed geometry: scan every
    /// valid-region block for its maximum, compute the frame statistics, rank
    /// all blocks by descending max (ties by ascending block index), and
    /// greedily select at most `total` peaks, suppressing the Chebyshev
    /// window of `dist_blocks` blocks around each acceptance.
    ///
    /// The returned peaks are exactly the model `spec_run` of the grid and
    /// the construction parameters, so the same grid and parameters give the
    /// same peaks on every invocation. No more than `total` peaks come back;
    /// every peak's block lies in the valid region; and any two accepted
    /// peaks are strictly more than `dist_blocks` apart in block-coordinate
    /// Chebyshev distance.
    pub fn run(&mut self, grid: &Vec<u16>, dist_blocks: usize, total: usize) -> (r: (
        Vec<BlockInfo>,
        FrameStats,
    ))
        requires
            old(self).wf(),
            grid@.len() == old(self).height * old(self).width,
        ensures
            final(self).wf(),
            final(self).border_skip == old(self).border_skip,
            final(self).square == old(self).square,
            final(self).height == old(self).height,
            final(self).width == old(self).width,
            final(self).blocks_w == old(self).blocks_w,
            final(self).blocks_h == old(self).blocks_h,
            r.0@ == spec_run(
                grid@,
                old(self).border_skip as int,
                old(self).square as int,
                old(self).height as int,
                old(self).width as int,
                dist_blocks as int,
                total as nat,
            ),
            ({
                let st = spec_frame_stats(
                    grid@,
                    old(self).border_skip as int,
                    old(self).square as int,
                    old(self).height as int,
                    old(self).width as int,
                );
                r.1.sum == st.0 && r.1.sq == st.1 && r.1.count == st.2
            }),
            r.0@.len() <= total,
            forall|p: int|
                0 <= p < r.0@.len() ==> valid_block(
                    old(self).border_skip as int,
                    old(self).blocks_w as int,
                    old(self).blocks_h as int,
                    (#[trigger] r.0@[p]).x as int / old(self).square as int,
                    r.0@[p].y as int / old(self).square as int,
                ),
            forall|p: int, q: int|
                0 <= p < q < r.0@.len() ==> cheb(
                    (#[trigger] r.0@[p]).x as int / old(self).square as int,
                    r.0@[p].y as int / old(self).square as int,
                    (#[trigger] r.0@[q]).x as int / old(self).square as int,
                    r.0@[q].y as int / old(self).square as int,
                ) > dist_blocks as int,
    {
        let border = self.border_skip;
        let square = self.square;
        let height = self.height;
        let width = self.width;
        let bw = self.blocks_w;
        let bh = self.blocks_h;
        let n = bw * bh;
        let ghost spec_m = spec_maxes(
            grid@,
            border as int,
            square as int,
            height as int,
            width as int,
        );
        proof {
            assert(spec_m.len() == n);
        }
        let start = border;
        let region_ok = bw > start && bh > start && bw - start > start && bh - start > start;
        let end_x = if region_ok {
            bw - start
        } else {
            start
        };
        let end_y = if region_ok {
            bh - start
        } else {
            start
        };
        let mut sum: u128 = 0;
        let mut sq: u128 = 0;
        let mut count: usize = 0;
        if region_ok {
            proof {
                assert forall|i: int|
                    0 <= i < start * bw + start implies !valid_idx(
                    border as int,
                    bw as int,
                    bh as int,
                    i,
                ) by {
                    if valid_idx(border as int, bw as int, bh as int, i) {
                        crate::nms::lemma_valid_idx_range(border as int, bw as int, bh as int, i);
                        assert(i >= start * bw + start) by (nonlinear_arith)
                            requires
                                i == (i / (bw as int)) * (bw as int) + i % (bw as int),
                                i / (bw as int) >= start,
                                i % (bw as int) >= start,
                                bw >= 1,
                        ;
                    }
                }
                lemma_stats_invalid_range(
                    spec_m,
                    border as int,
                    bw as int,
                    bh as int,
                    0,
                    (start * bw + start) as nat,
                );
            }
            let mut by = start;
            while by < end_y
                invariant
                    self.border_skip == border,
                    self.square == square,
                    self.height == height,
                    self.width == width,
                    self.blocks_w == bw,
                    self.blocks_h == bh,
                    square >= 1,
                    height >= 1,
                    width >= 1,
                    height + square <= usize::MAX,
                    width + square <= usize::MAX,
                    bw == blocks_of(width as int, square as int),
                    bh == blocks_of(height as int, square as int),
                    bw >= 1,
                    bh >= 1,
                    n == bw * bh,
                    n <= usize::MAX,
                    self.order@.len() == n,
                    self.suppressed@.len() == n,
                    self.maxes@.len() == n,
                    grid@.len() == height * width,
                    old(self).maxes@.len() == n,
                    start == border,
                    end_x == bw - start,
                    end_y == bh - start,
                    start < end_x,
                    start < end_y,
                    start <= by <= end_y,
                    spec_m == spec_maxes(
                        grid@,
                        border as int,
                        square as int,
                        height as int,
                        width as int,
                    ),
                    spec_m.len() == n,
                    forall|i: int|
                        0 <= i < n ==> self.maxes@[i] == (if valid_idx(
                            border as int,
                            bw as int,
                            bh as int,
                            i,
                        ) && idx_row(i, bw as int) < by {
                            spec_m[i]
                        } else {
                            old(self).maxes@[i]
                        }),
                    sum == stats_upto(
                        spec_m,
                        border as int,
                        bw as int,
                        bh as int,
                        (by * bw + start) as nat,
                    ).0,
                    sq == stats_upto(
                        spec_m,
                        border as int,
                        bw as int,
                        bh as int,
                        (by * bw + start) as nat,
                    ).1,
                    count == stats_upto(
                        spec_m,
                        border as int,
                        bw as int,
                        bh as int,
                        (by * bw + start) as nat,
                    ).2,
                decreases end_y - by,
            {
                proof {
                    lemma_blocks_cover(height as int, square as int);
                    assert(by * square <= (bh - 1) * square) by (nonlinear_arith)
                        requires
                            by <= bh - 1,
                            square >= 1,
                    ;
                    assert(0 <= by * square) by (nonlinear_arith)
                        requires
                            by >= 0,
                            square >= 1,
                    ;
                }
                let y0 = by * square;
                let y1t = y0 + square;
                let y1 = if y1t < height {
                    y1t
                } else {
                    height
                };
                let mut bx = start;
                while bx < end_x
                    invariant
                        self.border_skip == border,
                        self.square == square,
                        self.height == height,
                        self.width == width,
                        self.blocks_w == bw,
                        self.blocks_h == bh,
                        square >= 1,
                        height >= 1,
                        width >= 1,
                        height + square <= usize::MAX,
                        width + square <= usize::MAX,
                        bw == blocks_of(width as int, square as int),
                        bh == blocks_of(height as int, square as int),
                        bw >= 1,
                        bh >= 1,
                        n == bw * bh,
                        n <= usize::MAX,
                        self.order@.len() == n,
                        self.suppressed@.len() == n,
                        self.maxes@.len() == n,
                        grid@.len() == height * width,
                        old(self).maxes@.len() == n,
                        start == border,
                        end_x == bw - start,
                        end_y == bh - start,
                        start < end_x,
                        start < end_y,
                        start <= by < end_y,
                        start <= bx <= end_x,
                        y0 == by * square,
                        y1 as int == crate::grid::block_hi(square as int, height as int, by as int),
                        y1 <= height,
                        spec_m == spec_maxes(
                            grid@,
                            border as int,
                            square as int,
                            height as int,
                            width as int,
                        ),
                        spec_m.len() == n,
                        forall|i: int|
                            0 <= i < n ==> self.maxes@[i] == (if valid_idx(
                                border as int,
                                bw as int,
                                bh as int,
                                i,
                            ) && (idx_row(i, bw as int) < by || (idx_row(i, bw as int) == by
                                && idx_col(i, bw as int) < bx)) {
                                spec_m[i]
                            } else {
                                old(self).maxes@[i]
                            }),
                        sum == stats_upto(
                            spec_m,
                            border as int,
                            bw as int,
                            bh as int,
                            (by * bw + bx) as nat,
                        ).0,
                        sq == stats_upto(
                            spec_m,
                            border as int,
                            bw as int,
                            bh as int,
                            (by * bw + bx) as nat,
                        ).1,
                        count == stats_upto(
                            spec_m,
                            border as int,
                            bw as int,
                            bh as int,
                            (by * bw + bx) as nat,
                        ).2,
                    decreases end_x - bx,
                {
                    proof {
                        lemma_blocks_cover(width as int, square as int);
                        assert(bx * square <= (bw - 1) * square) by (nonlinear_arith)
                            requires
                                bx <= bw - 1,
                                square >= 1,
                        ;
                        assert(0 <= bx * square) by (nonlinear_arith)
                            requires
                                bx >= 0,
                                square >= 1,
                        ;
                        assert(y1 * width <= height * width) by (nonlinear_arith)
                            requires
                                y1 <= height,
                                width >= 1,
                        ;
                    }
                    let x0 = bx * square;
                    let x1t = x0 + square;
                    let x1 = if x1t < width {
                        x1t
                    } else {
                        width
                    };
                    let info = block_info(grid, width, x0, x1, y0, y1);
                    proof {
                        assert(by * bw + bx < bh * bw) by (nonlinear_arith)
                            requires
                                0 <= bx < bw,
                                0 <= by < bh,
                        ;
                        assert(bh * bw == bw * bh) by (nonlinear_arith);
                    }
                    let idx = by * bw + bx;
                    proof {
                        lemma_split_idx(bx as int, by as int, bw as int, bh as int);
                        assert(valid_idx(border as int, bw as int, bh as int, idx as int));
                        assert(spec_m[idx as int] == info);
                    }
                    self.maxes[idx] = info;
                    proof {
                        assert forall|i: int|
                            0 <= i < n && idx_row(i, bw as int) == by && idx_col(i, bw as int)
                            == bx implies i == idx by {
                            crate::grid::lemma_idx_split(i, bw as int, bh as int);
                        }
                    }
                    proof {
                        let gs = stats_upto(
                            spec_m,
                            border as int,
                            bw as int,
                            bh as int,
                            (idx + 1) as nat,
                        );
                        lemma_stats_bounds(
                            spec_m,
                            border as int,
                            bw as int,
                            bh as int,
                            (idx + 1) as nat,
                        );
                        lemma_mul_inequality(idx + 1, n as int, 0xFFFF);
                        lemma_mul_inequality(idx + 1, n as int, 0xFFFF * 0xFFFF as int);
                        assert(gs.0 <= (n as int) * 0xFFFF);
                        assert(gs.1 <= (n as int) * (0xFFFF * 0xFFFF));
                        assert((n as int) * 0xFFFF <= (usize::MAX as int) * 0xFFFF) by {
                            lemma_mul_inequality(n as int, usize::MAX as int, 0xFFFF);
                        }
                        assert((n as int) * (0xFFFF * 0xFFFF) <= (usize::MAX as int) * (0xFFFF
                            * 0xFFFF)) by {
                            lemma_mul_inequality(n as int, usize::MAX as int, 0xFFFF * 0xFFFF as int);
                        }
                    }
                    sum = sum + info.max as u128;
                    sq = sq + (info.max as u128) * (info.max as u128);
                    count = count + 1;
                    bx = bx + 1;
                }
                proof {
                    // Between the end of this block row and the start of the
                    // next, every linear index is outside the valid region.
                    assert((by + 1) as int * bw == by * bw + bw) by (nonlinear_arith);
                    assert forall|j: int|
                        by * bw + end_x <= j < (by + 1) * bw + start implies !valid_idx(
                        border as int,
                        bw as int,
                        bh as int,
                        j,
                    ) by {
                        assert((by + 1) as int * bw == by * bw + bw) by (nonlinear_arith);
                        if j < (by + 1) * bw {
                            let c = j - by * bw;
                            assert(0 <= c < bw);
                            lemma_split_idx(c, by as int, bw as int, bh as int);
                            assert(idx_col(j, bw as int) == c >= end_x);
                        } else {
                            let c = j - (by + 1) * bw;
                            assert(0 <= c < start);
                            assert(by + 1 < bh);
                            lemma_split_idx(c, by as int + 1, bw as int, bh as int);
                            assert(idx_col(j, bw as int) == c < start);
                        }
                    }
                    lemma_stats_invalid_range(
                        spec_m,
                        border as int,
                        bw as int,
                        bh as int,
                        (by * bw + end_x) as nat,
                        ((by + 1) * bw + start) as nat,
                    );
                    assert(((by + 1) * bw + start) as int == (by + 1) as int * bw + start)
                        by (nonlinear_arith);
                    // A record is final once its block row is done.
                    assert forall|i: int| 0 <= i < n implies (valid_idx(
                        border as int,
                        bw as int,
                        bh as int,
                        i,
                    ) && (idx_row(i, bw as int) < by || (idx_row(i, bw as int) == by && idx_col(
                        i,
                        bw as int,
                    ) < end_x))) == (valid_idx(border as int, bw as int, bh as int, i) && idx_row(
                        i,
                        bw as int,
                    ) < by + 1) by {}
                }
                by = by + 1;
            }
            proof {
                // All remaining linear indices lie at or below the border.
                assert forall|j: int|
                    end_y * bw + start <= j < n implies !valid_idx(
                    border as int,
                    bw as int,
                    bh as int,
                    j,
                ) by {
                    if valid_idx(border as int, bw as int, bh as int, j) {
                        crate::nms::lemma_valid_idx_range(border as int, bw as int, bh as int, j);
                        assert(j < end_y * bw) by (nonlinear_arith)
                            requires
                                j == (j / (bw as int)) * (bw as int) + j % (bw as int),
                                j / (bw as int) < end_y,
                                0 <= j % (bw as int),
                                bw >= 1,
                                end_y == bh - start,
                        ;
                    }
                }
                assert(end_y * bw + start <= bw * bh) by (nonlinear_arith)
                    requires
                        end_y == bh - start,
                        0 <= start <= bh,
                        bw >= 1,
                ;
                lemma_stats_invalid_range(
                    spec_m,
                    border as int,
                    bw as int,
                    bh as int,
                    (end_y * bw + start) as nat,
                    n as nat,
                );
            }
        } else {
            proof {
                assert forall|i: int|
                    0 <= i < n implies !valid_idx(border as int, bw as int, bh as int, i) by {}
                lemma_stats_invalid_range(spec_m, border as int, bw as int, bh as int, 0, n as nat);
            }
        }
        proof {
            assert(self.maxes@ =~= spec_m);
            assert(sum == spec_stats(spec_m, border as int, bw as int, bh as int).0);
            assert(sq == spec_stats(spec_m, border as int, bw as int, bh as int).1);
            assert(count == spec_stats(spec_m, border as int, bw as int, bh as int).2);
        }
        let stats = FrameStats { sum, sq, count };
        sort_order(&mut self.order, &self.maxes);
        let ghost order_s = self.order@;
        proof {
            assert(order_s == sorted_order(spec_m));
            lemma_sorted_order_props(spec_m);
        }
        let mut i: usize = 0;
        while i < n
            invariant
                self.border_skip == border,
                self.square == square,
                self.height == height,
                self.width == width,
                self.blocks_w == bw,
                self.blocks_h == bh,
                n == bw * bh,
                self.order@ == order_s,
                self.maxes@ == spec_m,
                self.suppressed@.len() == n,
                i <= n,
                forall|j: int| 0 <= j < i ==> self.suppressed@[j] == false,
            decreases n - i,
        {
            self.suppressed[i] = false;
            i = i + 1;
        }
        proof {
            assert(self.suppressed@ =~= all_false(n as nat));
        }
        let ghost result = spec_nms(
            spec_m,
            order_s,
            all_false(n as nat),
            border as int,
            bw as int,
            bh as int,
            dist_blocks as int,
            total as nat,
        );
        proof {
            assert(order_s.skip(0) =~= order_s);
            assert(Seq::<BlockInfo>::empty() + result =~= result);
        }
        let mut out: Vec<BlockInfo> = Vec::new();
        let mut k: usize = 0;
        while k < n && out.len() < total
            invariant
                self.border_skip == border,
                self.square == square,
                self.height == height,
                self.width == width,
                self.blocks_w == bw,
                self.blocks_h == bh,
                square >= 1,
                bw >= 1,
                bh >= 1,
                n == bw * bh,
                n <= usize::MAX,
                self.order@ == order_s,
                self.maxes@ == spec_m,
                spec_m.len() == n,
                order_s.len() == n,
                is_ranked_perm(spec_m, order_s, spec_m.len()),
                self.suppressed@.len() == n,
                start == border,
                end_x == (if region_ok { (bw - start) as int } else { start as int }),
                end_y == (if region_ok { (bh - start) as int } else { start as int }),
                region_ok == (bw > start && bh > start && bw - start > start && bh - start > start),
                k <= n,
                out@.len() <= total,
                out@ + spec_nms(
                    spec_m,
                    order_s.skip(k as int),
                    self.suppressed@,
                    border as int,
                    bw as int,
                    bh as int,
                    dist_blocks as int,
                    (total - out@.len()) as nat,
                ) == result,
            decreases n - k,
        {
            let b = self.order[k];
            proof {
                assert(order_s[k as int] < n);
                lemma_skip_succ(order_s, k as int);
            }
            let ghost sup_head = self.suppressed@;
            let ghost budget = (total - out@.len()) as nat;
            let suppressed_here = self.suppressed[b];
            let zero_here = self.maxes[b].max == 0;
            if !suppressed_here && !zero_here {
                let bx = b % bw;
                let by = b / bw;
                if bx >= start && bx < end_x && by >= start && by < end_y {
                    let pk = self.maxes[b];
                    proof {
                        assert(valid_idx(border as int, bw as int, bh as int, b as int));
                        assert(accepts(
                            spec_m,
                            sup_head,
                            border as int,
                            bw as int,
                            bh as int,
                            b as int,
                        ));
                    }
                    out.push(pk);
                    let x_lo = if bx - start >= dist_blocks {
                        bx - dist_blocks
                    } else {
                        start
                    };
                    let x_hi = if end_x - 1 - bx <= dist_blocks {
                        end_x - 1
                    } else {
                        bx + dist_blocks
                    };
                    let y_lo = if by - start >= dist_blocks {
                        by - dist_blocks
                    } else {
                        start
                    };
                    let y_hi = if end_y - 1 - by <= dist_blocks {
                        end_y - 1
                    } else {
                        by + dist_blocks
                    };
                    let ghost out_now = out@;
                    let mut yy = y_lo;
                    while yy <= y_hi
                        invariant
                            self.border_skip == border,
                            self.square == square,
                            self.height == height,
                            self.width == width,
                            self.blocks_w == bw,
                            self.blocks_h == bh,
                            bw >= 1,
                            bh >= 1,
                            n == bw * bh,
                            n <= usize::MAX,
                            self.order@ == order_s,
                            self.maxes@ == spec_m,
                            self.suppressed@.len() == n,
                            sup_head.len() == n,
                            out@ == out_now,
                            y_lo <= yy <= y_hi + 1,
                            x_lo <= x_hi < bw,
                            y_hi < bh,
                            0 <= x_lo,
                            0 <= y_lo,
                            forall|i: int|
                                0 <= i < n ==> self.suppressed@[i] == (sup_head[i] || (x_lo
                                    <= idx_col(i, bw as int) <= x_hi && y_lo <= idx_row(
                                    i,
                                    bw as int,
                                ) < yy)),
                        decreases y_hi + 1 - yy,
                    {
                        proof {
                            assert forall|i: int|
                                0 <= i < n implies self.suppressed@[i] == (sup_head[i] || (x_lo
                                <= idx_col(i, bw as int) <= x_hi && y_lo <= idx_row(i, bw as int)
                                < yy) || (idx_row(i, bw as int) == yy && x_lo <= idx_col(
                                i,
                                bw as int,
                            ) < x_lo)) by {}
                        }
                        let mut xx = x_lo;
                        while xx <= x_hi
                            invariant
                                self.border_skip == border,
                                self.square == square,
                                self.height == height,
                                self.width == width,
                                self.blocks_w == bw,
                                self.blocks_h == bh,
                                bw >= 1,
                                bh >= 1,
                                n == bw * bh,
                                n <= usize::MAX,
                                self.order@ == order_s,
                                self.maxes@ == spec_m,
                                self.suppressed@.len() == n,
                                sup_head.len() == n,
                                out@ == out_now,
                                y_lo <= yy <= y_hi,
                                x_lo <= xx <= x_hi + 1,
                                x_lo <= x_hi < bw,
                                y_hi < bh,
                                0 <= x_lo,
                                0 <= y_lo,
                                forall|i: int|
                                    0 <= i < n ==> self.suppressed@[i] == (sup_head[i] || (x_lo
                                        <= idx_col(i, bw as int) <= x_hi && y_lo <= idx_row(
                                        i,
                                        bw as int,
                                    ) < yy) || (idx_row(i, bw as int) == yy && x_lo <= idx_col(
                                        i,
                                        bw as int,
                                    ) < xx)),
                            decreases x_hi + 1 - xx,
                        {
                            proof {
                                assert(yy * bw + xx < bh * bw) by (nonlinear_arith)
                                    requires
                                        0 <= xx < bw,
                                        0 <= yy < bh,
                                ;
                                assert(bh * bw == bw * bh) by (nonlinear_arith);
                                lemma_split_idx(xx as int, yy as int, bw as int, bh as int);
                            }
                            let nb = yy * bw + xx;
                            self.suppressed[nb] = true;
                            proof {
                                assert forall|i: int|
                                    0 <= i < n && i != nb implies idx_row(i, bw as int) != yy
                                    || idx_col(i, bw as int) != xx by {
                                    crate::grid::lemma_idx_split(i, bw as int, bh as int);
                                }
                            }
                            xx = xx + 1;
                        }
                        yy = yy + 1;
                    }
                    proof {
                        assert(idx_col(b as int, bw as int) == bx as int);
                        assert(idx_row(b as int, bw as int) == by as int);
                        assert(end_x == bw - start && end_y == bh - start);
                        assert(x_lo as int == (if bx as int - dist_blocks as int >= border as int {
                            bx as int - dist_blocks as int
                        } else {
                            border as int
                        }));
                        assert(x_hi as int == (if bx as int + dist_blocks as int <= bw as int
                            - border as int - 1 {
                            bx as int + dist_blocks as int
                        } else {
                            bw as int - border as int - 1
                        }));
                        assert(y_lo as int == (if by as int - dist_blocks as int >= border as int {
                            by as int - dist_blocks as int
                        } else {
                            border as int
                        }));
                        assert(y_hi as int == (if by as int + dist_blocks as int <= bh as int
                            - border as int - 1 {
                            by as int + dist_blocks as int
                        } else {
                            bh as int - border as int - 1
                        }));
                        assert forall|i: int|
                            0 <= i < n implies self.suppressed@[i] == (sup_head[i] || in_window(
                            border as int,
                            bw as int,
                            bh as int,
                            dist_blocks as int,
                            b as int,
                            i,
                        )) by {
                            assert(yy == y_hi + 1);
                            assert(self.suppressed@[i] == (sup_head[i] || (x_lo <= idx_col(
                                i,
                                bw as int,
                            ) <= x_hi && y_lo <= idx_row(i, bw as int) < yy)));
                        }
                        assert(self.suppressed@ =~= suppress(
                            sup_head,
                            border as int,
                            bw as int,
                            bh as int,
                            dist_blocks as int,
                            b as int,
                        ));
                        assert(spec_nms(
                            spec_m,
                            order_s.skip(k as int),
                            sup_head,
                            border as int,
                            bw as int,
                            bh as int,
                            dist_blocks as int,
                            budget,
                        ) == seq![spec_m[b as int]] + spec_nms(
                            spec_m,
                            order_s.skip(k as int + 1),
                            self.suppressed@,
                            border as int,
                            bw as int,
                            bh as int,
                            dist_blocks as int,
                            (budget - 1) as nat,
                        ));
                        assert(out@ + spec_nms(
                            spec_m,
                            order_s.skip(k as int + 1),
                            self.suppressed@,
                            border as int,
                            bw as int,
                            bh as int,
                            dist_blocks as int,
                            (total - out@.len()) as nat,
                        ) =~= result);
                    }
                } else {
                    proof {
                        if valid_idx(border as int, bw as int, bh as int, b as int) {
                            assert(border <= idx_col(b as int, bw as int) < bw - border);
                            assert(border <= idx_row(b as int, bw as int) < bh - border);
                            assert(region_ok);
                            assert(false);
                        }
                        assert(!accepts(
                            spec_m,
                            sup_head,
                            border as int,
                            bw as int,
                            bh as int,
                            b as int,
                        ));
                    }
                }
            } else {
                proof {
                    assert(!accepts(
                        spec_m,
                        sup_head,
                        border as int,
                        bw as int,
                        bh as int,
                        b as int,
                    ));
                }
            }
            k = k + 1;
        }
        proof {
            if k == n {
                assert(order_s.skip(k as int).len() == 0);
            }
            assert(out@ + Seq::<BlockInfo>::empty() =~= out@);
            assert(out@ == result);
            lemma_spec_maxes_placed(
                grid@,
                border as int,
                square as int,
                height as int,
                width as int,
            );
            lemma_nms_props(
                spec_m,
                order_s,
                all_false(n as nat),
                border as int,
                square as int,
                bw as int,
                bh as int,
                dist_blocks as int,
                total as nat,
            );
            assert(out@ == spec_run(
                grid@,
                border as int,
                square as int,
                height as int,
                width as int,
                dist_blocks as int,
                total as nat,
            ));
            assert forall|p: int| 0 <= p < out@.len() implies valid_block(
                border as int,
                bw as int,
                bh as int,
                (#[trigger] out@[p]).x as int / square as int,
                out@[p].y as int / square as int,
            ) by {
                assert(peak_ok(
                    spec_m,
                    all_false(n as nat),
                    border as int,
                    square as int,
                    bw as int,
                    bh as int,
                    out@[p],
                ));
            }
        }
        (out, stats)
    }

    /// The coordinate-only output shape: the same selection as `run`, each
    /// accepted peak reduced to the `(x, y)` position of its maximum.
    pub fn run_coords(&mut self, grid: &Vec<u16>, dist_blocks: usize, total: usize) -> (r: Vec<
        (usize, usize),
    >)
        requires
            old(self).wf(),
            grid@.len() == old(self).height * old(self).width,
        ensures
            final(self).wf(),
            final(self).border_skip == old(self).border_skip,
            final(self).square == old(self).square,
            final(self).height == old(self).height,
            final(self).width == old(self).width,
            final(self).blocks_w == old(self).blocks_w,
            final(self).blocks_h == old(self).blocks_h,
            ({
                let peaks = spec_run(
                    grid@,
                    old(self).border_skip as int,
                    old(self).square as int,
                    old(self).height as int,
                    old(self).width as int,
                    dist_blocks as int,
                    total as nat,
                );
                &&& r@.len() == peaks.len()
                &&& forall|p: int| 0 <= p < r@.len() ==> r@[p] == (peaks[p].x, peaks[p].y)
            }),
    {
        let ghost sr = spec_run(
            grid@,
            self.border_skip as int,
            self.square as int,
            self.height as int,
            self.width as int,
            dist_blocks as int,
            total as nat,
        );
        let (peaks, _stats) = self.run(grid, dist_blocks, total);
        let mut out: Vec<(usize, usize)> = Vec::new();
        let mut i: usize = 0;
        while i < peaks.len()
            invariant
                peaks@ == sr,
                i <= peaks@.len(),
                out@.len() == i,
                forall|p: int| 0 <= p < i ==> out@[p] == (peaks@[p].x, peaks@[p].y),
            decreases peaks@.len() - i,
        {
            out.push((peaks[i].x, peaks[i].y));
            i = i + 1;
        }
        out
    }
}

} // verus!
