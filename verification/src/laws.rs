//! Frame-level laws of the selector, stated over the model `spec_run` that
//! `BlockNms::run` returns exactly.

use vstd::prelude::*;
use crate::grid::blocks_of;
use crate::grid::cell;
use crate::grid::valid_block;
use crate::grid::valid_idx;
use crate::grid::idx_col;
use crate::grid::idx_row;
use crate::grid::lemma_split_idx;
use crate::grid::lemma_idx_split;
use crate::grid::lemma_blocks_cover;
use crate::scan::BlockInfo;
use crate::scan::info0;
use crate::scan::rect_best;
use crate::scan::lemma_rect_best_props;
use crate::order::prefer;
use crate::order::sorted_order;
use crate::order::lemma_sorted_order_props;
use crate::nms::spec_maxes;
use crate::nms::spec_run;
use crate::nms::spec_nms;
use crate::nms::spec_frame_stats;
use crate::nms::stats_upto;
use crate::nms::all_false;
use crate::nms::accepts;
use crate::nms::peak_ok;
use crate::nms::peak_block;
use crate::nms::lemma_nms_props;
use crate::nms::lemma_spec_maxes_placed;
use crate::engine::BlockNms;
use vstd::arithmetic::div_mod::lemma_fundamental_div_mod;
use vstd::arithmetic::div_mod::lemma_fundamental_div_mod_converse;

verus! {

/// A request for no peaks yields no peaks, on every grid, every time.
pub proof fn lemma_total_zero_empty(
    g: Seq<u16>,
    border: int,
    square: int,
    height: int,
    width: int,
    dist: int,
)
    ensures
        spec_run(g, border, square, height, width, dist, 0).len() == 0,
{
}

/// The peaks are a function of the grid and the construction geometry alone.
/// Two engines with the same geometry — in particular one engine invoked
/// twice, whatever its buffers held after earlier frames — produce identical
/// peaks for the same grid, suppression radius and requested count.
pub proof fn lemma_rerun_identical(e1: BlockNms, e2: BlockNms, g: Seq<u16>, dist: int, total: nat)
    requires
        e1.border_skip == e2.border_skip,
        e1.square == e2.square,
        e1.height == e2.height,
        e1.width == e2.width,
    ensures
        spec_run(
            g,
            e1.border_skip as int,
            e1.square as int,
            e1.height as int,
            e1.width as int,
            dist,
            total,
        ) == spec_run(
            g,
            e2.border_skip as int,
            e2.square as int,
            e2.height as int,
            e2.width as int,
            dist,
            total,
        ),
{
}

/// The valid region's block records of a uniform grid all hold the constant.
proof fn lemma_uniform_maxes(g: Seq<u16>, c: u16, border: int, square: int, height: int, width: int)
    requires
        square >= 1,
        1 <= height <= usize::MAX,
        1 <= width <= usize::MAX,
        border >= 0,
        g.len() == height * width,
        forall|j: int| 0 <= j < g.len() ==> g[j] == c,
    ensures
        ({
            let bw = blocks_of(width, square);
            let bh = blocks_of(height, square);
            let m = spec_maxes(g, border, square, height, width);
            forall|b: int|
                0 <= b < m.len() && valid_idx(border, bw, bh, b) ==> (#[trigger] m[b]).max == c
        }),
{
    let bw = blocks_of(width, square);
    let bh = blocks_of(height, square);
    let m = spec_maxes(g, border, square, height, width);
    lemma_blocks_cover(width, square);
    lemma_blocks_cover(height, square);
    assert forall|b: int|
        0 <= b < m.len() && valid_idx(border, bw, bh, b) implies (#[trigger] m[b]).max == c by {
        lemma_idx_split(b, bw, bh);
        let bx = idx_col(b, bw);
        let by = idx_row(b, bw);
        let x0 = bx * square;
        let y0 = by * square;
        assert(0 <= x0 && x0 < width) by {
            assert(0 <= bx * square && bx * square <= (bw - 1) * square) by (nonlinear_arith)
                requires
                    0 <= bx <= bw - 1,
                    square >= 1,
            ;
        }
        assert(0 <= y0 && y0 < height) by {
            assert(0 <= by * square && by * square <= (bh - 1) * square) by (nonlinear_arith)
                requires
                    0 <= by <= bh - 1,
                    square >= 1,
            ;
        }
        let x1 = crate::grid::block_hi(square, width, bx);
        let y1 = crate::grid::block_hi(square, height, by);
        lemma_rect_best_props(g, width, x0, x1, y0, y1);
        let pk = m[b];
        assert(cell(g, width, pk.x as int, pk.y as int) == pk.max);
        assert(pk.y as int * width + pk.x < height * width) by (nonlinear_arith)
            requires
                0 <= pk.x < width,
                0 <= pk.y < height,
        ;
        assert(0 <= pk.y as int * width + pk.x) by (nonlinear_arith)
            requires
                0 <= pk.x,
                0 <= pk.y,
                width >= 1,
        ;
        assert(g[pk.y as int * width + pk.x as int] == c);
    }
}

/// The statistics of records that all hold one constant: the sum is the
/// constant times the count.
proof fn lemma_uniform_stats(
    maxes: Seq<BlockInfo>,
    c: u16,
    border: int,
    bw: int,
    bh: int,
    k: nat,
)
    requires
        forall|b: int|
            0 <= b < maxes.len() && valid_idx(border, bw, bh, b) ==> (#[trigger] maxes[b]).max == c,
        k <= maxes.len(),
    ensures
        ({
            let s = stats_upto(maxes, border, bw, bh, k);
            s.0 == c * s.2
        }),
    decreases k,
{
    if k > 0 {
        lemma_uniform_stats(maxes, c, border, bw, bh, (k - 1) as nat);
        let p = stats_upto(maxes, border, bw, bh, (k - 1) as nat);
        let s = stats_upto(maxes, border, bw, bh, k);
        if valid_idx(border, bw, bh, k - 1) {
            assert(maxes[k - 1].max == c);
            assert(s.0 == p.0 + c && s.2 == p.2 + 1);
            assert(c * (p.2 + 1) == c * p.2 + c) by (nonlinear_arith);
            assert(s.0 == c * s.2);
        } else {
            assert(s == p);
        }
    } else {
        assert(stats_upto(maxes, border, bw, bh, k) == (0int, 0int, 0int));
        assert(c * 0int == 0int) by (nonlinear_arith);
    }
}

/// On a grid of one uniform constant, every accepted peak's value is that
/// constant and the sum of the valid region's block maxima is the constant
/// times their count — so each accepted peak's value times the count equals
/// the sum, the peak-to-sidelobe numerator vanishes, and every PSR a caller
/// derives from these statistics is zero.
pub proof fn lemma_uniform_psr_zero(
    g: Seq<u16>,
    c: u16,
    border: int,
    square: int,
    height: int,
    width: int,
    dist: int,
    total: nat,
)
    requires
        square >= 1,
        1 <= height <= usize::MAX,
        1 <= width <= usize::MAX,
        border >= 0,
        dist >= 0,
        g.len() == height * width,
        forall|j: int| 0 <= j < g.len() ==> g[j] == c,
    ensures
        ({
            let r = spec_run(g, border, square, height, width, dist, total);
            let st = spec_frame_stats(g, border, square, height, width);
            &&& st.0 == c * st.2
            &&& forall|p: int| 0 <= p < r.len() ==> (#[trigger] r[p]).max == c
        }),
{
    let bw = blocks_of(width, square);
    let bh = blocks_of(height, square);
    let m = spec_maxes(g, border, square, height, width);
    lemma_blocks_cover(width, square);
    lemma_blocks_cover(height, square);
    lemma_uniform_maxes(g, c, border, square, height, width);
    lemma_uniform_stats(m, c, border, bw, bh, (bw * bh) as nat);
    lemma_spec_maxes_placed(g, border, square, height, width);
    lemma_nms_props(
        m,
        sorted_order(m),
        all_false((bw * bh) as nat),
        border,
        square,
        bw,
        bh,
        dist,
        total,
    );
    let r = spec_run(g, border, square, height, width, dist, total);
    assert forall|p: int| 0 <= p < r.len() implies (#[trigger] r[p]).max == c by {
        assert(peak_ok(m, all_false((bw * bh) as nat), border, square, bw, bh, r[p]));
        let blk = peak_block(square, bw, r[p]);
        assert(r[p] == m[blk]);
        lemma_split_idx(r[p].x as int / square, r[p].y as int / square, bw, bh);
        assert(valid_idx(border, bw, bh, blk));
    }
}

/// A grid with one strictly maximal positive sample whose block lies in the
/// valid region: with at least one peak requested, that sample's exact
/// position and value are the first accepted peak.
pub proof fn lemma_single_spike_first(
    g: Seq<u16>,
    sx: int,
    sy: int,
    border: int,
    square: int,
    height: int,
    width: int,
    dist: int,
    total: nat,
)
    requires
        square >= 1,
        1 <= height <= usize::MAX,
        1 <= width <= usize::MAX,
        border >= 0,
        dist >= 0,
        total >= 1,
        g.len() == height * width,
        blocks_of(width, square) * blocks_of(height, square) <= usize::MAX,
        0 <= sx < width,
        0 <= sy < height,
        cell(g, width, sx, sy) > 0,
        forall|x: int, y: int|
            0 <= x < width && 0 <= y < height && !(x == sx && y == sy) ==> #[trigger] cell(
                g,
                width,
                x,
                y,
            ) < cell(g, width, sx, sy),
        valid_block(
            border,
            blocks_of(width, square),
            blocks_of(height, square),
            sx / square,
            sy / square,
        ),
    ensures
        ({
            let r = spec_run(g, border, square, height, width, dist, total);
            &&& r.len() >= 1
            &&& r[0] == (BlockInfo { max: cell(g, width, sx, sy), x: sx as usize, y: sy as usize })
        }),
{
    let bw = blocks_of(width, square);
    let bh = blocks_of(height, square);
    let m = spec_maxes(g, border, square, height, width);
    let v = cell(g, width, sx, sy);
    lemma_blocks_cover(width, square);
    lemma_blocks_cover(height, square);
    let bxs = sx / square;
    let bys = sy / square;
    vstd::arithmetic::div_mod::lemma_fundamental_div_mod(sx, square);
    vstd::arithmetic::div_mod::lemma_mod_bound(sx, square);
    vstd::arithmetic::div_mod::lemma_fundamental_div_mod(sy, square);
    vstd::arithmetic::div_mod::lemma_mod_bound(sy, square);
    lemma_split_idx(bxs, bys, bw, bh);
    let bs = bys * bw + bxs;
    assert(valid_idx(border, bw, bh, bs));
    // The spike's own block records the spike.
    assert(m[bs] == (BlockInfo { max: v, x: sx as usize, y: sy as usize })) by {
        assert(0 <= bxs * square) by (nonlinear_arith)
            requires
                0 <= bxs,
                square >= 1,
        ;
        assert(0 <= bys * square) by (nonlinear_arith)
            requires
                0 <= bys,
                square >= 1,
        ;
        lemma_block_of_spike(g, sx, sy, border, square, height, width, bxs, bys);
    }
    // Every other block's record is strictly below the spike.
    assert forall|b: int| 0 <= b < m.len() && b != bs implies (#[trigger] m[b]).max < v by {
        if valid_idx(border, bw, bh, b) {
            lemma_other_block_below(g, sx, sy, border, square, height, width, b);
        } else {
            assert(m[b] == info0());
        }
    }
    // The ranking puts the spike's block first.
    let ord = sorted_order(m);
    lemma_sorted_order_props(m);
    assert(ord.contains(bs as usize));
    let j = choose|j: int| 0 <= j < ord.len() && ord[j] == bs as usize;
    assert(ord[0] as int == bs) by {
        if ord[0] as int != bs {
            assert(j > 0);
            assert(prefer(m, ord[0] as int, ord[j] as int));
            assert(m[ord[0] as int].max < v);
        }
    }
    // The selector accepts it at once.
    let sup0 = all_false((bw * bh) as nat);
    assert(accepts(m, sup0, border, bw, bh, bs));
    let r = spec_run(g, border, square, height, width, dist, total);
    assert(r == seq![m[bs]] + spec_nms(
        m,
        ord.drop_first(),
        crate::nms::suppress(sup0, border, bw, bh, dist, bs),
        border,
        bw,
        bh,
        dist,
        (total - 1) as nat,
    ));
    assert(r[0] == m[bs]);
}

/// The spike's block records exactly the spike: every other sample of the
/// rectangle is strictly lower, so the maximum and its first occurrence are
/// the spike itself.
proof fn lemma_block_of_spike(
    g: Seq<u16>,
    sx: int,
    sy: int,
    border: int,
    square: int,
    height: int,
    width: int,
    bxs: int,
    bys: int,
)
    requires
        square >= 1,
        1 <= height <= usize::MAX,
        1 <= width <= usize::MAX,
        border >= 0,
        g.len() == height * width,
        0 <= sx < width,
        0 <= sy < height,
        forall|x: int, y: int|
            bxs * square <= x < crate::grid::block_hi(square, width, bxs) && bys * square <= y
                < crate::grid::block_hi(square, height, bys) && !(x == sx && y == sy)
                ==> #[trigger] cell(g, width, x, y) < cell(g, width, sx, sy),
        bxs == sx / square,
        bys == sy / square,
        0 <= bxs < blocks_of(width, square),
        0 <= bys < blocks_of(height, square),
        valid_idx(border, blocks_of(width, square), blocks_of(height, square), bys * blocks_of(
            width,
            square,
        ) + bxs),
        idx_col(bys * blocks_of(width, square) + bxs, blocks_of(width, square)) == bxs,
        idx_row(bys * blocks_of(width, square) + bxs, blocks_of(width, square)) == bys,
    ensures
        ({
            let m = spec_maxes(g, border, square, height, width);
            m[bys * blocks_of(width, square) + bxs] == (BlockInfo {
                max: cell(g, width, sx, sy),
                x: sx as usize,
                y: sy as usize,
            })
        }),
{
    let bw = blocks_of(width, square);
    let bh = blocks_of(height, square);
    let m = spec_maxes(g, border, square, height, width);
    let v = cell(g, width, sx, sy);
    let bs = bys * bw + bxs;
    lemma_split_idx(bxs, bys, bw, bh);
    let x0 = bxs * square;
    let x1 = crate::grid::block_hi(square, width, bxs);
    let y0 = bys * square;
    let y1 = crate::grid::block_hi(square, height, bys);
    lemma_fundamental_div_mod(sx, square);
    vstd::arithmetic::div_mod::lemma_mod_bound(sx, square);
    lemma_fundamental_div_mod(sy, square);
    vstd::arithmetic::div_mod::lemma_mod_bound(sy, square);
    assert(x0 <= sx < x0 + square) by (nonlinear_arith)
        requires
            sx == square * bxs + sx % square,
            0 <= sx % square < square,
            x0 == bxs * square,
    ;
    assert(y0 <= sy < y0 + square) by (nonlinear_arith)
        requires
            sy == square * bys + sy % square,
            0 <= sy % square < square,
            y0 == bys * square,
    ;
    lemma_rect_best_props(g, width, x0, x1, y0, y1);
    let pk = rect_best(g, width, x0, x1, y0, y1);
    assert(cell(g, width, pk.x as int, pk.y as int) == pk.max);
    assert(cell(g, width, sx, sy) <= pk.max);
    if !(pk.x == sx && pk.y == sy) {
        assert(cell(g, width, pk.x as int, pk.y as int) < v);
        assert(false);
    }
    assert(m[bs] == pk);
}

/// Two equal positive spikes on an otherwise zero grid, in distinct valid
/// blocks strictly more than `dist` apart in block Chebyshev distance: with
/// at least two peaks requested, exactly the two spikes are accepted, the one
/// with the lower block index first. At Chebyshev distance `dist` or less the
/// selector's separation guarantee already forbids the second acceptance.
pub proof fn lemma_two_spikes_separated(
    g: Seq<u16>,
    s1x: int,
    s1y: int,
    s2x: int,
    s2y: int,
    border: int,
    square: int,
    height: int,
    width: int,
    dist: int,
    total: nat,
)
    requires
        square >= 1,
        1 <= height <= usize::MAX,
        1 <= width <= usize::MAX,
        border >= 0,
        dist >= 0,
        total >= 2,
        g.len() == height * width,
        blocks_of(width, square) * blocks_of(height, square) <= usize::MAX,
        0 <= s1x < width,
        0 <= s1y < height,
        0 <= s2x < width,
        0 <= s2y < height,
        cell(g, width, s1x, s1y) == cell(g, width, s2x, s2y),
        cell(g, width, s1x, s1y) > 0,
        forall|x: int, y: int|
            0 <= x < width && 0 <= y < height && !(x == s1x && y == s1y) && !(x == s2x && y == s2y)
                ==> #[trigger] cell(g, width, x, y) == 0,
        valid_block(
            border,
            blocks_of(width, square),
            blocks_of(height, square),
            s1x / square,
            s1y / square,
        ),
        valid_block(
            border,
            blocks_of(width, square),
            blocks_of(height, square),
            s2x / square,
            s2y / square,
        ),
        (s1y / square) * blocks_of(width, square) + s1x / square < (s2y / square) * blocks_of(
            width,
            square,
        ) + s2x / square,
        crate::grid::cheb(s1x / square, s1y / square, s2x / square, s2y / square) > dist,
    ensures
        ({
            let v = cell(g, width, s1x, s1y);
            spec_run(g, border, square, height, width, dist, total) == seq![
                BlockInfo { max: v, x: s1x as usize, y: s1y as usize },
                BlockInfo { max: v, x: s2x as usize, y: s2y as usize },
            ]
        }),
{
    let bw = blocks_of(width, square);
    let bh = blocks_of(height, square);
    let m = spec_maxes(g, border, square, height, width);
    let v = cell(g, width, s1x, s1y);
    lemma_blocks_cover(width, square);
    lemma_blocks_cover(height, square);
    let bx1 = s1x / square;
    let by1 = s1y / square;
    let bx2 = s2x / square;
    let by2 = s2y / square;
    lemma_split_idx(bx1, by1, bw, bh);
    lemma_split_idx(bx2, by2, bw, bh);
    let b1 = by1 * bw + bx1;
    let b2 = by2 * bw + bx2;
    assert(valid_idx(border, bw, bh, b1));
    assert(valid_idx(border, bw, bh, b2));
    // Each spike's block records exactly that spike: the other spike lies in
    // a different block, and everything else is zero.
    assert(m[b1] == (BlockInfo { max: v, x: s1x as usize, y: s1y as usize })) by {
        lemma_spike_not_in_other_rect(g, square, height, width, s2x, s2y, bx1, by1, b2, b1, bw, bh);
        lemma_block_of_spike(g, s1x, s1y, border, square, height, width, bx1, by1);
    }
    assert(m[b2] == (BlockInfo { max: v, x: s2x as usize, y: s2y as usize })) by {
        lemma_spike_not_in_other_rect(g, square, height, width, s1x, s1y, bx2, by2, b1, b2, bw, bh);
        lemma_block_of_spike(g, s2x, s2y, border, square, height, width, bx2, by2);
    }
    // Every other block records zero.
    assert forall|b: int| 0 <= b < m.len() && b != b1 && b != b2 implies (#[trigger] m[b]).max
        == 0 by {
        if valid_idx(border, bw, bh, b) {
            lemma_other_block_zero(g, s1x, s1y, s2x, s2y, border, square, height, width, b);
        } else {
            assert(m[b] == info0());
        }
    }
    // The ranking puts the first spike's block first.
    let ord = sorted_order(m);
    lemma_sorted_order_props(m);
    assert(ord.contains(b1 as usize));
    assert(ord.contains(b2 as usize));
    let j1 = choose|j: int| 0 <= j < ord.len() && ord[j] == b1 as usize;
    assert(ord[0] as int == b1) by {
        if ord[0] as int != b1 {
            assert(j1 > 0);
            assert(prefer(m, ord[0] as int, ord[j1] as int));
        }
    }
    let sup0 = all_false((bw * bh) as nat);
    assert(accepts(m, sup0, border, bw, bh, b1));
    let sup1 = crate::nms::suppress(sup0, border, bw, bh, dist, b1);
    let r = spec_run(g, border, square, height, width, dist, total);
    assert(r == seq![m[b1]] + spec_nms(m, ord.drop_first(), sup1, border, bw, bh, dist, (total
        - 1) as nat));
    // The second spike's block stays unsuppressed: the window around the
    // first one only reaches Chebyshev distance `dist`.
    assert(!crate::nms::in_window(border, bw, bh, dist, b1, b2));
    assert(accepts(m, sup1, border, bw, bh, b2));
    // And it is the only remaining candidate.
    let j2 = choose|j: int| 0 <= j < ord.len() && ord[j] == b2 as usize;
    assert(j2 != 0);
    assert(ord.drop_first()[j2 - 1] == b2 as usize);
    assert(ord.drop_first().contains(b2 as usize));
    assert forall|i: int|
        0 <= i < ord.drop_first().len() && ord.drop_first()[i] != b2 as usize implies !accepts(
        m,
        sup1,
        border,
        bw,
        bh,
        ord.drop_first()[i] as int,
    ) by {
        let e = ord.drop_first()[i] as int;
        assert(ord[i + 1] as int == e);
        if e == b1 {
            assert(crate::nms::in_window(border, bw, bh, dist, b1, b1));
            assert(sup1[b1]);
        } else if accepts(m, sup1, border, bw, bh, e) {
            crate::nms::lemma_valid_idx_range(border, bw, bh, e);
            assert(m[e].max == 0);
            assert(false);
        }
    }
    crate::nms::lemma_nms_single_candidate(
        m,
        ord.drop_first(),
        sup1,
        border,
        bw,
        bh,
        dist,
        (total - 1) as nat,
        b2,
    );
    assert(r =~= seq![
        BlockInfo { max: v, x: s1x as usize, y: s1y as usize },
        BlockInfo { max: v, x: s2x as usize, y: s2y as usize },
    ]);
}

/// A sample of one block's rectangle belongs to that block: a spike in a
/// different block lies outside the rectangle.
proof fn lemma_spike_not_in_other_rect(
    g: Seq<u16>,
    square: int,
    height: int,
    width: int,
    ox: int,
    oy: int,
    bx: int,
    by: int,
    ob: int,
    b: int,
    bw: int,
    bh: int,
)
    requires
        square >= 1,
        bw >= 1,
        0 <= bx < bw,
        0 <= by < bh,
        0 <= ox,
        0 <= oy,
        ob == (oy / square) * bw + ox / square,
        b == by * bw + bx,
        ob != b,
    ensures
        !(bx * square <= ox < bx * square + square && by * square <= oy < by * square + square),
{
    if bx * square <= ox < bx * square + square && by * square <= oy < by * square + square {
        lemma_fundamental_div_mod_converse(ox, square, bx, ox - bx * square);
        lemma_fundamental_div_mod_converse(oy, square, by, oy - by * square);
        assert(false);
    }
}

/// On the two-spike grid, any valid block other than the spikes' blocks
/// records zero.
proof fn lemma_other_block_zero(
    g: Seq<u16>,
    s1x: int,
    s1y: int,
    s2x: int,
    s2y: int,
    border: int,
    square: int,
    height: int,
    width: int,
    b: int,
)
    requires
        square >= 1,
        1 <= height <= usize::MAX,
        1 <= width <= usize::MAX,
        border >= 0,
        g.len() == height * width,
        0 <= s1x < width,
        0 <= s1y < height,
        0 <= s2x < width,
        0 <= s2y < height,
        forall|x: int, y: int|
            0 <= x < width && 0 <= y < height && !(x == s1x && y == s1y) && !(x == s2x && y == s2y)
                ==> #[trigger] cell(g, width, x, y) == 0,
        0 <= b < blocks_of(width, square) * blocks_of(height, square),
        valid_idx(border, blocks_of(width, square), blocks_of(height, square), b),
        b != (s1y / square) * blocks_of(width, square) + s1x / square,
        b != (s2y / square) * blocks_of(width, square) + s2x / square,
    ensures
        ({
            let m = spec_maxes(g, border, square, height, width);
            m[b].max == 0
        }),
{
    let bw = blocks_of(width, square);
    let bh = blocks_of(height, square);
    let m = spec_maxes(g, border, square, height, width);
    lemma_blocks_cover(width, square);
    lemma_blocks_cover(height, square);
    lemma_idx_split(b, bw, bh);
    let bx = idx_col(b, bw);
    let by = idx_row(b, bw);
    let x0 = bx * square;
    let y0 = by * square;
    assert(0 <= x0 && x0 < width) by {
        assert(0 <= bx * square && bx * square <= (bw - 1) * square) by (nonlinear_arith)
            requires
                0 <= bx <= bw - 1,
                square >= 1,
        ;
    }
    assert(0 <= y0 && y0 < height) by {
        assert(0 <= by * square && by * square <= (bh - 1) * square) by (nonlinear_arith)
            requires
                0 <= by <= bh - 1,
                square >= 1,
        ;
    }
    let x1 = crate::grid::block_hi(square, width, bx);
    let y1 = crate::grid::block_hi(square, height, by);
    lemma_rect_best_props(g, width, x0, x1, y0, y1);
    let pk = m[b];
    assert(pk == rect_best(g, width, x0, x1, y0, y1));
    lemma_spike_not_in_other_rect(g, square, height, width, s1x, s1y, bx, by, (s1y / square) * bw
        + s1x / square, b, bw, bh);
    lemma_spike_not_in_other_rect(g, square, height, width, s2x, s2y, bx, by, (s2y / square) * bw
        + s2x / square, b, bw, bh);
    assert(cell(g, width, pk.x as int, pk.y as int) == pk.max);
    assert(cell(g, width, pk.x as int, pk.y as int) == 0);
}

/// Any valid block other than the spike's records a value strictly below the
/// spike.
proof fn lemma_other_block_below(
    g: Seq<u16>,
    sx: int,
    sy: int,
    border: int,
    square: int,
    height: int,
    width: int,
    b: int,
)
    requires
        square >= 1,
        1 <= height <= usize::MAX,
        1 <= width <= usize::MAX,
        border >= 0,
        g.len() == height * width,
        0 <= sx < width,
        0 <= sy < height,
        forall|x: int, y: int|
            0 <= x < width && 0 <= y < height && !(x == sx && y == sy) ==> #[trigger] cell(
                g,
                width,
                x,
                y,
            ) < cell(g, width, sx, sy),
        0 <= b < blocks_of(width, square) * blocks_of(height, square),
        valid_idx(border, blocks_of(width, square), blocks_of(height, square), b),
        b != (sy / square) * blocks_of(width, square) + (sx / square),
    ensures
        ({
            let m = spec_maxes(g, border, square, height, width);
            m[b].max < cell(g, width, sx, sy)
        }),
{
    let bw = blocks_of(width, square);
    let bh = blocks_of(height, square);
    let m = spec_maxes(g, border, square, height, width);
    let v = cell(g, width, sx, sy);
    lemma_blocks_cover(width, square);
    lemma_blocks_cover(height, square);
    lemma_idx_split(b, bw, bh);
    let bx = idx_col(b, bw);
    let by = idx_row(b, bw);
    let x0 = bx * square;
    let y0 = by * square;
    assert(0 <= x0 && x0 < width) by {
        assert(0 <= bx * square && bx * square <= (bw - 1) * square) by (nonlinear_arith)
            requires
                0 <= bx <= bw - 1,
                square >= 1,
        ;
    }
    assert(0 <= y0 && y0 < height) by {
        assert(0 <= by * square && by * square <= (bh - 1) * square) by (nonlinear_arith)
            requires
                0 <= by <= bh - 1,
                square >= 1,
        ;
    }
    let x1 = crate::grid::block_hi(square, width, bx);
    let y1 = crate::grid::block_hi(square, height, by);
    lemma_rect_best_props(g, width, x0, x1, y0, y1);
    let pk = m[b];
    assert(pk == rect_best(g, width, x0, x1, y0, y1));
    if pk.x == sx && pk.y == sy {
        // The spike would lie in this block's rectangle, so this would be
        // the spike's own block.
        lemma_fundamental_div_mod_converse(sx, square, bx, sx - x0);
        lemma_fundamental_div_mod_converse(sy, square, by, sy - y0);
        lemma_split_idx(bx, by, bw, bh);
        assert(false);
    }
    assert(cell(g, width, pk.x as int, pk.y as int) == pk.max);
    assert(pk.max < v);
}

} // verus!
