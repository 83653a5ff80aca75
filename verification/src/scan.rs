//! The block max scanner: one pass over a block's pixel rectangle in
//! row-major order, keeping the maximum sample and the position where it
//! first occurred (a tie does not move the position).

use vstd::prelude::*;
use crate::grid::cell;
use vstd::arithmetic::div_mod::lemma_fundamental_div_mod;
use vstd::arithmetic::div_mod::lemma_fundamental_div_mod_converse;
use vstd::arithmetic::div_mod::lemma_mod_bound;

verus! {

/// One block's record: the maximum sample of the block's pixel rectangle and
/// the first-occurring (row-major) position of that maximum.
#[derive(Clone, Copy, PartialEq, Eq, Structural, Debug)]
pub struct BlockInfo {
    pub max: u16,
    pub x: usize,
    pub y: usize,
}

/// The record of a block that was never scanned.
pub open spec fn info0() -> BlockInfo {
    BlockInfo { max: 0, x: 0, y: 0 }
}

/// The record after scanning the first `k` cells, in row-major order, of the
/// rectangle whose columns are `[x0, x1)` and whose first row is `y0`. The
/// value starts at 0 at the rectangle's origin and only a strictly greater
/// sample replaces it.
pub open spec fn scan_best(g: Seq<u16>, width: int, x0: int, x1: int, y0: int, k: nat) -> BlockInfo
    decreases k,
{
    if k == 0 {
        BlockInfo { max: 0, x: x0 as usize, y: y0 as usize }
    } else {
        let prev = scan_best(g, width, x0, x1, y0, (k - 1) as nat);
        let x = x0 + (k - 1) % (x1 - x0);
        let y = y0 + (k - 1) / (x1 - x0);
        let v = cell(g, width, x, y);
        if v > prev.max {
            BlockInfo { max: v, x: x as usize, y: y as usize }
        } else {
            prev
        }
    }
}

/// The record the scanner produces for the rectangle `[x0, x1) x [y0, y1)`:
/// an empty rectangle yields value 0 at the rectangle's own origin.
pub open spec fn rect_best(g: Seq<u16>, width: int, x0: int, x1: int, y0: int, y1: int) -> BlockInfo {
    if x0 < x1 && y0 < y1 {
        scan_best(g, width, x0, x1, y0, ((y1 - y0) * (x1 - x0)) as nat)
    } else {
        BlockInfo { max: 0, x: x0 as usize, y: y0 as usize }
    }
}

/// Row-major rank of the cell `(x, y)` within columns `[x0, x1)`, counting
/// from row `y0`.
pub open spec fn cell_rank(x0: int, x1: int, y0: int, x: int, y: int) -> int {
    (y - y0) * (x1 - x0) + (x - x0)
}

/// Within one column range, row-major order of cells agrees with the order
/// of their ranks.
proof fn lemma_rank_order(x0: int, x1: int, y0: int, ax: int, ay: int, bx: int, by: int)
    requires
        x0 <= ax < x1,
        x0 <= bx < x1,
        y0 <= ay,
        y0 <= by,
    ensures
        (ay < by || (ay == by && ax < bx)) <==> cell_rank(x0, x1, y0, ax, ay) < cell_rank(
            x0,
            x1,
            y0,
            bx,
            by,
        ),
{
    assert((ay < by || (ay == by && ax < bx)) <==> (ay - y0) * (x1 - x0) + (ax - x0) < (by - y0) * (
    x1 - x0) + (bx - x0)) by (nonlinear_arith)
        requires
            x0 <= ax < x1,
            x0 <= bx < x1,
            y0 <= ay,
            y0 <= by,
    ;
}

/// What holds of the partial scan record after `k` cells: its position is
/// among the scanned cells, it holds the sample found there, no scanned
/// sample exceeds it, and every scanned sample at an earlier row-major
/// position is strictly below it.
proof fn lemma_scan_best_props(
    g: Seq<u16>,
    width: int,
    x0: int,
    x1: int,
    y0: int,
    y_lim: int,
    k: nat,
)
    requires
        0 <= x0 < x1 <= usize::MAX,
        0 <= y0 <= y_lim <= usize::MAX,
        k >= 1,
        k <= (y_lim - y0) * (x1 - x0),
    ensures
        ({
            let b = scan_best(g, width, x0, x1, y0, k);
            &&& x0 <= b.x < x1
            &&& y0 <= b.y < y_lim
            &&& cell_rank(x0, x1, y0, b.x as int, b.y as int) < k
            &&& cell(g, width, b.x as int, b.y as int) == b.max
            &&& forall|x: int, y: int|
                x0 <= x < x1 && y0 <= y && cell_rank(x0, x1, y0, x, y) < k ==> #[trigger] cell(
                    g,
                    width,
                    x,
                    y,
                ) <= b.max
            &&& forall|x: int, y: int|
                x0 <= x < x1 && y0 <= y && cell_rank(x0, x1, y0, x, y) < k && (y < b.y || (y == b.y
                    && x < b.x)) ==> #[trigger] cell(g, width, x, y) < b.max
        }),
    decreases k,
{
    let w = x1 - x0;
    let j = k - 1;
    let xn = x0 + j % w;
    let yn = y0 + j / w;
    let v = cell(g, width, xn, yn);
    lemma_mod_bound(j, w);
    lemma_fundamental_div_mod(j, w);
    assert(j / w >= 0) by (nonlinear_arith)
        requires
            w >= 1,
            j >= 0,
            j == w * (j / w) + j % w,
            0 <= j % w < w,
    ;
    assert(j / w < y_lim - y0) by (nonlinear_arith)
        requires
            w >= 1,
            j < (y_lim - y0) * w,
            j == w * (j / w) + j % w,
            0 <= j % w < w,
    ;
    assert(cell_rank(x0, x1, y0, xn, yn) == j) by {
        assert((yn - y0) * w == w * (j / w)) by (nonlinear_arith)
            requires
                yn - y0 == j / w,
        ;
    }
    // A scanned cell's rank determines the cell.
    assert forall|x: int, y: int|
        x0 <= x < x1 && y0 <= y && cell_rank(x0, x1, y0, x, y) == j implies x == xn && y
        == yn by {
        assert(j == (y - y0) * w + (x - x0));
        lemma_fundamental_div_mod_converse(j, w, y - y0, x - x0);
    }
    let b = scan_best(g, width, x0, x1, y0, k);
    if k == 1 {
        assert(xn == x0 && yn == y0) by {
            lemma_fundamental_div_mod_converse(0int, w, 0int, 0int);
        }
        assert(b == if v > 0 {
            BlockInfo { max: v, x: xn as usize, y: yn as usize }
        } else {
            BlockInfo { max: 0u16, x: x0 as usize, y: y0 as usize }
        });
        assert forall|x: int, y: int|
            x0 <= x < x1 && y0 <= y && cell_rank(x0, x1, y0, x, y) < k implies x == xn && y
            == yn by {
            lemma_rank_order(x0, x1, y0, x0, y0, x, y);
            assert(cell_rank(x0, x1, y0, x, y) >= 0);
        }
    } else {
        lemma_scan_best_props(g, width, x0, x1, y0, y_lim, (k - 1) as nat);
        let prev = scan_best(g, width, x0, x1, y0, (k - 1) as nat);
        // Every cell with rank below k is either the new cell or was scanned
        // before.
        assert forall|x: int, y: int|
            x0 <= x < x1 && y0 <= y && cell_rank(x0, x1, y0, x, y) < k implies cell_rank(
            x0,
            x1,
            y0,
            x,
            y,
        ) < j || (x == xn && y == yn) by {
            assert(cell_rank(x0, x1, y0, x, y) >= 0) by {
                lemma_rank_order(x0, x1, y0, x0, y0, x, y);
            }
        }
        if v > prev.max {
            assert(b == BlockInfo { max: v, x: xn as usize, y: yn as usize });
            assert forall|x: int, y: int|
                x0 <= x < x1 && y0 <= y && cell_rank(x0, x1, y0, x, y) < k && (y < b.y || (y == b.y
                    && x < b.x)) implies #[trigger] cell(g, width, x, y) < b.max by {
                lemma_rank_order(x0, x1, y0, x, y, xn, yn);
            }
        } else {
            assert(b == prev);
            // The new cell is not at an earlier position than the record:
            // the record's rank is below j.
            assert forall|x: int, y: int|
                x0 <= x < x1 && y0 <= y && cell_rank(x0, x1, y0, x, y) < k && (y < b.y || (y == b.y
                    && x < b.x)) implies #[trigger] cell(g, width, x, y) < b.max by {
                if x == xn && y == yn {
                    lemma_rank_order(x0, x1, y0, b.x as int, b.y as int, xn, yn);
                    lemma_rank_order(x0, x1, y0, xn, yn, b.x as int, b.y as int);
                }
            }
        }
    }
}

/// The scan record of a non-empty rectangle: its position lies in the
/// rectangle, it holds the sample found there, no sample of the rectangle
/// exceeds it, and every sample at an earlier row-major position is strictly
/// below it — the record marks the first occurrence of the maximum.
pub proof fn lemma_rect_best_props(g: Seq<u16>, width: int, x0: int, x1: int, y0: int, y1: int)
    requires
        0 <= x0 < x1 <= usize::MAX,
        0 <= y0 < y1 <= usize::MAX,
    ensures
        ({
            let b = rect_best(g, width, x0, x1, y0, y1);
            &&& x0 <= b.x < x1
            &&& y0 <= b.y < y1
            &&& cell(g, width, b.x as int, b.y as int) == b.max
            &&& forall|x: int, y: int|
                x0 <= x < x1 && y0 <= y < y1 ==> #[trigger] cell(g, width, x, y) <= b.max
            &&& forall|x: int, y: int|
                x0 <= x < x1 && y0 <= y < y1 && (y < b.y || (y == b.y && x < b.x)) ==> #[trigger] cell(
                    g,
                    width,
                    x,
                    y,
                ) < b.max
        }),
{
    let w = x1 - x0;
    let k = (y1 - y0) * w;
    assert(k >= 1) by (nonlinear_arith)
        requires
            w >= 1,
            y1 - y0 >= 1,
            k == (y1 - y0) * w,
    ;
    lemma_scan_best_props(g, width, x0, x1, y0, y1, k as nat);
    // A cell lies in the rectangle exactly when its rank is below k.
    assert forall|x: int, y: int| x0 <= x < x1 && y0 <= y implies (cell_rank(x0, x1, y0, x, y) < k
        <==> y < y1) by {
        assert(y < y1 ==> (y - y0) * w + (x - x0) < (y1 - y0) * w) by (nonlinear_arith)
            requires
                x0 <= x < x1,
                y0 <= y,
                w == x1 - x0,
        ;
        assert(y >= y1 ==> (y - y0) * w + (x - x0) >= (y1 - y0) * w) by (nonlinear_arith)
            requires
                x0 <= x < x1,
                y0 <= y,
                w == x1 - x0,
        ;
    }
}

/// Scan one block rectangle for its maximum sample and the first position at
/// which that maximum occurs.
pub fn block_info(g: &Vec<u16>, width: usize, x0: usize, x1: usize, y0: usize, y1: usize) -> (r:
    BlockInfo)
    requires
        x1 <= width,
        y1 * width <= g@.len(),
    ensures
        r == rect_best(g@, width as int, x0 as int, x1 as int, y0 as int, y1 as int),
{
    let glen: usize = g.len();
    let mut info = BlockInfo { max: 0, x: x0, y: y0 };
    let mut y: usize = y0;
    while y < y1
        invariant
            x1 <= width,
            y1 * width <= g@.len(),
            g@.len() == glen,
            y0 <= y,
            y0 > y1 ==> y == y0,
            y0 <= y1 ==> y <= y1,
            x0 < x1 && y0 < y1 ==> info == scan_best(
                g@,
                width as int,
                x0 as int,
                x1 as int,
                y0 as int,
                ((y - y0) * (x1 - x0)) as nat,
            ),
            !(x0 < x1 && y0 < y1) ==> info == (BlockInfo { max: 0u16, x: x0, y: y0 }),
        decreases y1 - y,
    {
        let mut x: usize = x0;
        while x < x1
            invariant
                x1 <= width,
                y1 * width <= g@.len(),
                g@.len() == glen,
                y0 <= y < y1,
                x0 <= x,
                x0 > x1 ==> x == x0,
                x0 <= x1 ==> x <= x1,
                x0 < x1 ==> info == scan_best(
                    g@,
                    width as int,
                    x0 as int,
                    x1 as int,
                    y0 as int,
                    ((y - y0) * (x1 - x0) + (x - x0)) as nat,
                ),
                x0 >= x1 ==> info == (BlockInfo { max: 0u16, x: x0, y: y0 }),
            decreases x1 - x,
        {
            proof {
                assert(y * width + x < y1 * width) by (nonlinear_arith)
                    requires
                        y < y1,
                        x < width,
                        0 <= y,
                        0 <= x,
                ;
                assert(y * width + x < glen);
            }
            let v = g[y * width + x];
            proof {
                let w = x1 as int - x0 as int;
                let j = (y - y0) as int * w + (x - x0) as int;
                lemma_fundamental_div_mod_converse(j, w, (y - y0) as int, (x - x0) as int);
                assert(scan_best(g@, width as int, x0 as int, x1 as int, y0 as int, (j + 1) as nat)
                    == ({
                    let prev = scan_best(g@, width as int, x0 as int, x1 as int, y0 as int, j as nat);
                    if v > prev.max {
                        BlockInfo { max: v, x: x, y: y }
                    } else {
                        prev
                    }
                }));
            }
            if v > info.max {
                info = BlockInfo { max: v, x, y };
            }
            x = x + 1;
        }
        proof {
            if x0 < x1 {
                assert((y - y0) as int * (x1 - x0) as int + (x1 - x0) as int == (y + 1 - y0) as int
                    * (x1 - x0) as int) by (nonlinear_arith);
            }
        }
        y = y + 1;
    }
    proof {
        if x0 < x1 && y0 < y1 {
            assert(((y1 - y0) as int) * ((x1 - x0) as int) == ((y - y0) as int) * ((x1
                - x0) as int));
        }
    }
    info
}

} // verus!
