//! One propagation step: every cell looks at its 3x3 neighborhood (clamped at
//! the border), picks the strongest neighbor -- ties go to the latest in the
//! fixed dx-outer, dy-inner scan order -- and adopts its direction with the
//! magnitude decayed by 9/10, but only when that still beats the cell's own
//! magnitude.
use vstd::prelude::*;

use crate::grid::Grid;
use crate::grid::Window;
use crate::stage::cells_ok;
use crate::stage::Cell;
use crate::stage::MAG_BOUND;

verus! {

/// Column offset of the k-th neighbor, k in 0..9: the scan runs dx outer.
pub open spec fn off_dx(k: int) -> int {
    k / 3 - 1
}

/// Row offset of the k-th neighbor: dy runs inner.
pub open spec fn off_dy(k: int) -> int {
    k % 3 - 1
}

/// The selected cell after the first `k` neighbors (k in 1..=9) of the scan:
/// a later neighbor replaces the selection whenever its magnitude is at least
/// as large, so the last maximal neighbor survives.
pub open spec fn best_upto(f: spec_fn(int, int) -> Cell, x: int, y: int, k: int) -> Cell
    decreases k,
{
    if k <= 1 {
        f(x + off_dx(0), y + off_dy(0))
    } else {
        let prev = best_upto(f, x, y, k - 1);
        let cand = f(x + off_dx(k - 1), y + off_dy(k - 1));
        if cand.mag >= prev.mag {
            cand
        } else {
            prev
        }
    }
}

/// A grid's cells as a function of arbitrary integer coordinates.
pub open spec fn grid_fn(g: Grid<Cell>) -> spec_fn(int, int) -> Cell {
    |x: int, y: int| g.at(x, y)
}

/// The strongest 3x3 neighbor of `(x, y)`, itself included; ties go to the
/// latest neighbor in scan order.
pub open spec fn best9(g: Grid<Cell>, x: int, y: int) -> Cell {
    best_upto(grid_fn(g), x, y, 9)
}

/// One propagation step at `(x, y)`.
pub open spec fn step_at(g: Grid<Cell>, x: int, y: int) -> Cell {
    let b = best9(g, x, y);
    let cur = g.at(x, y);
    if b.mag * 9 / 10 > cur.mag {
        Cell { gx: b.gx, gy: b.gy, mag: (b.mag * 9 / 10) as u64 }
    } else {
        cur
    }
}

/// A fixed point of propagation: at every cell, the decayed magnitude of the
/// strongest 3x3 neighbor no longer beats the cell's own magnitude.
pub open spec fn settled(g: Grid<Cell>) -> bool {
    forall|x: int, y: int|
        0 <= x < g.width && 0 <= y < g.height ==> (#[trigger] best9(g, x, y)).mag * 9 / 10 <= g.at(
            x,
            y,
        ).mag
}

/// Integer decay never increases a nonnegative magnitude.
pub proof fn lemma_decay_le(m: int)
    requires
        0 <= m,
    ensures
        m * 9 / 10 <= m,
{
    vstd::arithmetic::div_mod::lemma_div_is_ordered(m * 9, m * 10, 10);
    vstd::arithmetic::div_mod::lemma_div_by_multiple(m, 10);
}

/// Replicate-border reads stay under the magnitude bound for any coordinates.
pub proof fn lemma_cell_bounded(g: Grid<Cell>, x: int, y: int)
    requires
        g.wf(),
        cells_ok(g),
    ensures
        g.at(x, y).mag <= MAG_BOUND,
{
    assert(g.at(g.clamp_x(x), g.clamp_y(y)) == g.at(x, y));
}

/// The running selection only ever holds a value of `f`, so a pointwise bound
/// on `f` bounds it.
pub proof fn lemma_best_upto_bound(f: spec_fn(int, int) -> Cell, x: int, y: int, k: int, b: int)
    requires
        1 <= k <= 9,
        forall|i: int, j: int| (#[trigger] f(i, j)).mag <= b,
    ensures
        best_upto(f, x, y, k).mag <= b,
    decreases k,
{
    if k > 1 {
        lemma_best_upto_bound(f, x, y, k - 1, b);
    }
}

/// Computes the candidate grid of one propagation step together with the flag
/// that says whether any cell actually adopted a decayed neighbor value.
pub fn step(g: &Grid<Cell>) -> (r: (Grid<Cell>, bool))
    requires
        g.wf(),
        cells_ok(*g),
    ensures
        r.0.wf(),
        r.0.width == g.width,
        r.0.height == g.height,
        cells_ok(r.0),
        forall|x: int, y: int|
            0 <= x < g.width && 0 <= y < g.height ==> #[trigger] r.0.at(x, y) == step_at(*g, x, y),
        r.1 == !settled(*g),
{
    let f = |v: Window<'_, Cell>| -> (out: Cell)
        requires
            v.anchored(),
            cells_ok(*v.grid),
        ensures
            out == step_at(*v.grid, v.x as int, v.y as int),
        {
            let mut best = *v.get(-1, -1);
            let mut k: usize = 1;
            while k < 9
                invariant
                    v.anchored(),
                    cells_ok(*v.grid),
                    1 <= k <= 9,
                    best == best_upto(grid_fn(*v.grid), v.x as int, v.y as int, k as int),
                decreases 9 - k,
            {
                let dx = (k / 3) as isize - 1;
                let dy = (k % 3) as isize - 1;
                let cand = *v.get(dx, dy);
                if cand.mag >= best.mag {
                    best = cand;
                }
                k += 1;
            }
            let cur = *v.get(0, 0);
            proof {
                assert forall|i: int, j: int| (#[trigger] grid_fn(*v.grid)(i, j)).mag
                    <= MAG_BOUND by {
                    lemma_cell_bounded(*v.grid, i, j);
                }
                lemma_best_upto_bound(grid_fn(*v.grid), v.x as int, v.y as int, 9, MAG_BOUND as int);
            }
            let m = best.mag * 9 / 10;
            if m > cur.mag {
                Cell { gx: best.gx, gy: best.gy, mag: m }
            } else {
                cur
            }
        };
    let cand = g.map(f);
    proof {
        assert forall|x: int, y: int| 0 <= x < g.width && 0 <= y < g.height implies #[trigger] cand.at(
            x,
            y,
        ) == step_at(*g, x, y) by {
            let xu = x as usize;
            let yu = y as usize;
            assert(call_ensures(f, (Window { grid: g, x: xu, y: yu },), cand.at(x, y)));
        }
        assert forall|x: int, y: int| 0 <= x < g.width && 0 <= y < g.height implies (
        #[trigger] cand.at(x, y)).mag <= MAG_BOUND by {
            assert forall|i: int, j: int| (#[trigger] grid_fn(*g)(i, j)).mag <= MAG_BOUND by {
                lemma_cell_bounded(*g, i, j);
            }
            lemma_best_upto_bound(grid_fn(*g), x, y, 9, MAG_BOUND as int);
            lemma_cell_bounded(*g, x, y);
            lemma_decay_le(best9(*g, x, y).mag as int);
        }
    }
    let mut changed = false;
    let mut y: usize = 0;
    while y < g.height
        invariant
            g.wf(),
            cells_ok(*g),
            cand.wf(),
            cand.width == g.width,
            cand.height == g.height,
            y <= g.height,
            forall|i: int, j: int|
                0 <= i < g.width && 0 <= j < g.height ==> #[trigger] cand.at(i, j) == step_at(
                    *g,
                    i,
                    j,
                ),
            changed ==> !settled(*g),
            !changed ==> forall|i: int, j: int|
                0 <= i < g.width && 0 <= j < y ==> (#[trigger] best9(*g, i, j)).mag * 9 / 10 <= g.at(
                    i,
                    j,
                ).mag,
        decreases g.height - y,
    {
        let mut x: usize = 0;
        while x < g.width
            invariant
                g.wf(),
                cells_ok(*g),
                cand.wf(),
                cand.width == g.width,
                cand.height == g.height,
                y < g.height,
                x <= g.width,
                forall|i: int, j: int|
                    0 <= i < g.width && 0 <= j < g.height ==> #[trigger] cand.at(i, j) == step_at(
                        *g,
                        i,
                        j,
                    ),
                changed ==> !settled(*g),
                !changed ==> forall|i: int, j: int|
                    0 <= i < g.width && 0 <= j < y ==> (#[trigger] best9(*g, i, j)).mag * 9 / 10
                        <= g.at(i, j).mag,
                !changed ==> forall|i: int|
                    0 <= i < x ==> (#[trigger] best9(*g, i, y as int)).mag * 9 / 10 <= g.at(
                        i,
                        y as int,
                    ).mag,
            decreases g.width - x,
        {
            let a = cand.get(x, y).mag;
            let b = g.get(x, y).mag;
            proof {
                assert forall|i: int, j: int| (#[trigger] grid_fn(*g)(i, j)).mag <= MAG_BOUND by {
                    lemma_cell_bounded(*g, i, j);
                }
                lemma_best_upto_bound(grid_fn(*g), x as int, y as int, 9, MAG_BOUND as int);
            }
            if a != b {
                proof {
                    assert(best9(*g, x as int, y as int).mag * 9 / 10 > g.at(
                        x as int,
                        y as int,
                    ).mag);
                }
                changed = true;
            }
            x += 1;
        }
        y += 1;
    }
    (cand, changed)
}

/// The total magnitude of a buffer of cells; one changed iteration strictly
/// increases it, which bounds the propagation loop.
pub open spec fn mag_sum(s: Seq<Cell>) -> int
    decreases s.len(),
{
    if s.len() == 0 {
        0
    } else {
        mag_sum(s.drop_last()) + s.last().mag
    }
}

/// A pointwise magnitude bound carries over to the total.
pub proof fn lemma_mag_sum_bound(s: Seq<Cell>, b: int)
    requires
        forall|i: int| 0 <= i < s.len() ==> (#[trigger] s[i]).mag <= b,
        0 <= b,
    ensures
        0 <= mag_sum(s) <= b * s.len(),
    decreases s.len(),
{
    if s.len() > 0 {
        assert forall|i: int| 0 <= i < s.drop_last().len() implies (#[trigger] s.drop_last()[
        i]).mag <= b by {
            assert(s.drop_last()[i] == s[i]);
        }
        lemma_mag_sum_bound(s.drop_last(), b);
        assert(b * (s.len() - 1) + b == b * s.len()) by (nonlinear_arith);
    }
}

/// Pointwise at-least cells give an at-least total, strictly so when one cell
/// strictly grew.
pub proof fn lemma_mag_sum_increases(s1: Seq<Cell>, s2: Seq<Cell>, j: int)
    requires
        s1.len() == s2.len(),
        forall|i: int| 0 <= i < s1.len() ==> (#[trigger] s1[i]).mag <= s2[i].mag,
        0 <= j < s1.len(),
        s1[j].mag < s2[j].mag,
    ensures
        mag_sum(s1) < mag_sum(s2),
    decreases s1.len(),
{
    assert forall|i: int| 0 <= i < s1.drop_last().len() implies (#[trigger] s1.drop_last()[
    i]).mag <= s2.drop_last()[i].mag by {
        assert(s1.drop_last()[i] == s1[i]);
        assert(s2.drop_last()[i] == s2[i]);
    }
    if j < s1.len() - 1 {
        lemma_mag_sum_increases(s1.drop_last(), s2.drop_last(), j);
    } else {
        lemma_mag_sum_le(s1.drop_last(), s2.drop_last());
    }
    assert(s1.last().mag <= s2.last().mag) by {
        assert(s1[s1.len() - 1].mag <= s2[s1.len() - 1].mag);
    }
}

/// Pointwise at-least cells give an at-least total.
pub proof fn lemma_mag_sum_le(s1: Seq<Cell>, s2: Seq<Cell>)
    requires
        s1.len() == s2.len(),
        forall|i: int| 0 <= i < s1.len() ==> (#[trigger] s1[i]).mag <= s2[i].mag,
    ensures
        mag_sum(s1) <= mag_sum(s2),
    decreases s1.len(),
{
    if s1.len() > 0 {
        assert forall|i: int| 0 <= i < s1.drop_last().len() implies (#[trigger] s1.drop_last()[
        i]).mag <= s2.drop_last()[i].mag by {
            assert(s1.drop_last()[i] == s1[i]);
            assert(s2.drop_last()[i] == s2[i]);
        }
        lemma_mag_sum_le(s1.drop_last(), s2.drop_last());
        assert(s1[s1.len() - 1].mag <= s2[s1.len() - 1].mag);
    }
}

/// The cell at valid coordinates `(x, y)` sits behind the row-major index
/// `y * width + x`.
pub proof fn lemma_at_data(g: Grid<Cell>, x: int, y: int)
    requires
        g.wf(),
        0 <= x < g.width,
        0 <= y < g.height,
    ensures
        0 <= y * g.width + x < g.data@.len(),
        g.data@[y * g.width + x] == g.at(x, y),
{
    assert(0 <= y * g.width + x && y * g.width + x < g.width * g.height) by (nonlinear_arith)
        requires
            0 <= x < g.width,
            0 <= y < g.height,
    ;
    assert(g.at(x, y) == g.data@[y * g.width + x]);
}

/// The buffer cell behind index `i` is the cell at the row-major coordinates
/// of `i`.
pub proof fn lemma_data_at(g: Grid<Cell>, i: int)
    requires
        g.wf(),
        0 <= i < g.data@.len(),
    ensures
        0 <= i % (g.width as int) < g.width,
        0 <= i / (g.width as int) < g.height,
        g.data@[i] == g.at(i % (g.width as int), i / (g.width as int)),
{
    let w = g.width as int;
    vstd::arithmetic::div_mod::lemma_fundamental_div_mod(i, w);
    vstd::arithmetic::div_mod::lemma_mod_bound(i, w);
    assert(0 <= i / w && i / w < g.height) by (nonlinear_arith)
        requires
            0 <= i < g.width * g.height,
            i == w * (i / w) + i % w,
            0 <= i % w < w,
            w == g.width,
            1 <= g.height,
    ;
    assert(g.at(i % w, i / w) == g.data@[(i / w) * w + i % w]);
    assert((i / w) * w + i % w == i) by (nonlinear_arith)
        requires
            i == w * (i / w) + i % w,
    ;
}

} // verus!
