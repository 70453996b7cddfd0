//! The whole pipeline: color grid to intensity, gradient and magnitude, then
//! the propagation loop that renders one frame per iteration until the grid
//! reaches a fixed point. `level_at` is the mathematical value of every cell
//! after `n` iterations, and `process` is proved to return exactly the
//! rendered levels `0..n` where `n` is the first settled level.
use vstd::prelude::*;

use crate::color::render;
use crate::color::rgb_at;
use crate::grid::Grid;
use crate::propagate::best_upto;
use crate::propagate::best9;
use crate::propagate::grid_fn;
use crate::propagate::lemma_at_data;
use crate::propagate::lemma_data_at;
use crate::propagate::lemma_decay_le;
use crate::propagate::lemma_mag_sum_bound;
use crate::propagate::lemma_mag_sum_increases;
use crate::propagate::mag_sum;
use crate::propagate::off_dx;
use crate::propagate::off_dy;
use crate::propagate::settled;
use crate::propagate::step;
use crate::propagate::step_at;
use crate::stage::angle_mag;
use crate::stage::cell0_at;
use crate::stage::cells_ok;
use crate::stage::gradient_ok;
use crate::stage::gray_at;
use crate::stage::grayscale;
use crate::stage::grad_mag;
use crate::stage::is_sqrt_floor;
use crate::stage::lemma_sqrt_floor_unique;
use crate::stage::sobel;
use crate::stage::sobel_gx_at;
use crate::stage::sobel_gy_at;
use crate::stage::sqrt_floor;
use crate::stage::Cell;
use crate::stage::MAG_BOUND;
use crate::Rgb;

verus! {

/// The horizontal Sobel component of the color grid's intensities at `(x, y)`.
pub open spec fn grad_x_at(c: Grid<Rgb>, x: int, y: int) -> int {
    -(gray_at(c, x - 1, y - 1) + 2 * gray_at(c, x - 1, y) + gray_at(c, x - 1, y + 1)) + (gray_at(
        c,
        x + 1,
        y - 1,
    ) + 2 * gray_at(c, x + 1, y) + gray_at(c, x + 1, y + 1))
}

/// The vertical Sobel component of the color grid's intensities at `(x, y)`.
pub open spec fn grad_y_at(c: Grid<Rgb>, x: int, y: int) -> int {
    -(gray_at(c, x - 1, y - 1) + 2 * gray_at(c, x, y - 1) + gray_at(c, x + 1, y - 1)) + (gray_at(
        c,
        x - 1,
        y + 1,
    ) + 2 * gray_at(c, x, y + 1) + gray_at(c, x + 1, y + 1))
}

/// The cell at the clamped coordinates of `(x, y)` after `n` propagation
/// iterations on the initial gradient grid of the color image `c`.
pub open spec fn level_at(c: Grid<Rgb>, n: nat, x: int, y: int) -> Cell
    decreases n, 0int,
{
    let cx = c.clamp_x(x);
    let cy = c.clamp_y(y);
    if n == 0 {
        let gx = grad_x_at(c, cx, cy);
        let gy = grad_y_at(c, cx, cy);
        Cell { gx: gx as i16, gy: gy as i16, mag: grad_mag(gx, gy) as u64 }
    } else {
        let b = level_best(c, (n - 1) as nat, cx, cy, 9);
        let cur = level_at(c, (n - 1) as nat, cx, cy);
        if b.mag * 9 / 10 > cur.mag {
            Cell { gx: b.gx, gy: b.gy, mag: (b.mag * 9 / 10) as u64 }
        } else {
            cur
        }
    }
}

/// The running neighborhood selection over level `n`, mirroring `best_upto`.
pub open spec fn level_best(c: Grid<Rgb>, n: nat, x: int, y: int, k: int) -> Cell
    decreases n, (if k <= 1 { 1int } else { k }),
{
    if k <= 1 {
        level_at(c, n, x + off_dx(0), y + off_dy(0))
    } else {
        let prev = level_best(c, n, x, y, k - 1);
        let cand = level_at(c, n, x + off_dx(k - 1), y + off_dy(k - 1));
        if cand.mag >= prev.mag {
            cand
        } else {
            prev
        }
    }
}

/// The grid after `n` propagation iterations is a fixed point: no cell's
/// decayed strongest 3x3 neighbor beats the cell's own magnitude.
pub open spec fn level_settled(c: Grid<Rgb>, n: nat) -> bool {
    forall|x: int, y: int|
        0 <= x < c.width && 0 <= y < c.height ==> (#[trigger] level_best(c, n, x, y, 9)).mag * 9
            / 10 <= level_at(c, n, x, y).mag
}

/// Levels self-clamp: any coordinates read the cell at their clamped position.
proof fn lemma_level_clamped(c: Grid<Rgb>, n: nat, x: int, y: int)
    requires
        c.wf(),
    ensures
        level_at(c, n, x, y) == level_at(c, n, c.clamp_x(x), c.clamp_y(y)),
{
    assert(c.clamp_x(c.clamp_x(x)) == c.clamp_x(x));
    assert(c.clamp_y(c.clamp_y(y)) == c.clamp_y(y));
}

/// An intensity grid that matches the color grid's grayscale on every valid
/// cell matches it at arbitrary coordinates as well.
proof fn lemma_gray_total(c: Grid<Rgb>, gi: Grid<i16>, x: int, y: int)
    requires
        c.wf(),
        gi.wf(),
        gi.width == c.width,
        gi.height == c.height,
        forall|i: int, j: int|
            0 <= i < c.width && 0 <= j < c.height ==> #[trigger] gi.at(i, j) == gray_at(c, i, j),
    ensures
        gi.at(x, y) == gray_at(c, x, y),
{
    let cx = gi.clamp_x(x);
    let cy = gi.clamp_y(y);
    assert(gi.at(x, y) == gi.at(cx, cy));
    assert(gi.at(cx, cy) == gray_at(c, cx, cy));
    assert(c.clamp_x(x) == cx && c.clamp_y(y) == cy);
    assert(c.at(x, y) == c.at(cx, cy));
}

/// The output of the three stages is level zero of the pipeline.
proof fn lemma_start_level(c: Grid<Rgb>, gi: Grid<i16>, gr: Grid<(i16, i16)>, am: Grid<Cell>)
    requires
        c.wf(),
        gi.wf(),
        gr.wf(),
        am.wf(),
        gi.width == c.width && gi.height == c.height,
        gr.width == c.width && gr.height == c.height,
        am.width == c.width && am.height == c.height,
        forall|i: int, j: int|
            0 <= i < c.width && 0 <= j < c.height ==> #[trigger] gi.at(i, j) == gray_at(c, i, j),
        forall|i: int, j: int|
            0 <= i < c.width && 0 <= j < c.height ==> (#[trigger] gr.at(i, j)).0 == sobel_gx_at(
                gi,
                i,
                j,
            ) && gr.at(i, j).1 == sobel_gy_at(gi, i, j),
        gradient_ok(gr),
        forall|i: int, j: int|
            0 <= i < c.width && 0 <= j < c.height ==> #[trigger] am.at(i, j) == cell0_at(gr, i, j),
    ensures
        forall|i: int, j: int|
            0 <= i < c.width && 0 <= j < c.height ==> #[trigger] am.at(i, j) == level_at(c, 0, i, j),
{
    assert forall|i: int, j: int| 0 <= i < c.width && 0 <= j < c.height implies #[trigger] am.at(
        i,
        j,
    ) == level_at(c, 0, i, j) by {
        lemma_gray_total(c, gi, i - 1, j - 1);
        lemma_gray_total(c, gi, i - 1, j);
        lemma_gray_total(c, gi, i - 1, j + 1);
        lemma_gray_total(c, gi, i, j - 1);
        lemma_gray_total(c, gi, i, j + 1);
        lemma_gray_total(c, gi, i + 1, j - 1);
        lemma_gray_total(c, gi, i + 1, j);
        lemma_gray_total(c, gi, i + 1, j + 1);
        assert(gr.at(i, j).0 == grad_x_at(c, i, j));
        assert(gr.at(i, j).1 == grad_y_at(c, i, j));
        assert(c.clamp_x(i) == i && c.clamp_y(j) == j);
    }
}

/// A grid holding level `n` on every valid cell selects the same neighbor as
/// the level itself.
proof fn lemma_level_best_eq(c: Grid<Rgb>, g: Grid<Cell>, n: nat, x: int, y: int, k: int)
    requires
        c.wf(),
        g.wf(),
        g.width == c.width,
        g.height == c.height,
        1 <= k <= 9,
        forall|i: int, j: int| #[trigger] g.at(i, j) == level_at(c, n, i, j),
    ensures
        best_upto(grid_fn(g), x, y, k) == level_best(c, n, x, y, k),
    decreases k,
{
    if k > 1 {
        lemma_level_best_eq(c, g, n, x, y, k - 1);
    }
}

/// A grid holding level `n` steps to level `n + 1`, and is settled exactly
/// when the level is.
proof fn lemma_level_step(c: Grid<Rgb>, g: Grid<Cell>, n: nat)
    requires
        c.wf(),
        g.wf(),
        g.width == c.width,
        g.height == c.height,
        forall|i: int, j: int|
            0 <= i < c.width && 0 <= j < c.height ==> #[trigger] g.at(i, j) == level_at(c, n, i, j),
    ensures
        forall|i: int, j: int|
            0 <= i < c.width && 0 <= j < c.height ==> #[trigger] step_at(g, i, j) == level_at(
                c,
                (n + 1) as nat,
                i,
                j,
            ),
        settled(g) <==> level_settled(c, n),
{
    assert forall|i: int, j: int| #[trigger] g.at(i, j) == level_at(c, n, i, j) by {
        let cx = g.clamp_x(i);
        let cy = g.clamp_y(j);
        assert(g.at(i, j) == g.at(cx, cy));
        assert(c.clamp_x(i) == cx && c.clamp_y(j) == cy);
        lemma_level_clamped(c, n, i, j);
    }
    assert forall|i: int, j: int| 0 <= i < c.width && 0 <= j < c.height implies #[trigger] best9(
        g,
        i,
        j,
    ) == level_best(c, n, i, j, 9) by {
        lemma_level_best_eq(c, g, n, i, j, 9);
    }
    assert forall|i: int, j: int| 0 <= i < c.width && 0 <= j < c.height implies #[trigger] step_at(
        g,
        i,
        j,
    ) == level_at(c, (n + 1) as nat, i, j) by {
        assert(c.clamp_x(i) == i && c.clamp_y(j) == j);
        assert(best9(g, i, j) == level_best(c, n, i, j, 9));
        assert(g.at(i, j) == level_at(c, n, i, j));
    }
    if settled(g) {
        assert forall|i: int, j: int| 0 <= i < c.width && 0 <= j < c.height implies (
        #[trigger] level_best(c, n, i, j, 9)).mag * 9 / 10 <= level_at(c, n, i, j).mag by {
            assert(best9(g, i, j) == level_best(c, n, i, j, 9));
            assert(best9(g, i, j).mag * 9 / 10 <= g.at(i, j).mag);
        }
    }
    if level_settled(c, n) {
        assert forall|i: int, j: int| 0 <= i < g.width && 0 <= j < g.height implies (
        #[trigger] best9(g, i, j)).mag * 9 / 10 <= g.at(i, j).mag by {
            assert(best9(g, i, j) == level_best(c, n, i, j, 9));
            assert(level_best(c, n, i, j, 9).mag * 9 / 10 <= level_at(c, n, i, j).mag);
        }
    }
}

/// Runs the whole pipeline: one rendered frame per propagation iteration,
/// starting with the unmodified initial state, until no cell changes. The
/// returned frames are exactly the renderings of levels `0..n`, the last
/// level is a fixed point, and every earlier level is not.
pub fn process(color: &Grid<Rgb>, angle_class: u64) -> (frames: Vec<Grid<Rgb>>)
    requires
        color.wf(),
        1 <= angle_class <= 360,
        360u64 % angle_class == 0,
    ensures
        1 <= frames@.len(),
        forall|k: int|
            0 <= k < frames@.len() ==> {
                &&& (#[trigger] frames@[k]).wf()
                &&& frames@[k].width == color.width
                &&& frames@[k].height == color.height
                &&& forall|x: int, y: int|
                    0 <= x < color.width && 0 <= y < color.height ==> #[trigger] frames@[k].at(
                        x,
                        y,
                    ) == rgb_at(level_at(*color, k as nat, x, y), 360int / (angle_class as int))
            },
        level_settled(*color, (frames@.len() - 1) as nat),
        forall|k: nat| k < frames@.len() - 1 ==> !(#[trigger] level_settled(*color, k)),
{
    let gi = grayscale(color);
    let gr = sobel(&gi);
    let mut g = angle_mag(&gr);
    proof {
        lemma_start_level(*color, gi, gr, g);
    }
    let mut frames: Vec<Grid<Rgb>> = Vec::new();
    loop
        invariant_except_break
            forall|x: int, y: int|
                0 <= x < color.width && 0 <= y < color.height ==> #[trigger] g.at(x, y) == level_at(
                    *color,
                    frames@.len() as nat,
                    x,
                    y,
                ),
            forall|k: nat| k < frames@.len() ==> !(#[trigger] level_settled(*color, k)),
        invariant
            color.wf(),
            g.wf(),
            g.width == color.width,
            g.height == color.height,
            cells_ok(g),
            1 <= angle_class <= 360,
            360u64 % angle_class == 0,
            forall|k: int|
                0 <= k < frames@.len() ==> {
                    &&& (#[trigger] frames@[k]).wf()
                    &&& frames@[k].width == color.width
                    &&& frames@[k].height == color.height
                    &&& forall|x: int, y: int|
                        0 <= x < color.width && 0 <= y < color.height ==> #[trigger] frames@[k].at(
                            x,
                            y,
                        ) == rgb_at(level_at(*color, k as nat, x, y), 360int / (angle_class as int))
                },
        ensures
            1 <= frames@.len(),
            level_settled(*color, (frames@.len() - 1) as nat),
            forall|k: nat| k < frames@.len() - 1 ==> !(#[trigger] level_settled(*color, k)),
            forall|k: int|
                0 <= k < frames@.len() ==> {
                    &&& (#[trigger] frames@[k]).wf()
                    &&& frames@[k].width == color.width
                    &&& frames@[k].height == color.height
                    &&& forall|x: int, y: int|
                        0 <= x < color.width && 0 <= y < color.height ==> #[trigger] frames@[k].at(
                            x,
                            y,
                        ) == rgb_at(level_at(*color, k as nat, x, y), 360int / (angle_class as int))
                },
        decreases g.width * g.height * MAG_BOUND - mag_sum(g.data@),
    {
        proof {
            assert forall|i: int| 0 <= i < g.data@.len() implies (#[trigger] g.data@[i]).mag
                <= MAG_BOUND by {
                lemma_data_at(g, i);
            }
            lemma_mag_sum_bound(g.data@, MAG_BOUND as int);
        }
        let frame = render(&g, angle_class);
        let ghost n = frames@.len();
        frames.push(frame);
        let (g2, changed) = step(&g);
        proof {
            lemma_level_step(*color, g, n as nat);
        }
        if !changed {
            proof {
                assert(level_settled(*color, n as nat));
                assert(frames@.len() - 1 == n);
            }
            break ;
        }
        proof {
            // every cell's magnitude is at least its old one, and one grew
            assert forall|i: int| 0 <= i < g.data@.len() implies (#[trigger] g.data@[i]).mag
                <= g2.data@[i].mag by {
                lemma_data_at(g, i);
                lemma_data_at(g2, i);
                let x = i % (g.width as int);
                let y = i / (g.width as int);
                assert(g2.at(x, y) == step_at(g, x, y));
            }
            assert(!settled(g));
            let (wx, wy) = choose|wx: int, wy: int|
                0 <= wx < g.width && 0 <= wy < g.height && !((#[trigger] best9(g, wx, wy)).mag * 9
                    / 10 <= g.at(wx, wy).mag);
            lemma_at_data(g, wx, wy);
            lemma_at_data(g2, wx, wy);
            let wi = wy * (g.width as int) + wx;
            assert(g2.at(wx, wy) == step_at(g, wx, wy));
            assert(g.data@[wi].mag < g2.data@[wi].mag);
            lemma_mag_sum_increases(g.data@, g2.data@, wi);
            assert forall|i: int| 0 <= i < g2.data@.len() implies (#[trigger] g2.data@[i]).mag
                <= MAG_BOUND by {
                lemma_data_at(g2, i);
            }
            lemma_mag_sum_bound(g2.data@, MAG_BOUND as int);
        }
        g = g2;
    }
    frames
}

/// A one-by-one grid is settled from the start: a cell's only neighbor is
/// itself, and the decayed magnitude never beats the cell itself, so `process`
/// yields exactly one frame. This holds at every level.
pub proof fn lemma_single_cell_settled(c: Grid<Rgb>, n: nat)
    requires
        c.wf(),
        c.width == 1,
        c.height == 1,
    ensures
        level_settled(c, n),
{
    let cellv = level_at(c, n, 0, 0);
    assert forall|i: int, j: int| #[trigger] level_at(c, n, i, j) == cellv by {
        lemma_level_clamped(c, n, i, j);
        assert(c.clamp_x(i) == 0 && c.clamp_y(j) == 0);
    }
    lemma_level_best_const(c, n, 0, 0, 9, cellv);
    lemma_decay_le(cellv.mag as int);
}

/// If every cell of level `n` is the same value, the neighborhood selection
/// is that value.
proof fn lemma_level_best_const(c: Grid<Rgb>, n: nat, x: int, y: int, k: int, cellv: Cell)
    requires
        1 <= k <= 9,
        forall|i: int, j: int| #[trigger] level_at(c, n, i, j) == cellv,
    ensures
        level_best(c, n, x, y, k) == cellv,
    decreases k,
{
    if k > 1 {
        lemma_level_best_const(c, n, x, y, k - 1, cellv);
        assert(level_at(c, n, x + off_dx(k - 1), y + off_dy(k - 1)) == cellv);
        assert(level_best(c, n, x, y, k - 1) == cellv);
    } else {
        assert(level_best(c, n, x, y, k) == level_at(c, n, x + off_dx(0), y + off_dy(0)));
        assert(level_at(c, n, x + off_dx(0), y + off_dy(0)) == cellv);
    }
}

/// A uniform image has a zero gradient at every cell, hence zero magnitude
/// everywhere, so level zero is already settled and `process` yields exactly
/// one frame.
pub proof fn lemma_uniform_settled(c: Grid<Rgb>, p: Rgb)
    requires
        c.wf(),
        forall|x: int, y: int|
            0 <= x < c.width && 0 <= y < c.height ==> #[trigger] c.at(x, y) == p,
    ensures
        level_settled(c, 0),
{
    assert forall|x: int, y: int| #[trigger] c.at(x, y) == p by {
        assert(c.at(x, y) == c.at(c.clamp_x(x), c.clamp_y(y)));
    }
    assert(is_sqrt_floor(0, 0));
    assert(is_sqrt_floor(0, sqrt_floor(0)));
    lemma_sqrt_floor_unique(0, sqrt_floor(0), 0);
    let zero = Cell { gx: 0i16, gy: 0i16, mag: 0u64 };
    assert forall|x: int, y: int| #[trigger] level_at(c, 0, x, y) == zero by {
        assert(grad_x_at(c, c.clamp_x(x), c.clamp_y(y)) == 0);
        assert(grad_y_at(c, c.clamp_x(x), c.clamp_y(y)) == 0);
        assert(grad_mag(0, 0) == sqrt_floor(0));
    }
    assert forall|x: int, y: int|
        0 <= x < c.width && 0 <= y < c.height implies (#[trigger] level_best(c, 0, x, y, 9)).mag * 9
        / 10 <= level_at(c, 0, x, y).mag by {
        lemma_level_best_const(c, 0, x, y, 9, zero);
    }
}

} // verus!
