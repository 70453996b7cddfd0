//! The per-cell pipeline stages in front of the propagation loop: grayscale
//! intensity, the 3x3 Sobel gradient, and the fixed-point gradient magnitude.
use vstd::prelude::*;

use crate::grid::Grid;
use crate::grid::Window;
use crate::Rgb;

verus! {

/// Largest grayscale intensity: the three 8-bit channels are summed, not
/// averaged.
pub const GRAY_MAX: i16 = 765;

/// Largest absolute value of a Sobel component: four intensities of weight one
/// plus two of weight two, each at most `GRAY_MAX`.
pub const SOBEL_MAX: i16 = 3060;

/// Magnitudes are the fixed-point value `floor(1024 * sqrt(gx^2 + gy^2))`;
/// this is the square of that scale.
pub const MAG_SCALE_SQ: u64 = 1048576;

/// Every magnitude of a gradient in Sobel range stays at or below this bound,
/// which is also the exact denominator of the lightness fraction
/// `magnitude / (3 * 255 * 3) / 2` used by the color mapping.
pub const MAG_BOUND: u64 = 4700160;

/// `r` is the integer square root of `n`, rounded down.
pub open spec fn is_sqrt_floor(n: int, r: int) -> bool {
    &&& 0 <= r
    &&& r * r <= n
    &&& n < (r + 1) * (r + 1)
}

/// The integer square root, rounded down, as a function.
pub open spec fn sqrt_floor(n: int) -> int {
    choose|r: int| is_sqrt_floor(n, r)
}

/// At most one integer is the rounded-down square root of `n`.
pub proof fn lemma_sqrt_floor_unique(n: int, r1: int, r2: int)
    requires
        is_sqrt_floor(n, r1),
        is_sqrt_floor(n, r2),
    ensures
        r1 == r2,
{
    if r1 < r2 {
        assert((r1 + 1) * (r1 + 1) <= r2 * r2) by (nonlinear_arith)
            requires
                0 <= r1 + 1 <= r2,
        ;
    }
    if r2 < r1 {
        assert((r2 + 1) * (r2 + 1) <= r1 * r1) by (nonlinear_arith)
            requires
                0 <= r2 + 1 <= r1,
        ;
    }
}

/// Integer square root by binary search.
pub fn isqrt(n: u64) -> (r: u64)
    requires
        n < 0x4000000000000000,
    ensures
        is_sqrt_floor(n as int, r as int),
        r == sqrt_floor(n as int),
{
    let mut lo: u64 = 0;
    let mut hi: u64 = 0x80000000;
    while lo + 1 < hi
        invariant
            lo < hi <= 0x80000000,
            lo * lo <= n,
            n < hi * hi,
        decreases hi - lo,
    {
        let mid = lo + (hi - lo) / 2;
        proof {
            assert(mid * mid <= 0x4000000000000000) by (nonlinear_arith)
                requires
                    mid <= 0x80000000,
            ;
        }
        if mid * mid <= n {
            lo = mid;
        } else {
            hi = mid;
        }
    }
    proof {
        assert(is_sqrt_floor(n as int, lo as int));
        lemma_sqrt_floor_unique(n as int, lo as int, sqrt_floor(n as int));
    }
    lo
}

/// Grayscale intensity of the pixel at `(x, y)`: the plain sum of the three
/// channels, in `[0, 765]`.
pub open spec fn gray_at(c: Grid<Rgb>, x: int, y: int) -> int {
    c.at(x, y).r + c.at(x, y).g + c.at(x, y).b
}

/// All cells of an intensity grid lie in grayscale range.
pub open spec fn intensities_ok(gi: Grid<i16>) -> bool {
    forall|x: int, y: int|
        0 <= x < gi.width && 0 <= y < gi.height ==> 0 <= #[trigger] gi.at(x, y) <= GRAY_MAX
}

/// Replicate-border reads stay in grayscale range for any coordinates.
pub proof fn lemma_intensity_bounded(gi: Grid<i16>, x: int, y: int)
    requires
        gi.wf(),
        intensities_ok(gi),
    ensures
        0 <= gi.at(x, y) <= GRAY_MAX,
{
    assert(gi.at(gi.clamp_x(x), gi.clamp_y(y)) == gi.at(x, y));
}

/// Maps a color grid to its intensity grid.
pub fn grayscale(color: &Grid<Rgb>) -> (r: Grid<i16>)
    requires
        color.wf(),
    ensures
        r.wf(),
        r.width == color.width,
        r.height == color.height,
        intensities_ok(r),
        forall|x: int, y: int|
            0 <= x < color.width && 0 <= y < color.height ==> #[trigger] r.at(x, y) == gray_at(
                *color,
                x,
                y,
            ),
{
    let f = |v: Window<'_, Rgb>| -> (out: i16)
        requires
            v.anchored(),
        ensures
            out == gray_at(*v.grid, v.x as int, v.y as int),
        {
            let p = *v.get(0, 0);
            p.r as i16 + p.g as i16 + p.b as i16
        };
    let r = color.map(f);
    proof {
        assert forall|x: int, y: int|
            0 <= x < color.width && 0 <= y < color.height implies #[trigger] r.at(x, y) == gray_at(
            *color,
            x,
            y,
        ) && 0 <= r.at(x, y) <= GRAY_MAX by {
            let xu = x as usize;
            let yu = y as usize;
            assert(call_ensures(f, (Window { grid: color, x: xu, y: yu },), r.at(x, y)));
        }
    }
    r
}

/// The horizontal Sobel component at `(x, y)`: the standard 3x3 kernel over
/// clamped-border intensity reads.
pub open spec fn sobel_gx_at(gi: Grid<i16>, x: int, y: int) -> int {
    -(gi.at(x - 1, y - 1) + 2 * gi.at(x - 1, y) + gi.at(x - 1, y + 1)) + (gi.at(x + 1, y - 1) + 2
        * gi.at(x + 1, y) + gi.at(x + 1, y + 1))
}

/// The vertical Sobel component at `(x, y)`.
pub open spec fn sobel_gy_at(gi: Grid<i16>, x: int, y: int) -> int {
    -(gi.at(x - 1, y - 1) + 2 * gi.at(x, y - 1) + gi.at(x + 1, y - 1)) + (gi.at(x - 1, y + 1) + 2
        * gi.at(x, y + 1) + gi.at(x + 1, y + 1))
}

/// All cells of a gradient grid lie in Sobel range.
pub open spec fn gradient_ok(gr: Grid<(i16, i16)>) -> bool {
    forall|x: int, y: int|
        0 <= x < gr.width && 0 <= y < gr.height ==> -SOBEL_MAX <= (#[trigger] gr.at(x, y)).0
            <= SOBEL_MAX && -SOBEL_MAX <= gr.at(x, y).1 <= SOBEL_MAX
}

/// Maps an intensity grid to its Sobel gradient grid.
pub fn sobel(gi: &Grid<i16>) -> (r: Grid<(i16, i16)>)
    requires
        gi.wf(),
        intensities_ok(*gi),
    ensures
        r.wf(),
        r.width == gi.width,
        r.height == gi.height,
        gradient_ok(r),
        forall|x: int, y: int|
            0 <= x < gi.width && 0 <= y < gi.height ==> (#[trigger] r.at(x, y)).0 == sobel_gx_at(
                *gi,
                x,
                y,
            ) && r.at(x, y).1 == sobel_gy_at(*gi, x, y),
{
    let f = |v: Window<'_, i16>| -> (out: (i16, i16))
        requires
            v.anchored(),
            intensities_ok(*v.grid),
        ensures
            out.0 == sobel_gx_at(*v.grid, v.x as int, v.y as int),
            out.1 == sobel_gy_at(*v.grid, v.x as int, v.y as int),
        {
            let x = v.x;
            let y = v.y;
            proof {
                lemma_intensity_bounded(*v.grid, x - 1, y - 1);
                lemma_intensity_bounded(*v.grid, x - 1, y as int);
                lemma_intensity_bounded(*v.grid, x - 1, y + 1);
                lemma_intensity_bounded(*v.grid, x as int, y - 1);
                lemma_intensity_bounded(*v.grid, x as int, y + 1);
                lemma_intensity_bounded(*v.grid, x + 1, y - 1);
                lemma_intensity_bounded(*v.grid, x + 1, y as int);
                lemma_intensity_bounded(*v.grid, x + 1, y + 1);
            }
            let nw = *v.get(-1, -1);
            let w = *v.get(-1, 0);
            let sw = *v.get(-1, 1);
            let n = *v.get(0, -1);
            let s = *v.get(0, 1);
            let ne = *v.get(1, -1);
            let e = *v.get(1, 0);
            let se = *v.get(1, 1);
            let gx = -(nw + 2 * w + sw) + (ne + 2 * e + se);
            let gy = -(nw + 2 * n + ne) + (sw + 2 * s + se);
            (gx, gy)
        };
    let r = gi.map(f);
    proof {
        assert forall|x: int, y: int|
            0 <= x < gi.width && 0 <= y < gi.height implies (#[trigger] r.at(x, y)).0
            == sobel_gx_at(*gi, x, y) && r.at(x, y).1 == sobel_gy_at(*gi, x, y) && -SOBEL_MAX
            <= r.at(x, y).0 <= SOBEL_MAX && -SOBEL_MAX <= r.at(x, y).1 <= SOBEL_MAX by {
            let xu = x as usize;
            let yu = y as usize;
            assert(call_ensures(f, (Window { grid: gi, x: xu, y: yu },), r.at(x, y)));
            lemma_intensity_bounded(*gi, x - 1, y - 1);
            lemma_intensity_bounded(*gi, x - 1, y);
            lemma_intensity_bounded(*gi, x - 1, y + 1);
            lemma_intensity_bounded(*gi, x, y - 1);
            lemma_intensity_bounded(*gi, x, y + 1);
            lemma_intensity_bounded(*gi, x + 1, y - 1);
            lemma_intensity_bounded(*gi, x + 1, y);
            lemma_intensity_bounded(*gi, x + 1, y + 1);
        }
    }
    r
}

/// One cell of the propagating grid: the gradient pair that stands for the
/// cell's edge direction, and the fixed-point magnitude that decays as the
/// value spreads.
#[derive(Clone, Copy, PartialEq, Eq, Structural, Debug)]
pub struct Cell {
    pub gx: i16,
    pub gy: i16,
    pub mag: u64,
}

/// The fixed-point magnitude of a gradient pair:
/// `floor(1024 * sqrt(gx^2 + gy^2))`.
pub open spec fn grad_mag(gx: int, gy: int) -> int {
    sqrt_floor((gx * gx + gy * gy) * MAG_SCALE_SQ)
}

/// The initial propagation cell at `(x, y)` of a gradient grid.
pub open spec fn cell0_at(gr: Grid<(i16, i16)>, x: int, y: int) -> Cell {
    Cell {
        gx: gr.at(x, y).0,
        gy: gr.at(x, y).1,
        mag: grad_mag(gr.at(x, y).0 as int, gr.at(x, y).1 as int) as u64,
    }
}

/// All magnitudes of a propagation grid stay at or below `MAG_BOUND`.
pub open spec fn cells_ok(g: Grid<Cell>) -> bool {
    forall|x: int, y: int|
        0 <= x < g.width && 0 <= y < g.height ==> (#[trigger] g.at(x, y)).mag <= MAG_BOUND
}

/// Maps a gradient grid to the initial propagation grid.
pub fn angle_mag(gr: &Grid<(i16, i16)>) -> (r: Grid<Cell>)
    requires
        gr.wf(),
        gradient_ok(*gr),
    ensures
        r.wf(),
        r.width == gr.width,
        r.height == gr.height,
        cells_ok(r),
        forall|x: int, y: int|
            0 <= x < gr.width && 0 <= y < gr.height ==> #[trigger] r.at(x, y) == cell0_at(
                *gr,
                x,
                y,
            ),
{
    let f = |v: Window<'_, (i16, i16)>| -> (out: Cell)
        requires
            v.anchored(),
            gradient_ok(*v.grid),
        ensures
            out == cell0_at(*v.grid, v.x as int, v.y as int),
            out.mag <= MAG_BOUND,
        {
            let (gx, gy) = *v.get(0, 0);
            let gxl = gx as i64;
            let gyl = gy as i64;
            proof {
                assert(0 <= gxl * gxl <= SOBEL_MAX * SOBEL_MAX) by (nonlinear_arith)
                    requires
                        -SOBEL_MAX <= gxl <= SOBEL_MAX,
                        SOBEL_MAX == 3060,
                ;
                assert(0 <= gyl * gyl <= SOBEL_MAX * SOBEL_MAX) by (nonlinear_arith)
                    requires
                        -SOBEL_MAX <= gyl <= SOBEL_MAX,
                        SOBEL_MAX == 3060,
                ;
            }
            let s = (gxl * gxl + gyl * gyl) as u64;
            let m = isqrt(s * MAG_SCALE_SQ);
            proof {
                assert(m <= MAG_BOUND) by (nonlinear_arith)
                    requires
                        m * m <= s * MAG_SCALE_SQ,
                        s <= 2 * SOBEL_MAX * SOBEL_MAX,
                        MAG_SCALE_SQ == 1048576,
                        SOBEL_MAX == 3060,
                        MAG_BOUND == 4700160,
                ;
            }
            Cell { gx, gy, mag: m }
        };
    let r = gr.map(f);
    proof {
        assert forall|x: int, y: int|
            0 <= x < gr.width && 0 <= y < gr.height implies #[trigger] r.at(x, y) == cell0_at(
            *gr,
            x,
            y,
        ) && r.at(x, y).mag <= MAG_BOUND by {
            let xu = x as usize;
            let yu = y as usize;
            assert(call_ensures(f, (Window { grid: gr, x: xu, y: yu },), r.at(x, y)));
        }
    }
    r
}

} // verus!
