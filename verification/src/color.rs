//! Color mapping: a cell's gradient pair picks a hue, its magnitude the
//! lightness, and the fully saturated HSL value becomes an 8-bit RGB pixel.
//! The hue is an exact rational of the gradient pair (denominator
//! `|gx| + |gy|`), and the HSL-to-RGB transform is evaluated in exact integer
//! arithmetic with one final round-half-up per channel.
use vstd::prelude::*;

use crate::grid::Grid;
use crate::grid::Window;
use crate::stage::cells_ok;
use crate::stage::Cell;
use crate::stage::MAG_BOUND;
use crate::Rgb;

verus! {

/// Absolute value of an integer.
pub open spec fn iabs(v: int) -> int {
    if v < 0 {
        -v
    } else {
        v
    }
}

/// Denominator of the exact hue fraction of a gradient pair.
pub open spec fn hue_den(gx: int, gy: int) -> int {
    if gx == 0 && gy == 0 {
        1
    } else {
        iabs(gx) + iabs(gy)
    }
}

/// Numerator of the gradient's direction in quarter turns over `hue_den`:
/// the monotone piecewise-rational angle that stands in for the arctangent,
/// counted counterclockwise from the positive x axis, in `[0, 4)` turns of a
/// quarter each. The zero gradient points along the positive x axis.
pub open spec fn quarter_num(gx: int, gy: int) -> int {
    let den = hue_den(gx, gy);
    if gx == 0 && gy == 0 {
        0
    } else if gx >= 0 && gy >= 0 {
        gy
    } else if gx < 0 && gy >= 0 {
        den - gx
    } else if gx < 0 && gy < 0 {
        2 * den - gy
    } else {
        3 * den + gx
    }
}

/// Numerator of the hue in degrees over `hue_den`, folded into `[0, 360)`:
/// the angle in half turns, scaled by `qq = 360 / ANGLE_CLASS` and reduced
/// modulo a full turn of hue.
pub open spec fn hue_num(gx: int, gy: int, qq: int) -> int {
    90 * ((quarter_num(gx, gy) * qq) % (4 * hue_den(gx, gy)))
}

/// The rounded 8-bit channel of the exact fraction `num / d` of full
/// intensity: `round(255 * num / d)`, halves up.
pub open spec fn chan_byte(num: int, d: int) -> int {
    (510 * num + d) / (2 * d)
}

/// The RGB pixel of one cell: hue from the gradient pair, saturation one,
/// lightness `mag / MAG_BOUND`, through the standard sextant HSL-to-RGB
/// transform in exact rational arithmetic.
pub open spec fn rgb_at(cell: Cell, qq: int) -> Rgb {
    let den = hue_den(cell.gx as int, cell.gy as int);
    let hn = hue_num(cell.gx as int, cell.gy as int, qq);
    let hd60 = 60 * den;
    let k6 = hn / hd60;
    let u = hn % (2 * hd60);
    let tri = hd60 - iabs(u - hd60);
    let mag2 = 2 * (cell.mag as int);
    let cn = MAG_BOUND - iabs(mag2 - MAG_BOUND);
    let d = 2 * MAG_BOUND * hd60;
    let nc = (cn + mag2) * hd60;
    let n0 = (mag2 - cn) * hd60;
    let nx = 2 * cn * tri + n0;
    let rgb = if k6 == 0 {
        (nc, nx, n0)
    } else if k6 == 1 {
        (nx, nc, n0)
    } else if k6 == 2 {
        (n0, nc, nx)
    } else if k6 == 3 {
        (n0, nx, nc)
    } else if k6 == 4 {
        (nx, n0, nc)
    } else {
        (nc, n0, nx)
    };
    Rgb {
        r: chan_byte(rgb.0, d) as u8,
        g: chan_byte(rgb.1, d) as u8,
        b: chan_byte(rgb.2, d) as u8,
    }
}

/// Computes the exact hue fraction of a gradient pair as
/// `(numerator, denominator)`, with the hue in degrees in `[0, 360)`.
pub fn hue(gx: i16, gy: i16, qq: u64) -> (r: (u64, u64))
    requires
        1 <= qq <= 360,
    ensures
        r.0 == hue_num(gx as int, gy as int, qq as int),
        r.1 == hue_den(gx as int, gy as int),
        1 <= r.1 <= 65536,
        r.0 < 360 * r.1,
{
    if gx == 0 && gy == 0 {
        proof {
            assert(quarter_num(gx as int, gy as int) == 0);
            assert(hue_den(gx as int, gy as int) == 1);
            assert((0 * (qq as int)) % 4int == 0) by (nonlinear_arith);
        }
        return (0, 1);
    }
    let gxl = gx as i64;
    let gyl = gy as i64;
    let ax = if gxl < 0 {
        -gxl
    } else {
        gxl
    };
    let ay = if gyl < 0 {
        -gyl
    } else {
        gyl
    };
    let den = ax + ay;
    let qtn = if gxl >= 0 && gyl >= 0 {
        gyl
    } else if gxl < 0 && gyl >= 0 {
        den - gxl
    } else if gxl < 0 && gyl < 0 {
        2 * den - gyl
    } else {
        3 * den + gxl
    };
    proof {
        assert(1 <= den <= 65536);
        assert(0 <= qtn <= 4 * den);
        assert((qtn as int) * (qq as int) <= 262144 * 360) by (nonlinear_arith)
            requires
                0 <= qtn <= 262144,
                0 <= qq <= 360,
        ;
    }
    let m = ((qtn as u64) * qq) % (4 * (den as u64));
    (90 * m, den as u64)
}

/// One 8-bit channel of the exact fraction `num / d`.
fn chan(num: u64, d: u64) -> (r: u8)
    requires
        1 <= d <= 0x40000000000000,
        num <= d,
    ensures
        r == chan_byte(num as int, d as int),
{
    let q = (510 * num + d) / (2 * d);
    proof {
        vstd::arithmetic::div_mod::lemma_div_is_ordered(
            510 * (num as int) + d,
            511 * (d as int),
            2 * (d as int),
        );
        vstd::arithmetic::div_mod::lemma_fundamental_div_mod_converse(
            511 * (d as int),
            2 * (d as int),
            255,
            d as int,
        );
    }
    q as u8
}

/// The RGB pixel of one cell, by exact integer evaluation of `rgb_at`.
pub fn cell_rgb(c: Cell, qq: u64) -> (out: Rgb)
    requires
        1 <= qq <= 360,
        c.mag <= MAG_BOUND,
    ensures
        out == rgb_at(c, qq as int),
{
    let (hn, hd) = hue(c.gx, c.gy, qq);
    let hd60 = 60 * hd;
    let k6 = hn / hd60;
    let u = hn % (2 * hd60);
    let dev = if u >= hd60 {
        u - hd60
    } else {
        hd60 - u
    };
    let tri = hd60 - dev;
    let mag2 = 2 * c.mag;
    let cn = if mag2 >= MAG_BOUND {
        MAG_BOUND - (mag2 - MAG_BOUND)
    } else {
        MAG_BOUND - (MAG_BOUND - mag2)
    };
    proof {
        assert(2 * MAG_BOUND * hd60 <= 0x40000000000000 && (cn + mag2) * hd60 <= 2 * MAG_BOUND
            * hd60 && (mag2 - cn) * hd60 <= (cn + mag2) * hd60 && 2 * cn * tri + (mag2 - cn) * hd60
            <= (cn + mag2) * hd60) by (nonlinear_arith)
            requires
                1 <= hd60 <= 60 * 65536,
                0 <= cn <= MAG_BOUND,
                cn <= mag2 <= 2 * MAG_BOUND,
                cn + mag2 <= 2 * MAG_BOUND,
                0 <= tri <= hd60,
                MAG_BOUND == 4700160,
        ;
    }
    let d = 2 * MAG_BOUND * hd60;
    let nc = (cn + mag2) * hd60;
    let n0 = (mag2 - cn) * hd60;
    let nx = 2 * cn * tri + n0;
    let sel = if k6 == 0 {
        (nc, nx, n0)
    } else if k6 == 1 {
        (nx, nc, n0)
    } else if k6 == 2 {
        (n0, nc, nx)
    } else if k6 == 3 {
        (n0, nx, nc)
    } else if k6 == 4 {
        (nx, n0, nc)
    } else {
        (nc, n0, nx)
    };
    Rgb { r: chan(sel.0, d), g: chan(sel.1, d), b: chan(sel.2, d) }
}

/// Renders a propagation grid to an RGB frame.
pub fn render(g: &Grid<Cell>, angle_class: u64) -> (r: Grid<Rgb>)
    requires
        g.wf(),
        cells_ok(*g),
        1 <= angle_class <= 360,
        360u64 % angle_class == 0,
    ensures
        r.wf(),
        r.width == g.width,
        r.height == g.height,
        forall|x: int, y: int|
            0 <= x < g.width && 0 <= y < g.height ==> #[trigger] r.at(x, y) == rgb_at(
                g.at(x, y),
                360int / (angle_class as int),
            ),
{
    let qq = 360 / angle_class;
    let f = |v: Window<'_, Cell>| -> (out: Rgb)
        requires
            v.anchored(),
            cells_ok(*v.grid),
        ensures
            out == rgb_at(v.grid.at(v.x as int, v.y as int), qq as int),
        {
            let c = *v.get(0, 0);
            cell_rgb(c, qq)
        };
    let r = g.map(f);
    proof {
        assert forall|x: int, y: int| 0 <= x < g.width && 0 <= y < g.height implies #[trigger] r.at(
            x,
            y,
        ) == rgb_at(g.at(x, y), 360int / (angle_class as int)) by {
            let xu = x as usize;
            let yu = y as usize;
            assert(call_ensures(f, (Window { grid: g, x: xu, y: yu },), r.at(x, y)));
        }
    }
    r
}

/// Opposite gradients are half a hue turn apart after scaling: with an even
/// `qq` (for instance ANGLE_CLASS 180) they fold onto the same hue, with an
/// odd `qq` (for instance ANGLE_CLASS 360) their hues always differ.
pub proof fn lemma_opposite_gradient_hue(gx: int, gy: int, qq: int)
    requires
        !(gx == 0 && gy == 0),
        1 <= qq,
    ensures
        hue_den(-gx, -gy) == hue_den(gx, gy),
        qq % 2 == 0 ==> hue_num(-gx, -gy, qq) == hue_num(gx, gy, qq),
        qq % 2 == 1 ==> hue_num(-gx, -gy, qq) != hue_num(gx, gy, qq),
{
    let den = hue_den(gx, gy);
    let m4 = 4 * den;
    let q1 = quarter_num(gx, gy);
    let q2 = quarter_num(-gx, -gy);
    let t = qq / 2;
    let b = q1 * qq;
    vstd::arithmetic::div_mod::lemma_fundamental_div_mod(qq, 2);
    assert(den >= 1);
    if gx >= 0 && gy >= 0 {
        assert(q2 == q1 + 2 * den);
    } else if gx < 0 && gy >= 0 {
        if gy == 0 {
            assert(q2 == q1 - 2 * den);
        } else {
            assert(q2 == q1 + 2 * den);
        }
    } else if gx < 0 && gy < 0 {
        assert(q2 == q1 - 2 * den);
    } else {
        assert(q2 == q1 - 2 * den);
    }
    assert(q2 == q1 + 2 * den || q2 == q1 - 2 * den);
    assert(q1 >= 0);
    assert(b >= 0) by (nonlinear_arith)
        requires
            b == q1 * qq,
            q1 >= 0,
            qq >= 1,
    ;
    if q2 == q1 + 2 * den {
        assert(q2 * qq == b + 2 * den * qq) by (nonlinear_arith)
            requires
                q2 == q1 + 2 * den,
                b == q1 * qq,
        ;
    } else {
        assert(q2 * qq == m4 * (-qq) + (b + 2 * den * qq)) by (nonlinear_arith)
            requires
                q2 == q1 - 2 * den,
                b == q1 * qq,
                m4 == 4 * den,
        ;
        vstd::arithmetic::div_mod::lemma_mod_multiples_vanish(-qq, b + 2 * den * qq, m4);
    }
    assert((q2 * qq) % m4 == (b + 2 * den * qq) % m4);
    if qq % 2 == 0 {
        assert(b + 2 * den * qq == m4 * t + b) by (nonlinear_arith)
            requires
                qq == 2 * t,
                m4 == 4 * den,
        ;
        vstd::arithmetic::div_mod::lemma_mod_multiples_vanish(t, b, m4);
        assert(hue_num(-gx, -gy, qq) == hue_num(gx, gy, qq));
    } else {
        assert(b + 2 * den * qq == m4 * t + (b + 2 * den)) by (nonlinear_arith)
            requires
                qq == 2 * t + 1,
                m4 == 4 * den,
        ;
        vstd::arithmetic::div_mod::lemma_mod_multiples_vanish(t, b + 2 * den, m4);
        assert((q2 * qq) % m4 == (b + 2 * den) % m4);
        let r1 = b % m4;
        vstd::arithmetic::div_mod::lemma_mod_bound(b, m4);
        vstd::arithmetic::div_mod::lemma_fundamental_div_mod(b, m4);
        vstd::arithmetic::div_mod::lemma_mod_multiples_vanish(b / m4, r1 + 2 * den, m4);
        assert(m4 * (b / m4) + (r1 + 2 * den) == b + 2 * den);
        assert((b + 2 * den) % m4 == (r1 + 2 * den) % m4);
        if r1 + 2 * den < m4 {
            vstd::arithmetic::div_mod::lemma_small_mod((r1 + 2 * den) as nat, m4 as nat);
            assert((b + 2 * den) % m4 == r1 + 2 * den);
        } else {
            vstd::arithmetic::div_mod::lemma_mod_multiples_vanish(-1, r1 + 2 * den, m4);
            vstd::arithmetic::div_mod::lemma_small_mod((r1 + 2 * den - m4) as nat, m4 as nat);
            assert((b + 2 * den) % m4 == r1 + 2 * den - m4);
        }
        assert((b + 2 * den) % m4 != r1);
        assert(hue_num(-gx, -gy, qq) != hue_num(gx, gy, qq));
    }
}

} // verus!
