//! Rectangular cell grids with replicate-border (clamp-to-edge) indexing, and
//! read-only anchored views over them.
use vstd::prelude::*;

verus! {

/// The one error the library raises: a grid was built with a zero dimension or
/// with a buffer whose length does not equal `width * height`.
#[derive(Clone, Copy, PartialEq, Eq, Structural, Debug)]
pub enum GridError {
    InvalidDimensions,
}

/// An owned, row-major rectangular buffer of cells. Every coordinate access is
/// clamped into `[0, width-1] x [0, height-1]`, so neighborhood reads at the
/// image border replicate the edge cells.
pub struct Grid<T> {
    pub width: usize,
    pub height: usize,
    pub data: Vec<T>,
}

impl<T> Grid<T> {
    /// Well-formed: both dimensions nonzero and the buffer holds exactly one
    /// cell per coordinate.
    pub open spec fn wf(self) -> bool {
        &&& 1 <= self.width
        &&& 1 <= self.height
        &&& self.data@.len() == self.width * self.height
    }

    /// An arbitrary integer x coordinate, clamped into the valid column range.
    pub open spec fn clamp_x(self, x: int) -> int {
        if x < 0 {
            0
        } else if x > self.width - 1 {
            self.width - 1
        } else {
            x
        }
    }

    /// An arbitrary integer y coordinate, clamped into the valid row range.
    pub open spec fn clamp_y(self, y: int) -> int {
        if y < 0 {
            0
        } else if y > self.height - 1 {
            self.height - 1
        } else {
            y
        }
    }

    /// The cell at `(x, y)` under replicate-border semantics: the coordinates
    /// are clamped and the cell is read from the row-major buffer.
    pub open spec fn at(self, x: int, y: int) -> T {
        self.data@[self.clamp_y(y) * self.width + self.clamp_x(x)]
    }

    /// Builds a grid from a row-major buffer, rejecting zero dimensions and a
    /// buffer whose length does not match.
    pub fn new(width: usize, height: usize, data: Vec<T>) -> (r: Result<Grid<T>, GridError>)
        ensures
            match r {
                Ok(g) => {
                    &&& g.wf()
                    &&& g.width == width
                    &&& g.height == height
                    &&& g.data@ == data@
                },
                Err(e) => {
                    &&& e == GridError::InvalidDimensions
                    &&& (width == 0 || height == 0 || data@.len() != width * height)
                },
            },
    {
        if width == 0 || height == 0 {
            return Err(GridError::InvalidDimensions);
        }
        let q = data.len() / width;
        let rem = data.len() % width;
        proof {
            vstd::arithmetic::div_mod::lemma_fundamental_div_mod(data@.len() as int, width as int);
        }
        proof {
            assert(data@.len() == width * height <==> (q == height && rem == 0))
                by (nonlinear_arith)
                requires
                    width >= 1,
                    data@.len() == width * q + rem,
                    0 <= rem < width,
                    q == data@.len() as int / width as int,
            ;
        }
        if q != height || rem != 0 {
            return Err(GridError::InvalidDimensions);
        }
        Ok(Grid { width, height, data })
    }

    pub fn width(&self) -> (r: usize)
        ensures
            r == self.width,
    {
        self.width
    }

    pub fn height(&self) -> (r: usize)
        ensures
            r == self.height,
    {
        self.height
    }

    /// Clamped absolute access: out-of-range coordinates replicate the border.
    pub fn get(&self, x: usize, y: usize) -> (r: &T)
        requires
            self.wf(),
        ensures
            *r == self.at(x as int, y as int),
    {
        let cx = if x > self.width - 1 {
            self.width - 1
        } else {
            x
        };
        let cy = if y > self.height - 1 {
            self.height - 1
        } else {
            y
        };
        let n = self.data.len();
        proof {
            assert(cy * self.width + cx < n) by (nonlinear_arith)
                requires
                    cx < self.width,
                    cy < self.height,
                    n == self.width * self.height,
            ;
        }
        &self.data[cy * self.width + cx]
    }
}

/// Clamped access reads the same cell as first clamping the coordinates by
/// hand: the border policy is idempotent.
pub proof fn lemma_clamped_access<T>(g: Grid<T>, x: int, y: int)
    requires
        g.wf(),
    ensures
        g.at(x, y) == g.at(g.clamp_x(x), g.clamp_y(y)),
{
}

/// A read-only window over a grid, anchored at one cell; neighbors are read by
/// signed relative offset. A negative offset saturates at zero before the
/// grid's own clamp applies.
pub struct Window<'a, T> {
    pub grid: &'a Grid<T>,
    pub x: usize,
    pub y: usize,
}

impl<'a, T> Window<'a, T> {
    /// The window sits on a well-formed grid with its anchor in range.
    pub open spec fn anchored(self) -> bool {
        &&& self.grid.wf()
        &&& self.x < self.grid.width
        &&& self.y < self.grid.height
    }

    /// The neighbor at signed offset `(dx, dy)` from the anchor, with the
    /// clamped replicate-border semantics of the underlying grid.
    pub fn get(&self, dx: isize, dy: isize) -> (r: &T)
        requires
            self.anchored(),
            dx > isize::MIN,
            dy > isize::MIN,
            dx >= 0 ==> self.x + dx <= usize::MAX,
            dy >= 0 ==> self.y + dy <= usize::MAX,
        ensures
            *r == self.grid.at(self.x + dx, self.y + dy),
    {
        let ax = if dx < 0 {
            let k = (-dx) as usize;
            if self.x >= k {
                self.x - k
            } else {
                0
            }
        } else {
            self.x + (dx as usize)
        };
        let ay = if dy < 0 {
            let k = (-dy) as usize;
            if self.y >= k {
                self.y - k
            } else {
                0
            }
        } else {
            self.y + (dy as usize)
        };
        self.grid.get(ax, ay)
    }
}

impl<T> Grid<T> {
    /// Builds a brand-new grid of the same dimensions whose cell at `(x, y)`
    /// is produced by `f` applied to a window anchored at `(x, y)`. The source
    /// is only read, never written, so `f` sees a frozen snapshot.
    pub fn map<U, F: Fn(Window<'_, T>) -> U>(&self, f: F) -> (r: Grid<U>)
        requires
            self.wf(),
            forall|v: Window<'_, T>|
                #![trigger call_requires(f, (v,))]
                v.grid == self && v.x < self.width && v.y < self.height ==> call_requires(
                    f,
                    (v,),
                ),
        ensures
            r.wf(),
            r.width == self.width,
            r.height == self.height,
            forall|x: usize, y: usize|
                x < self.width && y < self.height ==> call_ensures(
                    f,
                    (Window { grid: self, x, y },),
                    #[trigger] r.at(x as int, y as int),
                ),
    {
        let mut data: Vec<U> = Vec::new();
        let mut y: usize = 0;
        while y < self.height
            invariant
                self.wf(),
                forall|v: Window<'_, T>|
                    #![trigger call_requires(f, (v,))]
                    v.grid == self && v.x < self.width && v.y < self.height ==> call_requires(
                        f,
                        (v,),
                    ),
                y <= self.height,
                data@.len() == y * self.width,
                forall|j: usize, i: usize|
                    j < y && i < self.width ==> call_ensures(
                        f,
                        (Window { grid: self, x: i, y: j },),
                        #[trigger] data@[j * self.width + i],
                    ),
            decreases self.height - y,
        {
            let mut x: usize = 0;
            while x < self.width
                invariant
                    self.wf(),
                    forall|v: Window<'_, T>|
                        #![trigger call_requires(f, (v,))]
                        v.grid == self && v.x < self.width && v.y < self.height ==> call_requires(
                            f,
                            (v,),
                        ),
                    y < self.height,
                    x <= self.width,
                    data@.len() == y * self.width + x,
                    forall|j: usize, i: usize|
                        j < y && i < self.width ==> call_ensures(
                            f,
                            (Window { grid: self, x: i, y: j },),
                            #[trigger] data@[j * self.width + i],
                        ),
                    forall|i: usize|
                        i < x ==> call_ensures(
                            f,
                            (Window { grid: self, x: i, y },),
                            #[trigger] data@[y * self.width + i],
                        ),
                decreases self.width - x,
            {
                proof {
                    assert(y * self.width + x < self.width * self.height) by (nonlinear_arith)
                        requires
                            x < self.width,
                            y < self.height,
                    ;
                }
                let v = Window { grid: self, x, y };
                data.push(f(v));
                proof {
                    assert forall|j: usize, i: usize| j < y && i < self.width implies call_ensures(
                        f,
                        (Window { grid: self, x: i, y: j },),
                        #[trigger] data@[j * self.width + i],
                    ) by {
                        assert(j * self.width + i < y * self.width) by (nonlinear_arith)
                            requires
                                j < y,
                                i < self.width,
                        ;
                    }
                }
                x += 1;
            }
            assert(data@.len() == (y + 1) * self.width) by (nonlinear_arith)
                requires
                    data@.len() == y * self.width + self.width,
            ;
            y += 1;
        }
        proof {
            assert(data@.len() == self.width * self.height) by (nonlinear_arith)
                requires
                    data@.len() == y * self.width,
                    y == self.height,
            ;
        }
        let r = Grid { width: self.width, height: self.height, data };
        proof {
            assert forall|x: usize, y: usize| x < self.width && y < self.height implies call_ensures(
                f,
                (Window { grid: self, x, y },),
                #[trigger] r.at(x as int, y as int),
            ) by {
                assert(r.clamp_x(x as int) == x as int);
                assert(r.clamp_y(y as int) == y as int);
                assert(r.at(x as int, y as int) == r.data@[(y as int) * self.width + (x as int)]);
            }
        }
        r
    }
}

} // verus!
