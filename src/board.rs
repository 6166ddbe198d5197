//! The grid: a rectangle of cells, each movable at a cost or an obstacle.
use vstd::prelude::*;

verus! {

/// One cell of the grid.
#[derive(PartialEq, Eq, Structural, Clone, Copy, Debug)]
pub enum Plot {
    /// Passable; the number is the cost of stepping into this cell.
    Movable(u32),
    /// Impassable.
    Obstacle,
}

/// A cell coordinate: (column, row).
pub type Coord = (usize, usize);

/// Two distinct cells that touch by a side or a corner.
pub open spec fn adjacent(p: Coord, q: Coord) -> bool {
    &&& p != q
    &&& -1 <= q.0 as int - p.0 as int <= 1
    &&& -1 <= q.1 as int - p.1 as int <= 1
}

/// `q` comes before the offset (`dx`, `dy`) from `p`, taking offsets row by row.
pub open spec fn scanned(p: Coord, q: Coord, dy: int, dx: int) -> bool {
    let oy = q.1 as int - p.1 as int;
    let ox = q.0 as int - p.0 as int;
    oy < dy || (oy == dy && ox < dx)
}

/// A rectangular grid of plots, stored row by row.
pub struct Board {
    width: usize,
    height: usize,
    plots: Vec<Plot>,
}

impl Board {
    #[verifier::type_invariant]
    spec fn inv(self) -> bool {
        self.plots@.len() == self.width * self.height
    }

    /// Number of columns.
    pub closed spec fn w(self) -> nat {
        self.width as nat
    }

    /// Number of rows.
    pub closed spec fn h(self) -> nat {
        self.height as nat
    }

    /// The plot at column `x`, row `y` (meaningful inside the grid).
    pub closed spec fn plot_at(self, p: Coord) -> Plot {
        self.plots@[p.1 * self.width + p.0]
    }

    /// The dimensions fit in `usize`.
    pub proof fn lemma_dims(self)
        ensures
            self.w() <= usize::MAX,
            self.h() <= usize::MAX,
    {
    }

    pub open spec fn in_bounds(self, p: Coord) -> bool {
        p.0 < self.w() && p.1 < self.h()
    }

    /// A cell inside the grid that is not an obstacle.
    pub open spec fn movable(self, p: Coord) -> bool {
        self.in_bounds(p) && self.plot_at(p) is Movable
    }

    /// The cost of stepping into `p` (zero for an obstacle).
    pub open spec fn weight(self, p: Coord) -> u32 {
        match self.plot_at(p) {
            Plot::Movable(c) => c,
            Plot::Obstacle => 0,
        }
    }

    /// `q` is one of the movable cells around `p`.
    pub open spec fn is_neighbour(self, p: Coord, q: Coord) -> bool {
        adjacent(p, q) && self.movable(q)
    }

    /// The empty grid, with no cells.
    pub fn new() -> (b: Board)
        ensures
            b.w() == 0,
            b.h() == 0,
    {
        Board { width: 0, height: 0, plots: Vec::new() }
    }

    /// A grid of `width` columns and `height` rows from its plots, row by row.
    /// `None` when the number of plots is not `width * height`.
    pub fn from_plots(width: usize, height: usize, plots: Vec<Plot>) -> (r: Option<Board>)
        ensures
            r is Some <==> plots@.len() == width * height,
            r matches Some(b) ==> {
                &&& b.w() == width
                &&& b.h() == height
                &&& forall|x: usize, y: usize|
                    x < width && y < height ==> #[trigger] b.plot_at((x, y)) == plots@[y * width
                        + x]
            },
    {
        if width.checked_mul(height) == Some(plots.len()) {
            Some(Board { width, height, plots })
        } else {
            proof {
                if plots@.len() == width * height {
                    assert(width * height <= usize::MAX);
                }
            }
            None
        }
    }

    /// A grid from its rows, top row first: as many columns as the first row has
    /// cells, one row per entry. `None` when the rows differ in length.
    pub fn from_rows(rows: Vec<Vec<Plot>>) -> (r: Option<Board>)
        ensures
            r is Some <==> forall|y: int| 0 <= y < rows@.len() ==> (#[trigger] rows@[y])@.len() == rows@[0]@.len(),
            r matches Some(b) ==> {
                &&& b.h() == rows@.len()
                &&& b.w() == (if rows@.len() == 0 { 0 } else { rows@[0]@.len() })
                &&& forall|x: usize, y: usize|
                    b.in_bounds((x, y)) ==> #[trigger] b.plot_at((x, y)) == rows@[y as int]@[x as int]
            },
    {
        let height = rows.len();
        let width = if height == 0 {
            0
        } else {
            rows[0].len()
        };
        let mut plots: Vec<Plot> = Vec::new();
        let mut y: usize = 0;
        while y < height
            invariant
                height == rows@.len(),
                width == (if rows@.len() == 0 { 0 } else { rows@[0]@.len() }),
                y <= height,
                forall|k: int| 0 <= k < y ==> (#[trigger] rows@[k])@.len() == width,
                plots@.len() == y * width,
                forall|x: int, k: int|
                    0 <= x < width && 0 <= k < y ==> plots@[k * width + x] == #[trigger] rows@[k]@[x],
            decreases height - y,
        {
            let row = &rows[y];
            if row.len() != width {
                return None;
            }
            let ghost before = plots@;
            let mut x: usize = 0;
            while x < width
                invariant
                    x <= width,
                    row@.len() == width,
                    before.len() == y * width,
                    plots@.len() == y * width + x,
                    plots@.subrange(0, before.len() as int) == before,
                    forall|i: int| 0 <= i < x ==> plots@[y * width + i] == row@[i],
                decreases width - x,
            {
                plots.push(row[x]);
                x += 1;
            }
            proof {
                assert(plots@.len() == (y + 1) * width) by (nonlinear_arith)
                    requires
                        plots@.len() == y * width + width,
                ;
                assert forall|xx: int, k: int|
                    0 <= xx < width && 0 <= k < y + 1 implies plots@[k * width + xx] == #[trigger] rows@[k]@[xx] by {
                    if k < y {
                        lemma_index_in_range(xx, k, width as int, y as int);
                        vstd::arithmetic::mul::lemma_mul_is_commutative(width as int, y as int);
                        assert(plots@.subrange(0, before.len() as int)[k * width + xx] == before[k * width + xx]);
                    }
                }
            }
            y += 1;
        }
        proof {
            vstd::arithmetic::mul::lemma_mul_is_commutative(width as int, height as int);
        }
        Some(Board { width, height, plots })
    }

    pub fn width(&self) -> (r: usize)
        ensures
            r == self.w(),
    {
        self.width
    }

    pub fn height(&self) -> (r: usize)
        ensures
            r == self.h(),
    {
        self.height
    }

    /// Number of cells, `width * height`.
    pub fn cell_count(&self) -> (r: usize)
        ensures
            r == self.w() * self.h(),
    {
        proof {
            use_type_invariant(self);
        }
        self.plots.len()
    }

    /// The plot at `p`.
    pub fn plot(&self, p: Coord) -> (r: Plot)
        requires
            self.in_bounds(p),
        ensures
            r == self.plot_at(p),
    {
        proof {
            use_type_invariant(self);
            lemma_index_in_range(p.0 as int, p.1 as int, self.width as int, self.height as int);
        }
        let n = self.plots.len();
        assert(p.1 * self.width + p.0 < n);
        self.plots[p.1 * self.width + p.0]
    }

    /// The movable cells around `plot` that lie inside the grid, each once, with the
    /// cost of stepping into it. Cells past an edge are left out, never wrapped.
    pub fn get_neighbours(&self, plot: Coord) -> (r: Vec<(Coord, u32)>)
        ensures
            forall|i: int|
                0 <= i < r@.len() ==> {
                    &&& self.is_neighbour(plot, (#[trigger] r@[i]).0)
                    &&& r@[i].1 == self.weight(r@[i].0)
                },
            forall|q: Coord|
                #[trigger] self.is_neighbour(plot, q) ==> exists|i: int|
                    0 <= i < r@.len() && (#[trigger] r@[i]).0 == q,
            forall|i: int, j: int| 0 <= i < j < r@.len() ==> r@[i].0 != r@[j].0,
    {
        let mut r: Vec<(Coord, u32)> = Vec::new();
        let mut dy: isize = -1;
        while dy <= 1
            invariant
                -1 <= dy <= 2,
                forall|i: int|
                    0 <= i < r@.len() ==> {
                        &&& self.is_neighbour(plot, (#[trigger] r@[i]).0)
                        &&& r@[i].1 == self.weight(r@[i].0)
                        &&& scanned(plot, r@[i].0, dy as int, -1)
                    },
                forall|q: Coord|
                    #[trigger] self.is_neighbour(plot, q) && scanned(plot, q, dy as int, -1)
                        ==> exists|i: int| 0 <= i < r@.len() && (#[trigger] r@[i]).0 == q,
                forall|i: int, j: int| 0 <= i < j < r@.len() ==> r@[i].0 != r@[j].0,
            decreases 2 - dy,
        {
            let mut dx: isize = -1;
            while dx <= 1
                invariant
                    -1 <= dy <= 1,
                    -1 <= dx <= 2,
                    forall|i: int|
                        0 <= i < r@.len() ==> {
                            &&& self.is_neighbour(plot, (#[trigger] r@[i]).0)
                            &&& r@[i].1 == self.weight(r@[i].0)
                            &&& scanned(plot, r@[i].0, dy as int, dx as int)
                        },
                    forall|q: Coord|
                        #[trigger] self.is_neighbour(plot, q) && scanned(
                            plot,
                            q,
                            dy as int,
                            dx as int,
                        ) ==> exists|i: int| 0 <= i < r@.len() && (#[trigger] r@[i]).0 == q,
                    forall|i: int, j: int| 0 <= i < j < r@.len() ==> r@[i].0 != r@[j].0,
                decreases 2 - dx,
            {
                let ghost r0 = r@;
                if dx != 0 || dy != 0 {
                    if let (Some(nx), Some(ny)) = (
                        plot.0.checked_add_signed(dx),
                        plot.1.checked_add_signed(dy),
                    ) {
                        if nx < self.width && ny < self.height {
                            match self.plot((nx, ny)) {
                                Plot::Movable(cost) => {
                                    r.push(((nx, ny), cost));
                                },
                                Plot::Obstacle => {},
                            }
                        }
                    }
                }
                proof {
                    assert forall|q: Coord|
                        #[trigger] self.is_neighbour(plot, q) && scanned(
                            plot,
                            q,
                            dy as int,
                            dx + 1,
                        ) implies exists|i: int| 0 <= i < r@.len() && (#[trigger] r@[i]).0 == q by {
                        if scanned(plot, q, dy as int, dx as int) {
                            let i = choose|i: int| 0 <= i < r0.len() && (#[trigger] r0[i]).0 == q;
                            assert(r@[i] == r0[i]);
                        } else {
                            assert(r@[r@.len() - 1].0 == q);
                        }
                    }
                }
                dx += 1;
            }
            dy += 1;
        }
        r
    }

    /// Empties the grid.
    pub fn clear(&mut self)
        ensures
            final(self).w() == 0,
            final(self).h() == 0,
    {
        *self = Board::new();
    }
}

/// A cell of a `w` by `h` grid has its row-major index inside the grid.
pub proof fn lemma_index_in_range(x: int, y: int, w: int, h: int)
    requires
        0 <= x < w,
        0 <= y < h,
    ensures
        0 <= y * w,
        0 <= y * w + x < w * h,
{
    assert(y * w + x < w * h) by (nonlinear_arith)
        requires
            0 <= x < w,
            0 <= y < h,
    ;
    assert(0 <= y * w) by (nonlinear_arith)
        requires
            0 <= y,
            0 <= w,
    ;
}

} // verus!
