//! A fixed-dimension two-dimensional array.

use vstd::prelude::*;

verus! {

/// The mathematical content of a [`Grid`]: its dimensions and its cells in
/// row-major order.
#[verifier::ext_equal]
pub struct GridView<T> {
    pub width: usize,
    pub height: usize,
    pub cells: Seq<T>,
}

impl<T> GridView<T> {
    /// The grid holds exactly one cell per coordinate.
    pub open spec fn wf(self) -> bool {
        &&& self.cells.len() == self.width * self.height
        &&& self.width * self.height <= usize::MAX
    }

    /// `(x, y)` names a cell; `(0, 0)` is the top left corner.
    pub open spec fn in_bounds(self, x: int, y: int) -> bool {
        0 <= x < self.width && 0 <= y < self.height
    }

    /// The row-major position backing coordinate `(x, y)`.
    pub open spec fn flat_idx(self, x: int, y: int) -> int {
        y * self.width + x
    }

    /// The cell at `(x, y)`.
    pub open spec fn cell(self, x: int, y: int) -> T {
        self.cells[self.flat_idx(x, y)]
    }

    /// This grid with the cell at `(x, y)` replaced by `v`.
    pub open spec fn update(self, x: int, y: int, v: T) -> Self {
        GridView { cells: self.cells.update(self.flat_idx(x, y), v), ..self }
    }
}

/// The flat position of an in-bounds coordinate stays within the cells.
pub proof fn lemma_flat_idx_bounds<T>(g: GridView<T>, x: int, y: int)
    requires
        g.wf(),
        g.in_bounds(x, y),
    ensures
        0 <= g.flat_idx(x, y) < g.cells.len(),
{
    assert(y * g.width + x < g.width * g.height) by (nonlinear_arith)
        requires
            0 <= x < g.width,
            0 <= y < g.height,
    ;
}

/// Distinct in-bounds coordinates are backed by distinct flat positions.
pub proof fn lemma_flat_idx_injective<T>(g: GridView<T>, x1: int, y1: int, x2: int, y2: int)
    requires
        g.in_bounds(x1, y1),
        g.in_bounds(x2, y2),
        g.flat_idx(x1, y1) == g.flat_idx(x2, y2),
    ensures
        x1 == x2,
        y1 == y2,
{
    assert(x1 == x2 && y1 == y2) by (nonlinear_arith)
        requires
            0 <= x1 < g.width,
            0 <= y1 < g.height,
            0 <= x2 < g.width,
            0 <= y2 < g.height,
            y1 * g.width + x1 == y2 * g.width + x2,
    ;
}

/// A rectangular array stored row-major; `(0, 0)` is the top left corner.
#[derive(Debug, Clone)]
pub struct Grid<T> {
    width: usize,
    height: usize,
    cells: Vec<T>,
}

impl<T> View for Grid<T> {
    type V = GridView<T>;

    closed spec fn view(&self) -> GridView<T> {
        GridView { width: self.width, height: self.height, cells: self.cells@ }
    }
}

impl<T: Copy> Grid<T> {
    /// A grid of the given dimensions with every cell set to `fill`.
    pub fn new(width: usize, height: usize, fill: T) -> (r: Self)
        requires
            width * height <= usize::MAX,
        ensures
            r@.wf(),
            r@.width == width,
            r@.height == height,
            forall|i: int| 0 <= i < r@.cells.len() ==> r@.cells[i] == fill,
    {
        let n = width * height;
        let mut cells: Vec<T> = Vec::new();
        let mut i: usize = 0;
        while i < n
            invariant
                i <= n,
                cells@.len() == i,
                forall|k: int| 0 <= k < i ==> cells@[k] == fill,
            decreases n - i,
        {
            cells.push(fill);
            i = i + 1;
        }
        Grid { width, height, cells }
    }

    /// The cell at already-validated coordinates.
    pub fn at(&self, x: usize, y: usize) -> (r: T)
        requires
            self@.wf(),
            self@.in_bounds(x as int, y as int),
        ensures
            r == self@.cell(x as int, y as int),
    {
        proof {
            lemma_flat_idx_bounds(self@, x as int, y as int);
        }
        self.cells[y * self.width + x]
    }

    /// Replace the cell at already-validated coordinates.
    pub fn set(&mut self, x: usize, y: usize, v: T)
        requires
            old(self)@.wf(),
            old(self)@.in_bounds(x as int, y as int),
        ensures
            final(self)@ == old(self)@.update(x as int, y as int, v),
            final(self)@.wf(),
    {
        proof {
            lemma_flat_idx_bounds(self@, x as int, y as int);
        }
        let i = y * self.width + x;
        self.cells[i] = v;
        assert(final(self)@ =~= old(self)@.update(x as int, y as int, v));
    }
}

impl<T> Grid<T> {
    /// The number of columns.
    pub fn width(&self) -> (r: usize)
        ensures
            r == self@.width,
    {
        self.width
    }

    /// The number of rows.
    pub fn height(&self) -> (r: usize)
        ensures
            r == self@.height,
    {
        self.height
    }

    /// The backing position where the cell at `(x, y)` is stored, or `None`
    /// if the coordinate is out of bounds.
    pub fn idx(&self, x: usize, y: usize) -> (r: Option<usize>)
        requires
            self@.wf(),
        ensures
            match r {
                Some(i) => self@.in_bounds(x as int, y as int) && i == self@.flat_idx(
                    x as int,
                    y as int,
                ),
                None => !self@.in_bounds(x as int, y as int),
            },
    {
        if x < self.width && y < self.height {
            proof {
                lemma_flat_idx_bounds(self@, x as int, y as int);
            }
            Some(y * self.width + x)
        } else {
            None
        }
    }

    /// The cell at `(x, y)`, or `None` if the coordinate is out of bounds.
    pub fn get(&self, x: usize, y: usize) -> (r: Option<&T>)
        requires
            self@.wf(),
        ensures
            match r {
                Some(v) => self@.in_bounds(x as int, y as int) && *v == self@.cell(
                    x as int,
                    y as int,
                ),
                None => !self@.in_bounds(x as int, y as int),
            },
    {
        match self.idx(x, y) {
            Some(i) => {
                proof {
                    lemma_flat_idx_bounds(self@, x as int, y as int);
                }
                Some(&self.cells[i])
            },
            None => None,
        }
    }

    /// A mutable borrow of the cell at `(x, y)`, or `None` if the coordinate
    /// is out of bounds.
    pub fn get_mut(&mut self, x: usize, y: usize) -> (r: Option<&mut T>)
        requires
            old(self)@.wf(),
        ensures
            !old(self)@.in_bounds(x as int, y as int) ==> r is None && *final(self) == *old(self),
            old(self)@.in_bounds(x as int, y as int) ==> match r {
                Some(v) => {
                    &&& *v == old(self)@.cell(x as int, y as int)
                    &&& final(self)@.width == old(self)@.width
                    &&& final(self)@.height == old(self)@.height
                    &&& final(self)@.cells == old(self)@.cells.update(
                        old(self)@.flat_idx(x as int, y as int),
                        *final(v),
                    )
                },
                None => false,
            },
    {
        let in_range = x < self.width && y < self.height;
        if in_range {
            proof {
                lemma_flat_idx_bounds(self@, x as int, y as int);
            }
            let i = y * self.width + x;
            let cell = &mut self.cells[i];
            Some(cell)
        } else {
            None
        }
    }
}

} // verus!
