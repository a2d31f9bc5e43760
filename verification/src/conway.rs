use vstd::prelude::*;

verus! {

/// A rectangular board stored row by row in one vector.
pub struct Grid<T> {
    rows: usize,
    cols: usize,
    grid: Vec<T>,
}

impl<T: Copy> Grid<T> {
    pub closed spec fn spec_rows(self) -> nat {
        self.rows as nat
    }

    pub closed spec fn spec_cols(self) -> nat {
        self.cols as nat
    }

    /// The cells in reading order: row by row, left to right.
    pub closed spec fn cells(self) -> Seq<T> {
        self.grid@
    }

    /// The backing vector holds exactly one cell per board position.
    pub open spec fn well_formed(self) -> bool {
        self.cells().len() == self.spec_rows() * self.spec_cols()
    }

    /// The cell in the given row and column.
    pub open spec fn cell_at(self, row: int, col: int) -> T {
        self.cells()[row * self.spec_cols() + col]
    }

    /// A board with the given shape and no cells filled in yet.
    pub fn new(rows: usize, cols: usize) -> (r: Self)
        requires
            rows * cols <= usize::MAX,
        ensures
            r.spec_rows() == rows,
            r.spec_cols() == cols,
            r.cells() == Seq::<T>::empty(),
    {
        Self { rows, cols, grid: Vec::with_capacity(rows * cols) }
    }

    /// A board with the given shape filled from the slice, row by row.
    pub fn from_slice(grid: &[T], rows: usize, cols: usize) -> (r: Self)
        requires
            grid@.len() == rows * cols,
        ensures
            r.well_formed(),
            r.spec_rows() == rows,
            r.spec_cols() == cols,
            r.cells() == grid@,
    {
        let n = grid.len();
        let mut v: Vec<T> = Vec::new();
        let mut i: usize = 0;
        while i < n
            invariant
                i <= n,
                n == grid@.len(),
                v@ == grid@.take(i as int),
            decreases n - i,
        {
            v.push(grid[i]);
            proof {
                assert(v@ =~= grid@.take(i + 1));
            }
            i = i + 1;
        }
        proof {
            assert(v@ =~= grid@);
        }
        Self { rows, cols, grid: v }
    }

    /// The shape as (rows, columns).
    pub fn size(&self) -> (r: (usize, usize))
        ensures
            r.0 == self.spec_rows(),
            r.1 == self.spec_cols(),
    {
        (self.rows, self.cols)
    }

    /// The cell in the given row and column.
    pub fn get(&self, row: usize, col: usize) -> (r: &T)
        requires
            self.well_formed(),
            row < self.spec_rows(),
            col < self.spec_cols(),
        ensures
            *r == self.cell_at(row as int, col as int),
    {
        let n = self.grid.len();
        proof {
            assert(row * self.cols + col < n) by (nonlinear_arith)
                requires
                    row < self.rows,
                    col < self.cols,
                    n == self.rows * self.cols,
            ;
        }
        &self.grid[row * self.cols + col]
    }

    /// Replaces the cell in the given row and column.
    pub fn set(&mut self, value: T, row: usize, col: usize)
        requires
            old(self).well_formed(),
            row < old(self).spec_rows(),
            col < old(self).spec_cols(),
        ensures
            final(self).spec_rows() == old(self).spec_rows(),
            final(self).spec_cols() == old(self).spec_cols(),
            final(self).cells() == old(self).cells().update(
                row * old(self).spec_cols() + col,
                value,
            ),
            final(self).well_formed(),
    {
        let n = self.grid.len();
        proof {
            assert(row * self.cols + col < n) by (nonlinear_arith)
                requires
                    row < self.rows,
                    col < self.cols,
                    n == self.rows * self.cols,
            ;
        }
        let idx = row * self.cols + col;
        self.grid.set(idx, value);
    }

    /// The given sequence, extended by the coordinate when it lies on the
    /// board.
    pub open spec fn spec_push_neighbour(
        self,
        s: Seq<(usize, usize)>,
        row: usize,
        col: usize,
    ) -> Seq<(usize, usize)> {
        if row < self.spec_rows() && col < self.spec_cols() {
            s.push((row, col))
        } else {
            s
        }
    }

    /// One below a coordinate, with the wrap-around of machine subtraction;
    /// a wrapped value lies far outside any board and is filtered out.
    pub open spec fn spec_dec(x: usize) -> usize {
        if x == 0 {
            usize::MAX
        } else {
            (x - 1) as usize
        }
    }

    /// One above a coordinate, with the wrap-around of machine addition.
    pub open spec fn spec_inc(x: usize) -> usize {
        if x == usize::MAX {
            0
        } else {
            (x + 1) as usize
        }
    }

    /// Those of the eight surrounding coordinates that lie on the board, in
    /// reading order.
    pub open spec fn spec_neighbours(self, row: usize, col: usize) -> Seq<(usize, usize)> {
        let s0 = Seq::<(usize, usize)>::empty();
        let s1 = self.spec_push_neighbour(s0, Self::spec_dec(row), Self::spec_dec(col));
        let s2 = self.spec_push_neighbour(s1, Self::spec_dec(row), col);
        let s3 = self.spec_push_neighbour(s2, Self::spec_dec(row), Self::spec_inc(col));
        let s4 = self.spec_push_neighbour(s3, row, Self::spec_dec(col));
        let s5 = self.spec_push_neighbour(s4, row, Self::spec_inc(col));
        let s6 = self.spec_push_neighbour(s5, Self::spec_inc(row), Self::spec_dec(col));
        let s7 = self.spec_push_neighbour(s6, Self::spec_inc(row), col);
        self.spec_push_neighbour(s7, Self::spec_inc(row), Self::spec_inc(col))
    }

    /// The coordinates of the surrounding cells that lie on the board.
    pub fn neighbours(&self, row: usize, col: usize) -> (r: Vec<(usize, usize)>)
        ensures
            r@ == self.spec_neighbours(row, col),
            r@.len() <= 8,
            forall|t: int|
                0 <= t < r@.len() ==> (#[trigger] r@[t]).0 < self.spec_rows() && r@[t].1
                    < self.spec_cols(),
    {
        let mut res = Vec::<(usize, usize)>::new();
        self.push_real_neighbour(&mut res, row.wrapping_sub(1), col.wrapping_sub(1));
        self.push_real_neighbour(&mut res, row.wrapping_sub(1), col);
        self.push_real_neighbour(&mut res, row.wrapping_sub(1), col.wrapping_add(1));
        self.push_real_neighbour(&mut res, row, col.wrapping_sub(1));
        self.push_real_neighbour(&mut res, row, col.wrapping_add(1));
        self.push_real_neighbour(&mut res, row.wrapping_add(1), col.wrapping_sub(1));
        self.push_real_neighbour(&mut res, row.wrapping_add(1), col);
        self.push_real_neighbour(&mut res, row.wrapping_add(1), col.wrapping_add(1));
        res
    }

    /// Appends the coordinate when it lies on the board.
    pub fn push_real_neighbour(&self, neigh: &mut Vec<(usize, usize)>, row: usize, col: usize)
        ensures
            final(neigh)@ == self.spec_push_neighbour(old(neigh)@, row, col),
    {
        if row < self.rows && col < self.cols {
            neigh.push((row, col));
        }
    }
}

/// One cell of the game of life.
#[derive(Clone, Copy, PartialEq, Eq, Structural)]
pub enum Cell {
    Dead,
    Alive,
}

impl Default for Cell {
    /// A cell starts dead.
    fn default() -> (r: Self)
        ensures
            r == Cell::Dead,
    {
        Self::Dead
    }
}

/// How many of the listed cells are alive.
pub open spec fn alive_in(g: Grid<Cell>, ns: Seq<(usize, usize)>) -> int
    decreases ns.len(),
{
    if ns.len() == 0 {
        0
    } else {
        alive_in(g, ns.drop_last()) + (if g.cell_at(ns.last().0 as int, ns.last().1 as int)
            == Cell::Alive {
            1int
        } else {
            0int
        })
    }
}

/// How many live neighbours a cell has.
pub open spec fn spec_alive_count(g: Grid<Cell>, row: usize, col: usize) -> int {
    alive_in(g, g.spec_neighbours(row, col))
}

/// One step of the rule for a single cell: three live neighbours wake it,
/// two leave it as it is, anything else kills it.
pub open spec fn next_cell(alive: int, c: Cell) -> Cell {
    if alive == 3 {
        Cell::Alive
    } else if alive == 2 {
        c
    } else {
        Cell::Dead
    }
}

/// The game of life on a fixed board.  `step` advances the whole board one
/// generation by the rule in `next_cell`.
pub struct GameOfLife {
    grid: Grid<Cell>,
    newgrid: Grid<Cell>,
}

impl GameOfLife {
    pub closed spec fn spec_grid(self) -> Grid<Cell> {
        self.grid
    }

    pub closed spec fn well_formed(self) -> bool {
        &&& self.grid.well_formed()
        &&& self.newgrid.well_formed()
        &&& self.newgrid.spec_rows() == self.grid.spec_rows()
        &&& self.newgrid.spec_cols() == self.grid.spec_cols()
    }

    /// Starts a game on the given board.
    pub fn from_grid(grid: Grid<Cell>) -> (r: Self)
        requires
            grid.well_formed(),
        ensures
            r.well_formed(),
            r.spec_grid() == grid,
    {
        let copy = Self::copy_grid(&grid);
        Self { grid, newgrid: copy }
    }

    /// A cell-for-cell copy of a board.
    fn copy_grid(g: &Grid<Cell>) -> (r: Grid<Cell>)
        requires
            g.well_formed(),
        ensures
            r.well_formed(),
            r.spec_rows() == g.spec_rows(),
            r.spec_cols() == g.spec_cols(),
            r.cells() == g.cells(),
    {
        let s = g.as_cells();
        let (rows, cols) = g.size();
        Grid::<Cell>::from_slice(s, rows, cols)
    }

    /// The current board.
    pub fn get_grid(&self) -> (r: &Grid<Cell>)
        ensures
            *r == self.spec_grid(),
    {
        &self.grid
    }

    /// Advances the board one generation: every cell is rewritten by the
    /// rule applied to its previous state and its count of live neighbours.
    pub fn step(&mut self)
        requires
            old(self).well_formed(),
        ensures
            final(self).well_formed(),
            final(self).spec_grid().spec_rows() == old(self).spec_grid().spec_rows(),
            final(self).spec_grid().spec_cols() == old(self).spec_grid().spec_cols(),
            forall|r: int, c: int|
                0 <= r < old(self).spec_grid().spec_rows() && 0 <= c < old(
                    self,
                ).spec_grid().spec_cols() ==> final(self).spec_grid().cell_at(r, c) == next_cell(
                    spec_alive_count(old(self).spec_grid(), r as usize, c as usize),
                    old(self).spec_grid().cell_at(r, c),
                ),
    {
        let ghost g0 = self.grid;
        let (rows, cols) = self.grid.size();
        let mut i: usize = 0;
        while i < rows
            invariant
                self.grid == g0,
                g0.well_formed(),
                self.newgrid.well_formed(),
                self.newgrid.spec_rows() == g0.spec_rows(),
                self.newgrid.spec_cols() == g0.spec_cols(),
                rows == g0.spec_rows(),
                cols == g0.spec_cols(),
                i <= rows,
                forall|r: int, c: int|
                    0 <= r < i && 0 <= c < cols ==> self.newgrid.cell_at(r, c) == next_cell(
                        spec_alive_count(g0, r as usize, c as usize),
                        g0.cell_at(r, c),
                    ),
            decreases rows - i,
        {
            let mut j: usize = 0;
            while j < cols
                invariant
                    self.grid == g0,
                    g0.well_formed(),
                    self.newgrid.well_formed(),
                self.newgrid.spec_rows() == g0.spec_rows(),
                self.newgrid.spec_cols() == g0.spec_cols(),
                    rows == g0.spec_rows(),
                    cols == g0.spec_cols(),
                    i < rows,
                    j <= cols,
                    forall|r: int, c: int|
                        0 <= r < i && 0 <= c < cols ==> self.newgrid.cell_at(r, c) == next_cell(
                            spec_alive_count(g0, r as usize, c as usize),
                            g0.cell_at(r, c),
                        ),
                    forall|c: int|
                        0 <= c < j ==> self.newgrid.cell_at(i as int, c) == next_cell(
                            spec_alive_count(g0, i, c as usize),
                            g0.cell_at(i as int, c),
                        ),
                decreases cols - j,
            {
                let mut alive: i32 = 0;
                let cell: Cell = *self.grid.get(i, j);
                let ns = self.grid.neighbours(i, j);
                let n = ns.len();
                let ghost before = self.newgrid;
                let mut t: usize = 0;
                while t < n
                    invariant
                        self.grid == g0,
                        self.newgrid == before,
                        g0.well_formed(),
                        n == ns@.len(),
                        n <= 8,
                        t <= n,
                        ns@ == g0.spec_neighbours(i, j),
                        forall|u: int|
                            0 <= u < n ==> (#[trigger] ns@[u]).0 < g0.spec_rows() && ns@[u].1
                                < g0.spec_cols(),
                        0 <= alive <= t,
                        alive == alive_in(g0, ns@.take(t as int)),
                    decreases n - t,
                {
                    let p = ns[t];
                    match self.grid.get(p.0, p.1) {
                        Cell::Alive => {
                            alive = alive + 1;
                        },
                        _ => {},
                    }
                    proof {
                        assert(ns@.take(t + 1).drop_last() =~= ns@.take(t as int));
                        assert(ns@.take(t + 1).last() == ns@[t as int]);
                    }
                    t = t + 1;
                }
                proof {
                    assert(ns@.take(n as int) =~= ns@);
                }
                match alive {
                    3 => self.newgrid.set(Cell::Alive, i, j),
                    2 => self.newgrid.set(cell, i, j),
                    _ => self.newgrid.set(Cell::Dead, i, j),
                }
                proof {
                    let ii = i as int;
                    let jj = j as int;
                    let cc = cols as int;
                    let rr = rows as int;
                    assert(0 <= ii * cc + jj < rr * cc) by (nonlinear_arith)
                        requires
                            0 <= ii < rr,
                            0 <= jj < cc,
                    ;
                    assert(self.newgrid.cells().len() == rr * cc);
                    assert(self.newgrid.cell_at(ii, jj) == next_cell(
                        spec_alive_count(g0, i, j),
                        g0.cell_at(ii, jj),
                    ));
                    assert forall|r: int, c: int|
                        0 <= r < rr && 0 <= c < cc && (r != ii || c != jj) implies
                        self.newgrid.cell_at(r, c) == before.cell_at(r, c) by {
                        assert(r * cc + c != ii * cc + jj && 0 <= r * cc + c < rr * cc)
                            by (nonlinear_arith)
                            requires
                                0 <= r < rr,
                                0 <= c < cc,
                                0 <= ii < rr,
                                0 <= jj < cc,
                                (r != ii || c != jj),
                        ;
                    }
                    assert forall|r: int, c: int| 0 <= r < i && 0 <= c < cols implies
                        self.newgrid.cell_at(r, c) == next_cell(
                        spec_alive_count(g0, r as usize, c as usize),
                        g0.cell_at(r, c),
                    ) by {
                        assert(before.cell_at(r, c) == next_cell(
                            spec_alive_count(g0, r as usize, c as usize),
                            g0.cell_at(r, c),
                        ));
                        assert(self.newgrid.cell_at(r, c) == before.cell_at(r, c));
                    }
                    assert forall|c: int| 0 <= c < j + 1 implies self.newgrid.cell_at(ii, c)
                        == next_cell(spec_alive_count(g0, i, c as usize), g0.cell_at(ii, c)) by {
                        if c < j {
                            assert(before.cell_at(ii, c) == next_cell(
                                spec_alive_count(g0, i, c as usize),
                                g0.cell_at(ii, c),
                            ));
                            assert(self.newgrid.cell_at(ii, c) == before.cell_at(ii, c));
                        }
                    }
                }
                j = j + 1;
            }
            i = i + 1;
        }
        core::mem::swap(&mut self.grid, &mut self.newgrid);
    }

}

impl<T: Copy> Grid<T> {
    /// The cells as a slice, in reading order.
    fn as_cells(&self) -> (r: &[T])
        ensures
            r@ == self.cells(),
    {
        self.grid.as_slice()
    }
}

} // verus!
