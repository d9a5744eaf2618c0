//! The board: an `n` by `n` matrix of cell states, stored row by row.
use vstd::prelude::*;

verus! {

/// The state of one cell.
#[derive(Clone, Copy, Debug, PartialEq, Eq, Structural)]
pub enum CellState {
    Alive,
    Dead,
}

/// What a call on the board can fail with.
#[derive(Clone, Copy, Debug, PartialEq, Eq, Structural)]
pub enum GridError {
    /// A coordinate lies outside `[0, n)`.
    OutOfBounds,
    /// A seeding parameter is not acceptable (a probability above one, or more
    /// cells to place than the board holds).
    InvalidSeedParameter,
    /// The board was advanced before it was seeded.
    PreconditionViolation,
}

/// Whether `(x, y)` lies on a board of side `n`.
pub open spec fn in_bounds(n: int, x: int, y: int) -> bool {
    0 <= x < n && 0 <= y < n
}

/// Position of cell `(x, y)` in the row-by-row storage of a board of side `n`.
pub open spec fn flat(n: int, x: int, y: int) -> int {
    x * n + y
}

/// Every cell of the board has a place in storage.
pub proof fn lemma_flat_in_range(n: int, x: int, y: int)
    requires
        in_bounds(n, x, y),
    ensures
        0 <= flat(n, x, y) < n * n,
{
    assert(0 <= x * n + y < n * n) by (nonlinear_arith)
        requires 0 <= x < n, 0 <= y < n;
}

/// Cells earlier in row-by-row order sit earlier in storage.
pub proof fn lemma_flat_ordered(n: int, x1: int, y1: int, x2: int, y2: int)
    requires
        0 <= y1 < n,
        0 <= y2 < n,
        0 <= x1,
        x1 < x2 || (x1 == x2 && y1 < y2),
    ensures
        flat(n, x1, y1) < flat(n, x2, y2),
{
    if x1 < x2 {
        assert(x1 * n + y1 < x2 * n + y2) by (nonlinear_arith)
            requires 0 <= y1 < n, 0 <= y2, 0 <= x1 < x2;
    }
}

/// Distinct cells sit at distinct places in storage.
pub proof fn lemma_flat_injective(n: int, x1: int, y1: int, x2: int, y2: int)
    requires
        in_bounds(n, x1, y1),
        in_bounds(n, x2, y2),
        x1 != x2 || y1 != y2,
    ensures
        flat(n, x1, y1) != flat(n, x2, y2),
{
    if x1 < x2 || (x1 == x2 && y1 < y2) {
        lemma_flat_ordered(n, x1, y1, x2, y2);
    } else {
        lemma_flat_ordered(n, x2, y2, x1, y1);
    }
}

/// Whether `(x, y)` is on the board `g` and holds a live cell.
pub open spec fn alive_at(g: &Grid, x: int, y: int) -> bool {
    in_bounds(g.n() as int, x, y) && g.at(x, y) == CellState::Alive
}

/// One if `(x, y)` is a live cell of `g`, zero otherwise (also off the board).
pub open spec fn alive_count(g: &Grid, x: int, y: int) -> nat {
    if alive_at(g, x, y) { 1 } else { 0 }
}

/// The number of live cells among the four orthogonal neighbours of `(x, y)`;
/// diagonals are not neighbours, and positions off the board are skipped.
pub open spec fn neighbor_count(g: &Grid, x: int, y: int) -> nat {
    alive_count(g, x + 1, y) + alive_count(g, x - 1, y) + alive_count(g, x, y + 1)
        + alive_count(g, x, y - 1)
}

/// Both boards have the same side and agree on every cell.
pub open spec fn same_cells(a: &Grid, b: &Grid) -> bool {
    &&& a.n() == b.n()
    &&& forall|x: int, y: int| in_bounds(a.n() as int, x, y) ==> a.at(x, y) == b.at(x, y)
}

/// `total` Dead cells.
pub(crate) fn dead_cells(total: usize) -> (cells: Vec<CellState>)
    ensures
        cells@.len() == total,
        forall|j: int| 0 <= j < total ==> cells@[j] == CellState::Dead,
{
    let mut cells: Vec<CellState> = Vec::new();
    let mut i: usize = 0;
    while i < total
        invariant
            i <= total,
            cells@.len() == i,
            forall|j: int| 0 <= j < i ==> cells@[j] == CellState::Dead,
        decreases total - i,
    {
        cells.push(CellState::Dead);
        i = i + 1;
    }
    cells
}

/// A square board of cells.
pub struct Grid {
    size: usize,
    cells: Vec<CellState>,
    seeded: bool,
}

impl Grid {
    /// The side of the board.
    pub closed spec fn n(&self) -> nat {
        self.size as nat
    }

    /// The state of cell `(x, y)`; meaningful where `in_bounds(self.n(), x, y)`.
    pub closed spec fn at(&self, x: int, y: int) -> CellState {
        self.cells@[flat(self.size as int, x, y)]
    }

    /// Whether an initial distribution has been put on the board.
    pub closed spec fn is_seeded(&self) -> bool {
        self.seeded
    }

    /// The storage holds exactly one state per cell.
    pub closed spec fn wf(&self) -> bool {
        &&& self.cells@.len() == self.size * self.size
        &&& self.size * self.size <= usize::MAX
    }

    /// A board of side `n` with every cell Dead, not yet seeded.
    pub fn new(n: usize) -> (g: Grid)
        requires
            n * n <= usize::MAX,
        ensures
            g.wf(),
            g.n() == n,
            !g.is_seeded(),
            forall|x: int, y: int| in_bounds(n as int, x, y) ==> g.at(x, y) == CellState::Dead,
    {
        let cells = dead_cells(n * n);
        let g = Grid { size: n, cells, seeded: false };
        assert forall|x: int, y: int| in_bounds(n as int, x, y) implies g.at(x, y) == CellState::Dead by {
            lemma_flat_in_range(n as int, x, y);
        }
        g
    }
    /// The side of the board.
    pub fn size(&self) -> (r: usize)
        ensures
            r == self.n(),
    {
        self.size
    }

    /// The number of cells on the board.
    pub fn cell_count(&self) -> (r: usize)
        requires
            self.wf(),
        ensures
            r == self.n() * self.n(),
    {
        self.size * self.size
    }

    /// Whether an initial distribution has been put on the board.
    pub fn seeded(&self) -> (r: bool)
        ensures
            r == self.is_seeded(),
    {
        self.seeded
    }

    /// Turns a signed coordinate pair into a position on the board, if it is one.
    pub(crate) fn locate(&self, x: i64, y: i64) -> (r: Option<(usize, usize)>)
        requires
            self.wf(),
        ensures
            r.is_some() <==> in_bounds(self.n() as int, x as int, y as int),
            r matches Some(p) ==> p.0 == x && p.1 == y,
    {
        if x >= 0 && y >= 0 && (x as u64) < (self.size as u64) && (y as u64) < (self.size as u64) {
            Some((x as usize, y as usize))
        } else {
            None
        }
    }

    /// The state of an on-board cell.
    pub(crate) fn cell(&self, x: usize, y: usize) -> (r: CellState)
        requires
            self.wf(),
            in_bounds(self.n() as int, x as int, y as int),
        ensures
            r == self.at(x as int, y as int),
    {
        proof {
            lemma_flat_in_range(self.size as int, x as int, y as int);
        }
        self.cells[x * self.size + y]
    }

    /// Overwrites an on-board cell.
    pub(crate) fn put(&mut self, x: usize, y: usize, state: CellState)
        requires
            old(self).wf(),
            in_bounds(old(self).n() as int, x as int, y as int),
        ensures
            final(self).wf(),
            final(self).n() == old(self).n(),
            final(self).is_seeded() == old(self).is_seeded(),
            final(self).at(x as int, y as int) == state,
            forall|a: int, b: int|
                in_bounds(old(self).n() as int, a, b) && (a != x || b != y) ==> final(self).at(a, b)
                    == old(self).at(a, b),
    {
        proof {
            lemma_flat_in_range(self.size as int, x as int, y as int);
        }
        let i = x * self.size + y;
        self.cells.set(i, state);
        proof {
            assert forall|a: int, b: int|
                in_bounds(old(self).n() as int, a, b) && (a != x || b != y) implies self.at(a, b)
                    == old(self).at(a, b) by {
                lemma_flat_in_range(self.size as int, a, b);
                lemma_flat_injective(self.size as int, a, b, x as int, y as int);
            }
        }
    }

    /// Replaces every cell at once by the row-by-row contents of `cells`.
    pub(crate) fn commit(&mut self, cells: Vec<CellState>)
        requires
            old(self).wf(),
            cells@.len() == old(self).n() * old(self).n(),
        ensures
            final(self).wf(),
            final(self).n() == old(self).n(),
            final(self).is_seeded() == old(self).is_seeded(),
            forall|x: int, y: int|
                in_bounds(old(self).n() as int, x, y) ==> final(self).at(x, y) == cells@[flat(
                    old(self).n() as int,
                    x,
                    y,
                )],
    {
        self.cells = cells;
    }

    /// Records that an initial distribution has been put on the board.
    pub(crate) fn mark_seeded(&mut self)
        requires
            old(self).wf(),
        ensures
            final(self).wf(),
            final(self).is_seeded(),
            same_cells(old(self), final(self)),
    {
        self.seeded = true;
    }

    /// The state of cell `(x, y)`, or `OutOfBounds` off the board.
    pub fn get(&self, x: i64, y: i64) -> (r: Result<CellState, GridError>)
        requires
            self.wf(),
        ensures
            r.is_ok() <==> in_bounds(self.n() as int, x as int, y as int),
            r matches Ok(s) ==> s == self.at(x as int, y as int),
            r matches Err(e) ==> e == GridError::OutOfBounds,
    {
        match self.locate(x, y) {
            Some((a, b)) => Ok(self.cell(a, b)),
            None => Err(GridError::OutOfBounds),
        }
    }

    /// Overwrites cell `(x, y)`, or fails with `OutOfBounds` off the board and
    /// leaves the board as it was.
    pub fn set(&mut self, x: i64, y: i64, state: CellState) -> (r: Result<(), GridError>)
        requires
            old(self).wf(),
        ensures
            final(self).wf(),
            final(self).n() == old(self).n(),
            final(self).is_seeded() == old(self).is_seeded(),
            r.is_ok() <==> in_bounds(old(self).n() as int, x as int, y as int),
            r matches Err(e) ==> e == GridError::OutOfBounds && *final(self) == *old(self),
            r is Ok ==> final(self).at(x as int, y as int) == state,
            forall|a: int, b: int|
                in_bounds(old(self).n() as int, a, b) && (a != x || b != y) ==> final(self).at(a, b)
                    == old(self).at(a, b),
    {
        match self.locate(x, y) {
            Some((a, b)) => {
                self.put(a, b, state);
                Ok(())
            },
            None => Err(GridError::OutOfBounds),
        }
    }

    /// Live orthogonal neighbours of an on-board cell.
    pub(crate) fn neighbors_of(&self, x: usize, y: usize) -> (r: u32)
        requires
            self.wf(),
            in_bounds(self.n() as int, x as int, y as int),
        ensures
            r == neighbor_count(self, x as int, y as int),
            r <= 4,
    {
        let n = self.size;
        let mut count: u32 = 0;
        if x + 1 < n && self.cell(x + 1, y) == CellState::Alive {
            count = count + 1;
        }
        if x > 0 && self.cell(x - 1, y) == CellState::Alive {
            count = count + 1;
        }
        if y + 1 < n && self.cell(x, y + 1) == CellState::Alive {
            count = count + 1;
        }
        if y > 0 && self.cell(x, y - 1) == CellState::Alive {
            count = count + 1;
        }
        count
    }

    /// The number of live cells among the four orthogonal neighbours of
    /// `(x, y)`, or `OutOfBounds` off the board.
    pub fn count_alive_neighbors(&self, x: i64, y: i64) -> (r: Result<u32, GridError>)
        requires
            self.wf(),
        ensures
            r.is_ok() <==> in_bounds(self.n() as int, x as int, y as int),
            r matches Ok(c) ==> c == neighbor_count(self, x as int, y as int) && c <= 4,
            r matches Err(e) ==> e == GridError::OutOfBounds,
    {
        match self.locate(x, y) {
            Some((a, b)) => Ok(self.neighbors_of(a, b)),
            None => Err(GridError::OutOfBounds),
        }
    }
}

} // verus!
