//! The stepping rules: how one generation follows from the previous one.
use vstd::prelude::*;
use crate::grid::{CellState, Grid, GridError, flat, in_bounds, neighbor_count, lemma_flat_ordered};

verus! {

/// How a board moves from one generation to the next.
#[derive(Clone, Copy, Debug, PartialEq, Eq, Structural)]
pub enum StepRule {
    /// Life with four-neighbour adjacency: a live cell with fewer than two or
    /// more than three live neighbours dies, a dead cell with exactly three
    /// comes alive, every other cell keeps its state.
    ConwayStep,
    /// Every cell flips its state, whatever its neighbours.
    BlinkAllStep,
}

/// The Life rule for one cell in state `s` with `k` live neighbours.
pub open spec fn conway_next(s: CellState, k: nat) -> CellState {
    match s {
        CellState::Alive => if k < 2 || k > 3 { CellState::Dead } else { CellState::Alive },
        CellState::Dead => if k == 3 { CellState::Alive } else { CellState::Dead },
    }
}

/// The other state.
pub open spec fn flip(s: CellState) -> CellState {
    match s {
        CellState::Alive => CellState::Dead,
        CellState::Dead => CellState::Alive,
    }
}

/// The state that cell `(x, y)` of `g` has in the next generation under `rule`.
pub open spec fn next_state(rule: StepRule, g: &Grid, x: int, y: int) -> CellState {
    match rule {
        StepRule::ConwayStep => conway_next(g.at(x, y), neighbor_count(g, x, y)),
        StepRule::BlinkAllStep => flip(g.at(x, y)),
    }
}

/// `h` is the generation that follows `g` under `rule`.
pub open spec fn is_next_generation(rule: StepRule, g: &Grid, h: &Grid) -> bool {
    &&& h.n() == g.n()
    &&& forall|x: int, y: int|
        in_bounds(g.n() as int, x, y) ==> #[trigger] h.at(x, y) == next_state(rule, g, x, y)
}

/// The Life rule for one cell in state `s` with `k` live neighbours.
pub fn conway_rule(s: CellState, k: u32) -> (r: CellState)
    ensures
        r == conway_next(s, k as nat),
{
    match s {
        CellState::Alive => if k < 2 || k > 3 { CellState::Dead } else { CellState::Alive },
        CellState::Dead => if k == 3 { CellState::Alive } else { CellState::Dead },
    }
}

/// The other state.
pub fn flipped(s: CellState) -> (r: CellState)
    ensures
        r == flip(s),
{
    match s {
        CellState::Alive => CellState::Dead,
        CellState::Dead => CellState::Alive,
    }
}

impl Grid {
    /// The next generation of every cell, row by row, read from the board as
    /// it stands; the board itself is not touched.
    fn next_generation(&self, rule: StepRule) -> (next: Vec<CellState>)
        requires
            self.wf(),
        ensures
            next@.len() == self.n() * self.n(),
            forall|x: int, y: int|
                in_bounds(self.n() as int, x, y) ==> next@[flat(self.n() as int, x, y)]
                    == next_state(rule, self, x, y),
    {
        let n = self.size();
        let ghost ni = n as int;
        let mut next: Vec<CellState> = Vec::new();
        let mut x: usize = 0;
        while x < n
            invariant
                self.wf(),
                ni == self.n(),
                n == ni,
                x <= n,
                next@.len() == x * ni,
                forall|a: int, b: int|
                    0 <= a < x && 0 <= b < ni ==> next@[flat(ni, a, b)] == next_state(
                        rule,
                        self,
                        a,
                        b,
                    ),
            decreases n - x,
        {
            let mut y: usize = 0;
            while y < n
                invariant
                    self.wf(),
                    ni == self.n(),
                    n == ni,
                    x < n,
                    y <= n,
                    next@.len() == x * ni + y,
                    forall|a: int, b: int|
                        (0 <= a < x && 0 <= b < ni) || (a == x && 0 <= b < y)
                            ==> next@[flat(ni, a, b)] == next_state(rule, self, a, b),
                decreases n - y,
            {
                let s = self.cell(x, y);
                let v = match rule {
                    StepRule::ConwayStep => conway_rule(s, self.neighbors_of(x, y)),
                    StepRule::BlinkAllStep => flipped(s),
                };
                let ghost before = next@;
                next.push(v);
                proof {
                    assert forall|a: int, b: int|
                        (0 <= a < x && 0 <= b < ni) || (a == x && 0 <= b < y + 1) implies next@[flat(
                            ni,
                            a,
                            b,
                        )] == next_state(rule, self, a, b) by {
                        if a == x && b == y {
                        } else {
                            lemma_flat_ordered(ni, a, b, x as int, y as int);
                            assert(next@[flat(ni, a, b)] == before[flat(ni, a, b)]);
                        }
                    }
                }
                y = y + 1;
            }
            assert(x * ni + ni == (x + 1) * ni) by (nonlinear_arith);
            x = x + 1;
        }
        next
    }

    /// Moves the board one generation on under `rule`. Every next state is
    /// computed from the board as it was before the call, and all of them are
    /// committed together. Fails with `PreconditionViolation`, and changes
    /// nothing, when the board has not been seeded.
    pub fn advance(&mut self, rule: StepRule) -> (r: Result<(), GridError>)
        requires
            old(self).wf(),
        ensures
            final(self).wf(),
            final(self).is_seeded() == old(self).is_seeded(),
            r.is_ok() <==> old(self).is_seeded(),
            r matches Err(e) ==> e == GridError::PreconditionViolation && *final(self) == *old(self),
            r is Ok ==> is_next_generation(rule, old(self), final(self)),
    {
        if !self.seeded() {
            return Err(GridError::PreconditionViolation);
        }
        let next = self.next_generation(rule);
        self.commit(next);
        Ok(())
    }
}

} // verus!
