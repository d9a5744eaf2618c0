//! Properties that hold of every board, stated over the contracts of the
//! stepping and seeding operations.
use vstd::prelude::*;
use crate::grid::{CellState, Grid, alive_at, flat, in_bounds, neighbor_count, same_cells};
use crate::engine::{StepRule, is_next_generation, next_state};
use crate::seed::{
    Probability, alive_exactly_at, picks_cell, picks_on_board, seeded_from_draws, uniform_cell,
};

verus! {

/// The live cells of `g`.
pub open spec fn live_cells(g: &Grid) -> Set<(usize, usize)> {
    Set::new(
        |c: (usize, usize)| in_bounds(g.n() as int, c.0 as int, c.1 as int) && g.at(c.0 as int, c.1 as int)
            == CellState::Alive,
    )
}

/// Under the blink-all rule two generations bring every cell back to its
/// earlier state: flipping every cell is an involution.
pub proof fn blink_twice_restores(g: &Grid, h: &Grid, k: &Grid)
    requires
        is_next_generation(StepRule::BlinkAllStep, g, h),
        is_next_generation(StepRule::BlinkAllStep, h, k),
    ensures
        same_cells(g, k),
{
    assert forall|x: int, y: int| in_bounds(g.n() as int, x, y) implies g.at(x, y) == k.at(x, y) by {
        assert(k.at(x, y) == next_state(StepRule::BlinkAllStep, h, x, y));
        assert(h.at(x, y) == next_state(StepRule::BlinkAllStep, g, x, y));
    }
}

/// The corner `(0, 0)` has at most two neighbours on the board, so no more than
/// two are ever counted there.
pub proof fn corner_has_at_most_two_neighbors(g: &Grid)
    ensures
        neighbor_count(g, 0, 0) <= 2,
{
}

/// Under the Life rule a live corner cell with at most one live neighbour is
/// Dead in the next generation.
pub proof fn lonely_corner_dies(g: &Grid, h: &Grid)
    requires
        g.n() > 0,
        g.at(0, 0) == CellState::Alive,
        neighbor_count(g, 0, 0) <= 1,
        is_next_generation(StepRule::ConwayStep, g, h),
    ensures
        h.at(0, 0) == CellState::Dead,
{
    assert(h.at(0, 0) == next_state(StepRule::ConwayStep, g, 0, 0));
}

/// Cell `(x, y)` lies in the two by two block with lower corner `(bx, by)`.
pub open spec fn in_block(bx: int, by: int, x: int, y: int) -> bool {
    bx <= x <= bx + 1 && by <= y <= by + 1
}

/// The live cells of `g` are exactly the block with lower corner `(bx, by)`,
/// which lies on the board.
pub open spec fn only_block_alive(g: &Grid, bx: int, by: int) -> bool {
    &&& 0 <= bx && bx + 1 < g.n()
    &&& 0 <= by && by + 1 < g.n()
    &&& forall|x: int, y: int|
        in_bounds(g.n() as int, x, y) ==> (#[trigger] g.at(x, y) == CellState::Alive <==> in_block(
            bx,
            by,
            x,
            y,
        ))
}

proof fn lemma_alive_iff_in_block(g: &Grid, bx: int, by: int, x: int, y: int)
    requires
        only_block_alive(g, bx, by),
    ensures
        alive_at(g, x, y) == in_block(bx, by, x, y),
{
    if in_bounds(g.n() as int, x, y) {
        assert(g.at(x, y) == CellState::Alive <==> in_block(bx, by, x, y));
    }
}

/// Under the Life rule each cell of a board whose live cells are exactly a
/// two by two block keeps its state.
proof fn lemma_block_cell_steady(g: &Grid, bx: int, by: int, x: int, y: int)
    requires
        only_block_alive(g, bx, by),
        in_bounds(g.n() as int, x, y),
    ensures
        next_state(StepRule::ConwayStep, g, x, y) == g.at(x, y),
{
    lemma_alive_iff_in_block(g, bx, by, x, y);
    lemma_alive_iff_in_block(g, bx, by, x + 1, y);
    lemma_alive_iff_in_block(g, bx, by, x - 1, y);
    lemma_alive_iff_in_block(g, bx, by, x, y + 1);
    lemma_alive_iff_in_block(g, bx, by, x, y - 1);
    if in_block(bx, by, x, y) {
        assert(neighbor_count(g, x, y) == 2);
    } else {
        assert(neighbor_count(g, x, y) <= 1);
    }
}

/// A board whose only live cells form the two by two block with lower corner
/// `(bx, by)` is its own next generation under the Life rule: each block cell
/// has two live neighbours, each other cell at most one.
pub proof fn block_is_still_life(g: &Grid, h: &Grid, bx: int, by: int)
    requires
        only_block_alive(g, bx, by),
        is_next_generation(StepRule::ConwayStep, g, h),
    ensures
        same_cells(g, h),
{
    assert forall|x: int, y: int| in_bounds(g.n() as int, x, y) implies g.at(x, y) == h.at(x, y) by {
        lemma_block_cell_steady(g, bx, by, x, y);
    }
}

/// Boards with the same cells have the same lone block.
proof fn lemma_block_carries_over(g: &Grid, h: &Grid, bx: int, by: int)
    requires
        only_block_alive(g, bx, by),
        same_cells(g, h),
    ensures
        only_block_alive(h, bx, by),
{
    assert forall|x: int, y: int| in_bounds(h.n() as int, x, y) implies (#[trigger] h.at(x, y)
        == CellState::Alive <==> in_block(bx, by, x, y)) by {
        assert(g.at(x, y) == h.at(x, y));
    }
}

/// A lone two by two block stays as it is through any number of generations of
/// the Life rule: every board of a run that starts from it has the same cells
/// as the first.
pub proof fn block_stays_forever(gens: Seq<Grid>, bx: int, by: int)
    requires
        gens.len() > 0,
        only_block_alive(&gens[0], bx, by),
        forall|i: int|
            0 <= i < gens.len() - 1 ==> is_next_generation(
                StepRule::ConwayStep,
                #[trigger] &gens[i],
                &gens[i + 1],
            ),
    ensures
        forall|i: int| 0 <= i < gens.len() ==> only_block_alive(#[trigger] &gens[i], bx, by),
        forall|i: int| 0 <= i < gens.len() ==> same_cells(&gens[0], #[trigger] &gens[i]),
{
    assert forall|i: int| 0 <= i < gens.len() implies only_block_alive(#[trigger] &gens[i], bx, by)
        && same_cells(&gens[0], &gens[i]) by {
        lemma_block_at(gens, bx, by, i);
    }
}

/// Generation `i` of a run that starts from a lone block still holds it.
proof fn lemma_block_at(gens: Seq<Grid>, bx: int, by: int, i: int)
    requires
        0 <= i < gens.len(),
        only_block_alive(&gens[0], bx, by),
        forall|j: int|
            0 <= j < gens.len() - 1 ==> is_next_generation(
                StepRule::ConwayStep,
                #[trigger] &gens[j],
                &gens[j + 1],
            ),
    ensures
        only_block_alive(&gens[i], bx, by),
        same_cells(&gens[0], &gens[i]),
    decreases i,
{
    if i > 0 {
        lemma_block_at(gens, bx, by, i - 1);
        assert(is_next_generation(StepRule::ConwayStep, &gens[i - 1], &gens[i]));
        block_is_still_life(&gens[i - 1], &gens[i], bx, by);
        lemma_block_carries_over(&gens[i - 1], &gens[i], bx, by);
    }
}

/// After unique placement the board holds exactly as many live cells as
/// there are picks, the picks being distinct cells of the board.
pub proof fn sparse_seeding_places_exactly_k(g: &Grid, picks: Seq<(usize, usize)>)
    requires
        picks.no_duplicates(),
        picks_on_board(picks, g.n() as int),
        alive_exactly_at(g, picks),
    ensures
        live_cells(g) == picks.to_set(),
        live_cells(g).len() == picks.len(),
{
    assert forall|c: (usize, usize)| live_cells(g).contains(c) <==> picks.to_set().contains(c) by {
        if live_cells(g).contains(c) {
            assert(g.at(c.0 as int, c.1 as int) == CellState::Alive);
            let i = choose|i: int|
                0 <= i < picks.len() && (#[trigger] picks[i]).0 == c.0 && picks[i].1 == c.1;
            assert(picks[i] == c);
        }
        if picks.to_set().contains(c) {
            let i = choose|i: int| 0 <= i < picks.len() && picks[i] == c;
            assert(in_bounds(g.n() as int, picks[i].0 as int, picks[i].1 as int));
            assert(picks_cell(picks, c.0 as int, c.1 as int));
        }
    }
    assert(live_cells(g) =~= picks.to_set());
    picks.unique_seq_to_set();
}

/// Seeding with the same probability from the same draws gives the same board.
pub proof fn uniform_seeding_is_deterministic(a: &Grid, b: &Grid, p: Probability, draws: Seq<u64>)
    requires
        a.n() == b.n(),
        seeded_from_draws(a, p, draws),
        seeded_from_draws(b, p, draws),
    ensures
        same_cells(a, b),
{
    assert forall|x: int, y: int| in_bounds(a.n() as int, x, y) implies a.at(x, y) == b.at(x, y) by {
        assert(a.at(x, y) == uniform_cell(p, draws[flat(a.n() as int, x, y)]));
        assert(b.at(x, y) == uniform_cell(p, draws[flat(b.n() as int, x, y)]));
    }
}

} // verus!
