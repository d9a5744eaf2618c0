use meno::clock::TickTimer;
use meno::engine::{conway_rule, flipped, StepRule};
use meno::grid::{CellState, Grid, GridError};
use meno::seed::{Probability, SeedStrategy};
use rand::rngs::StdRng;
use rand::SeedableRng;

fn board(n: usize, alive: &[(i64, i64)]) -> Grid {
    let mut g = Grid::new(n);
    g.seed_pattern(&alive.to_vec()).unwrap();
    g
}

fn live(g: &Grid) -> Vec<(i64, i64)> {
    let n = g.size() as i64;
    let mut out = Vec::new();
    for x in 0..n {
        for y in 0..n {
            if g.get(x, y).unwrap() == CellState::Alive {
                out.push((x, y));
            }
        }
    }
    out
}

fn cells(g: &Grid) -> Vec<CellState> {
    let n = g.size() as i64;
    let mut out = Vec::new();
    for x in 0..n {
        for y in 0..n {
            out.push(g.get(x, y).unwrap());
        }
    }
    out
}

#[test]
fn new_grid_is_all_dead_and_unseeded() {
    let g = Grid::new(4);
    assert_eq!(g.size(), 4);
    assert_eq!(g.cell_count(), 16);
    assert!(!g.seeded());
    assert!(live(&g).is_empty());
}

#[test]
fn empty_board_has_no_cells() {
    let mut g = Grid::new(0);
    assert_eq!(g.get(0, 0), Err(GridError::OutOfBounds));
    g.seed_pattern(&vec![]).unwrap();
    assert_eq!(g.advance(StepRule::ConwayStep), Ok(()));
}

#[test]
fn out_of_bounds_access_fails() {
    let mut g = Grid::new(5);
    for &(x, y) in &[(-1, 0), (0, -1), (5, 0), (0, 5), (5, 5), (-1, -1), (i64::MAX, 0), (0, i64::MIN)] {
        assert_eq!(g.get(x, y), Err(GridError::OutOfBounds));
        assert_eq!(g.set(x, y, CellState::Alive), Err(GridError::OutOfBounds));
        assert_eq!(g.count_alive_neighbors(x, y), Err(GridError::OutOfBounds));
    }
    assert!(live(&g).is_empty());
    assert_eq!(g.get(4, 4), Ok(CellState::Dead));
}

#[test]
fn set_then_get() {
    let mut g = Grid::new(5);
    assert_eq!(g.set(3, 1, CellState::Alive), Ok(()));
    assert_eq!(g.get(3, 1), Ok(CellState::Alive));
    assert_eq!(g.get(1, 3), Ok(CellState::Dead));
    assert_eq!(live(&g), vec![(3, 1)]);
    assert_eq!(g.set(3, 1, CellState::Dead), Ok(()));
    assert!(live(&g).is_empty());
}

#[test]
fn lone_cell_has_no_neighbors() {
    let g = board(5, &[(2, 2)]);
    assert_eq!(g.count_alive_neighbors(2, 2), Ok(0));
}

#[test]
fn four_orthogonal_neighbors_are_counted() {
    let g = board(5, &[(1, 2), (3, 2), (2, 1), (2, 3)]);
    assert_eq!(g.count_alive_neighbors(2, 2), Ok(4));
}

#[test]
fn diagonal_neighbor_is_not_counted() {
    let g = board(5, &[(1, 1)]);
    assert_eq!(g.count_alive_neighbors(2, 2), Ok(0));
    let g = board(5, &[(1, 1), (3, 3), (1, 3), (3, 1)]);
    assert_eq!(g.count_alive_neighbors(2, 2), Ok(0));
}

#[test]
fn isolated_cell_dies() {
    let mut g = board(5, &[(2, 2)]);
    g.advance(StepRule::ConwayStep).unwrap();
    assert_eq!(g.get(2, 2), Ok(CellState::Dead));
    assert!(live(&g).is_empty());
}

#[test]
fn dead_cell_with_three_neighbors_is_born() {
    let mut g = board(5, &[(1, 2), (3, 2), (2, 1)]);
    assert_eq!(g.count_alive_neighbors(2, 2), Ok(3));
    g.advance(StepRule::ConwayStep).unwrap();
    assert_eq!(g.get(2, 2), Ok(CellState::Alive));
}

#[test]
fn block_is_still_life() {
    let block = [(2, 2), (2, 3), (3, 2), (3, 3)];
    let mut g = board(6, &block);
    for _ in 0..5 {
        g.advance(StepRule::ConwayStep).unwrap();
        assert_eq!(live(&g), block.to_vec());
    }
}

#[test]
fn corner_has_two_neighbors_at_most() {
    let g = board(4, &[(0, 0), (1, 0), (0, 1), (1, 1)]);
    assert_eq!(g.count_alive_neighbors(0, 0), Ok(2));
}

#[test]
fn lonely_corner_dies() {
    let mut g = board(4, &[(0, 0)]);
    g.advance(StepRule::ConwayStep).unwrap();
    assert_eq!(g.get(0, 0), Ok(CellState::Dead));
    let mut g = board(4, &[(0, 0), (1, 0)]);
    assert_eq!(g.count_alive_neighbors(0, 0), Ok(1));
    g.advance(StepRule::ConwayStep).unwrap();
    assert_eq!(g.get(0, 0), Ok(CellState::Dead));
}

#[test]
fn horizontal_bar_end_to_end() {
    let mut g = board(3, &[(1, 1), (0, 1), (2, 1)]);
    assert_eq!(g.count_alive_neighbors(1, 1), Ok(2));
    assert_eq!(g.count_alive_neighbors(0, 1), Ok(1));
    assert_eq!(g.count_alive_neighbors(1, 0), Ok(1));
    g.advance(StepRule::ConwayStep).unwrap();
    assert_eq!(live(&g), vec![(1, 1)]);
}

#[test]
fn advance_reads_the_previous_generation_only() {
    // Two live cells side by side: each has one neighbour, so both die
    // together; an in-place sweep would see the first death.
    let mut g = board(4, &[(1, 1), (1, 2)]);
    g.advance(StepRule::ConwayStep).unwrap();
    assert!(live(&g).is_empty());
    // A plus shape: the centre has four neighbours and dies; each arm has one
    // and dies; the four diagonal corners each touch two arms.
    let mut g = board(5, &[(2, 2), (1, 2), (3, 2), (2, 1), (2, 3)]);
    g.advance(StepRule::ConwayStep).unwrap();
    assert!(live(&g).is_empty());
}

#[test]
fn advance_before_seeding_fails() {
    let mut g = Grid::new(3);
    g.set(1, 1, CellState::Alive).unwrap();
    assert_eq!(g.advance(StepRule::ConwayStep), Err(GridError::PreconditionViolation));
    assert_eq!(g.advance(StepRule::BlinkAllStep), Err(GridError::PreconditionViolation));
    assert_eq!(live(&g), vec![(1, 1)]);
}

#[test]
fn blink_all_flips_every_cell() {
    let mut g = board(3, &[(0, 0), (2, 1)]);
    g.advance(StepRule::BlinkAllStep).unwrap();
    assert_eq!(live(&g).len(), 7);
    assert_eq!(g.get(0, 0), Ok(CellState::Dead));
    assert_eq!(g.get(1, 1), Ok(CellState::Alive));
}

#[test]
fn blink_all_twice_restores() {
    let mut rng = StdRng::seed_from_u64(7);
    let mut g = Grid::new(8);
    g.seed_uniform(Probability { num: 1, den: 2 }, &mut rng).unwrap();
    let before = cells(&g);
    g.advance(StepRule::BlinkAllStep).unwrap();
    assert_ne!(cells(&g), before);
    g.advance(StepRule::BlinkAllStep).unwrap();
    assert_eq!(cells(&g), before);
}

#[test]
fn seed_pattern_rejects_off_board_cells() {
    let mut g = Grid::new(3);
    g.set(0, 0, CellState::Alive).unwrap();
    assert_eq!(g.seed_pattern(&vec![(1, 1), (3, 0)]), Err(GridError::OutOfBounds));
    assert_eq!(live(&g), vec![(0, 0)]);
    assert!(!g.seeded());
}

#[test]
fn seed_pattern_clears_other_cells() {
    let mut g = Grid::new(3);
    g.set(0, 0, CellState::Alive).unwrap();
    g.seed_pattern(&vec![(2, 2), (2, 2)]).unwrap();
    assert_eq!(live(&g), vec![(2, 2)]);
    assert!(g.seeded());
}

#[test]
fn rule_functions() {
    assert_eq!(conway_rule(CellState::Alive, 0), CellState::Dead);
    assert_eq!(conway_rule(CellState::Alive, 1), CellState::Dead);
    assert_eq!(conway_rule(CellState::Alive, 2), CellState::Alive);
    assert_eq!(conway_rule(CellState::Alive, 3), CellState::Alive);
    assert_eq!(conway_rule(CellState::Alive, 4), CellState::Dead);
    assert_eq!(conway_rule(CellState::Dead, 2), CellState::Dead);
    assert_eq!(conway_rule(CellState::Dead, 3), CellState::Alive);
    assert_eq!(conway_rule(CellState::Dead, 4), CellState::Dead);
    assert_eq!(flipped(CellState::Alive), CellState::Dead);
    assert_eq!(flipped(CellState::Dead), CellState::Alive);
}

#[test]
fn sparse_placement_picks_distinct_cells() {
    let mut rng = StdRng::seed_from_u64(1);
    let mut g = Grid::new(6);
    let picks = g.seed_sparse(10, &mut rng).unwrap();
    assert_eq!(picks.len(), 10);
    let mut sorted = picks.clone();
    sorted.sort();
    sorted.dedup();
    assert_eq!(sorted.len(), 10);
    let alive: Vec<(i64, i64)> = sorted.iter().map(|&(x, y)| (x as i64, y as i64)).collect();
    assert_eq!(live(&g), alive);
    assert!(g.seeded());
}

#[test]
fn sparse_placement_can_fill_the_board() {
    let mut rng = StdRng::seed_from_u64(2);
    let mut g = Grid::new(4);
    let picks = g.seed_sparse(16, &mut rng).unwrap();
    assert_eq!(picks.len(), 16);
    assert_eq!(live(&g).len(), 16);
    let mut g = Grid::new(4);
    assert_eq!(g.seed_sparse(0, &mut rng), Ok(vec![]));
    assert!(live(&g).is_empty());
}

#[test]
fn sparse_placement_rejects_too_many() {
    let mut rng = StdRng::seed_from_u64(3);
    let mut g = Grid::new(3);
    assert_eq!(g.seed_sparse(10, &mut rng), Err(GridError::InvalidSeedParameter));
    assert!(!g.seeded());
    assert_eq!(
        g.seed(SeedStrategy::SparseUniquePlacement(10), &mut rng),
        Err(GridError::InvalidSeedParameter)
    );
    assert_eq!(
        g.seed_sparse_from_draws(10, &vec![0; 10]),
        Err(GridError::InvalidSeedParameter)
    );
}

#[test]
fn sparse_placement_from_draws_is_a_partial_shuffle() {
    // Row order on a 2 by 2 board: (0,0) (0,1) (1,0) (1,1).
    let mut g = Grid::new(2);
    // Step 0 trades entry 0 with entry 0 + 3 mod 4, giving (1,1) (0,1) (1,0)
    // (0,0); step 1 trades entry 1 with entry 1 + 5 mod 3, that is entry 3.
    let picks = g.seed_sparse_from_draws(2, &vec![3, 5]).unwrap();
    assert_eq!(picks, vec![(1, 1), (0, 0)]);
    assert_eq!(live(&g), vec![(0, 0), (1, 1)]);
    let mut g = Grid::new(2);
    let picks = g.seed_sparse_from_draws(3, &vec![0, 0, 0]).unwrap();
    assert_eq!(picks, vec![(0, 0), (0, 1), (1, 0)]);
}

#[test]
fn uniform_seeding_with_same_source_is_repeatable() {
    let p = Probability { num: 1, den: 2 };
    let mut a = Grid::new(16);
    let mut b = Grid::new(16);
    a.seed_uniform(p, &mut StdRng::seed_from_u64(42)).unwrap();
    b.seed_uniform(p, &mut StdRng::seed_from_u64(42)).unwrap();
    assert_eq!(cells(&a), cells(&b));
    let n = live(&a).len();
    assert!(n > 0 && n < 256);
}

#[test]
fn uniform_seeding_from_draws() {
    let mut g = Grid::new(2);
    let p = Probability { num: 1, den: 4 };
    g.seed_uniform_from_draws(p, &vec![0, 3, 2, 9]).unwrap();
    assert_eq!(live(&g), vec![(0, 1), (1, 1)]);
    assert!(g.seeded());
    let mut h = Grid::new(2);
    h.seed_uniform_from_draws(p, &vec![0, 3, 2, 9]).unwrap();
    assert_eq!(cells(&g), cells(&h));
}

#[test]
fn uniform_seeding_extremes() {
    let mut rng = StdRng::seed_from_u64(5);
    let mut g = Grid::new(5);
    g.seed_uniform(Probability { num: 0, den: 3 }, &mut rng).unwrap();
    assert!(live(&g).is_empty());
    g.seed_uniform(Probability { num: 3, den: 3 }, &mut rng).unwrap();
    assert_eq!(live(&g).len(), 25);
    g.seed(SeedStrategy::UniformRandom(Probability { num: 0, den: 1 }), &mut rng).unwrap();
    assert!(live(&g).is_empty());
}

#[test]
fn uniform_seeding_rejects_bad_probability() {
    let mut rng = StdRng::seed_from_u64(6);
    let mut g = Grid::new(3);
    assert_eq!(
        g.seed_uniform(Probability { num: 3, den: 2 }, &mut rng),
        Err(GridError::InvalidSeedParameter)
    );
    assert_eq!(
        g.seed_uniform(Probability { num: 0, den: 0 }, &mut rng),
        Err(GridError::InvalidSeedParameter)
    );
    assert_eq!(
        g.seed(SeedStrategy::UniformRandom(Probability { num: 2, den: 1 }), &mut rng),
        Err(GridError::InvalidSeedParameter)
    );
    assert!(!g.seeded());
    assert!(Probability { num: 1, den: 2 }.is_valid());
    assert!(!Probability { num: 1, den: 0 }.is_valid());
}

#[test]
fn seed_strategy_sparse() {
    let mut rng = StdRng::seed_from_u64(8);
    let mut g = Grid::new(5);
    assert_eq!(g.seed(SeedStrategy::SparseUniquePlacement(7), &mut rng), Ok(()));
    assert_eq!(live(&g).len(), 7);
}

#[test]
fn timer_fires_once_per_interval_and_carries_surplus() {
    assert!(TickTimer::new(0).is_none());
    let mut t = TickTimer::new(1000).unwrap();
    assert_eq!(t.interval_nanos(), 1000);
    assert!(!t.tick(400));
    assert_eq!(t.elapsed_nanos(), 400);
    assert!(!t.tick(500));
    assert!(t.tick(300));
    assert_eq!(t.elapsed_nanos(), 200);
    // Two and a half intervals at once: one generation now, one on the next
    // tick, none skipped.
    assert!(t.tick(2300));
    assert_eq!(t.elapsed_nanos(), 1500);
    assert!(t.tick(0));
    assert_eq!(t.elapsed_nanos(), 500);
    assert!(!t.tick(0));
}

#[test]
fn timer_saturates() {
    let mut t = TickTimer::new(u64::MAX).unwrap();
    assert!(!t.tick(u64::MAX - 1));
    assert!(t.tick(5));
    assert_eq!(t.elapsed_nanos(), 0);
}
