//! Putting an initial distribution of live cells on the board.
use vstd::prelude::*;
use rand::Rng;
use rand::rngs::StdRng;
use crate::grid::{
    CellState, Grid, GridError, dead_cells, flat, in_bounds, lemma_flat_in_range, lemma_flat_ordered,
};

verus! {

#[verifier::external_type_specification]
#[verifier::external_body]
pub struct ExStdRng(StdRng);

/// Relies on rand::Rng::gen_range: on the half-open range `0..bound`, which
/// must not be empty, it returns a value of that range.
#[verifier::external_body]
fn draw_below(rng: &mut StdRng, bound: u64) -> (r: u64)
    requires
        bound > 0,
    ensures
        r < bound,
{
    rng.gen_range(0..bound)
}

/// A probability `num / den`.
#[derive(Clone, Copy, Debug, PartialEq, Eq, Structural)]
pub struct Probability {
    pub num: u64,
    pub den: u64,
}

impl Probability {
    /// A probability lies in `[0, 1]` and has a nonzero denominator.
    pub open spec fn valid(self) -> bool {
        self.den > 0 && self.num <= self.den
    }

    /// Whether this is a probability in `[0, 1]`.
    pub fn is_valid(self) -> (r: bool)
        ensures
            r == self.valid(),
    {
        self.den > 0 && self.num <= self.den
    }
}

/// How the initial distribution of live cells is chosen.
#[derive(Clone, Copy, Debug, PartialEq, Eq, Structural)]
pub enum SeedStrategy {
    /// Every cell independently Alive with the given probability.
    UniformRandom(Probability),
    /// Exactly this many distinct cells Alive, chosen at random.
    SparseUniquePlacement(usize),
}

/// Whether `s` can be applied to a board of side `n`.
pub open spec fn strategy_fits(s: SeedStrategy, n: nat) -> bool {
    match s {
        SeedStrategy::UniformRandom(p) => p.valid(),
        SeedStrategy::SparseUniquePlacement(k) => k <= n * n,
    }
}

/// A cell drawn `d` out of `[0, den)` is Alive when the draw lands in the top
/// `num` values, that is when `d / den` exceeds `1 - p` on the grid of steps
/// `1 / den`; a draw outside the range counts as the top of it.
pub open spec fn uniform_cell(p: Probability, d: u64) -> CellState {
    if d + p.num >= p.den {
        CellState::Alive
    } else {
        CellState::Dead
    }
}

/// Every cell of `g` is the outcome of its own draw in `draws`, taken row by row.
pub open spec fn seeded_from_draws(g: &Grid, p: Probability, draws: Seq<u64>) -> bool {
    forall|x: int, y: int|
        in_bounds(g.n() as int, x, y) ==> #[trigger] g.at(x, y) == uniform_cell(
            p,
            draws[flat(g.n() as int, x, y)],
        )
}

/// `s` lists the cells of a board of side `n` row by row.
pub open spec fn is_row_order(s: Seq<(usize, usize)>, n: int) -> bool {
    &&& s.len() == n * n
    &&& forall|x: int, y: int|
        in_bounds(n, x, y) ==> #[trigger] s[flat(n, x, y)] == (x as usize, y as usize)
}

/// One step of the partial shuffle: position `i` trades places with position
/// `i + d mod (len - i)`.
pub open spec fn swap_with_draw<T>(s: Seq<T>, i: int, d: u64) -> Seq<T> {
    let j = i + (d as int) % (s.len() - i);
    s.update(i, s[j]).update(j, s[i])
}

/// `s` after the first `t` steps of the partial shuffle driven by `draws`.
pub open spec fn shuffled<T>(s: Seq<T>, draws: Seq<u64>, t: nat) -> Seq<T>
    decreases t,
{
    if t == 0 {
        s
    } else {
        swap_with_draw(shuffled(s, draws, (t - 1) as nat), t - 1, draws[t - 1])
    }
}

/// Cell `(x, y)` is among `picks`.
pub open spec fn picks_cell(picks: Seq<(usize, usize)>, x: int, y: int) -> bool {
    exists|i: int| 0 <= i < picks.len() && (#[trigger] picks[i]).0 == x && picks[i].1 == y
}

/// The live cells of `g` are exactly those among `picks`.
pub open spec fn alive_exactly_at(g: &Grid, picks: Seq<(usize, usize)>) -> bool {
    forall|x: int, y: int|
        in_bounds(g.n() as int, x, y) ==> #[trigger] g.at(x, y) == if picks_cell(picks, x, y) {
            CellState::Alive
        } else {
            CellState::Dead
        }
}

/// Every entry of `picks` is a cell of a board of side `n`.
pub open spec fn picks_on_board(picks: Seq<(usize, usize)>, n: int) -> bool {
    forall|i: int| 0 <= i < picks.len() ==> in_bounds(n, #[trigger] picks[i].0 as int, picks[i].1 as int)
}

/// Cell `(x, y)` is among `cells`.
pub open spec fn lists_cell(cells: Seq<(i64, i64)>, x: int, y: int) -> bool {
    exists|i: int| 0 <= i < cells.len() && (#[trigger] cells[i]).0 == x && cells[i].1 == y
}

/// Every entry of `cells` is a cell of a board of side `n`.
pub open spec fn all_on_board(cells: Seq<(i64, i64)>, n: int) -> bool {
    forall|i: int| 0 <= i < cells.len() ==> in_bounds(n, #[trigger] cells[i].0 as int, cells[i].1 as int)
}

/// Trading the entries at `i` and `j` keeps the entries of a sequence distinct.
proof fn lemma_swap_keeps_distinct<T>(s: Seq<T>, i: int, j: int)
    requires
        s.no_duplicates(),
        0 <= i < s.len(),
        0 <= j < s.len(),
    ensures
        s.update(i, s[j]).update(j, s[i]).no_duplicates(),
        forall|p: int|
            0 <= p < s.len() ==> {
                let r = #[trigger] s.update(i, s[j]).update(j, s[i])[p];
                r == s[p] || r == s[i] || r == s[j]
            },
{
    let r = s.update(i, s[j]).update(j, s[i]);
    assert forall|p: int, q: int| 0 <= p < r.len() && 0 <= q < r.len() && p != q implies r[p]
        != r[q] by {
        let sp = if p == j { i } else if p == i { j } else { p };
        let sq = if q == j { i } else if q == i { j } else { q };
        assert(r[p] == s[sp]);
        assert(r[q] == s[sq]);
    }
}

impl Grid {
    /// Seeds every cell from its own draw (row by row in `draws`) with
    /// probability `p` of being Alive. Fails with `InvalidSeedParameter`, before
    /// any change, when `p` is not a probability.
    pub fn seed_uniform_from_draws(&mut self, p: Probability, draws: &Vec<u64>) -> (r: Result<
        (),
        GridError,
    >)
        requires
            old(self).wf(),
            draws@.len() == old(self).n() * old(self).n(),
        ensures
            final(self).wf(),
            final(self).n() == old(self).n(),
            r.is_ok() <==> p.valid(),
            r matches Err(e) ==> e == GridError::InvalidSeedParameter && *final(self) == *old(
                self,
            ),
            r is Ok ==> final(self).is_seeded() && seeded_from_draws(final(self), p, draws@),
    {
        if !p.is_valid() {
            return Err(GridError::InvalidSeedParameter);
        }
        let n = self.size();
        let total = draws.len();
        let threshold = p.den - p.num;
        let mut cells: Vec<CellState> = Vec::new();
        let mut i: usize = 0;
        while i < total
            invariant
                total == draws@.len(),
                i <= total,
                threshold == p.den - p.num,
                cells@.len() == i,
                forall|j: int| 0 <= j < i ==> cells@[j] == uniform_cell(p, draws@[j]),
            decreases total - i,
        {
            let s = if draws[i] >= threshold {
                CellState::Alive
            } else {
                CellState::Dead
            };
            cells.push(s);
            i = i + 1;
        }
        self.commit(cells);
        self.mark_seeded();
        proof {
            assert forall|x: int, y: int| in_bounds(self.n() as int, x, y) implies #[trigger] self.at(
                x,
                y,
            ) == uniform_cell(p, draws@[flat(self.n() as int, x, y)]) by {
                lemma_flat_in_range(n as int, x, y);
            }
        }
        Ok(())
    }

    /// Seeds every cell independently, Alive with probability `p`, drawing
    /// from `rng`. Fails with `InvalidSeedParameter`, before any draw or
    /// change, when `p` is not a probability.
    pub fn seed_uniform(&mut self, p: Probability, rng: &mut StdRng) -> (r: Result<(), GridError>)
        requires
            old(self).wf(),
        ensures
            final(self).wf(),
            final(self).n() == old(self).n(),
            r.is_ok() <==> p.valid(),
            r matches Err(e) ==> e == GridError::InvalidSeedParameter && *final(self) == *old(
                self,
            ),
            r is Ok ==> final(self).is_seeded(),
            r is Ok ==> exists|draws: Seq<u64>|
                #![trigger seeded_from_draws(final(self), p, draws)]
                draws.len() == old(self).n() * old(self).n() && (forall|j: int|
                    0 <= j < draws.len() ==> draws[j] < p.den) && seeded_from_draws(
                    final(self),
                    p,
                    draws,
                ),
            r is Ok && p.num == 0 ==> forall|x: int, y: int|
                in_bounds(final(self).n() as int, x, y) ==> #[trigger] final(self).at(x, y)
                    == CellState::Dead,
            r is Ok && p.num == p.den ==> forall|x: int, y: int|
                in_bounds(final(self).n() as int, x, y) ==> #[trigger] final(self).at(x, y)
                    == CellState::Alive,
    {
        if !p.is_valid() {
            return Err(GridError::InvalidSeedParameter);
        }
        let n = self.size();
        let total = self.cell_count();
        let mut draws: Vec<u64> = Vec::new();
        let mut i: usize = 0;
        while i < total
            invariant
                p.valid(),
                i <= total,
                draws@.len() == i,
                forall|j: int| 0 <= j < i ==> draws@[j] < p.den,
            decreases total - i,
        {
            let d = draw_below(rng, p.den);
            draws.push(d);
            i = i + 1;
        }
        let r = self.seed_uniform_from_draws(p, &draws);
        proof {
            assert forall|x: int, y: int| in_bounds(self.n() as int, x, y) implies draws@[flat(
                self.n() as int,
                x,
                y,
            )] < p.den by {
                lemma_flat_in_range(n as int, x, y);
            }
        }
        r
    }
    /// The cells of the board, row by row.
    fn cells_in_row_order(&self) -> (all: Vec<(usize, usize)>)
        requires
            self.wf(),
        ensures
            is_row_order(all@, self.n() as int),
            all@.no_duplicates(),
            picks_on_board(all@, self.n() as int),
    {
        let n = self.size();
        let ghost ni = n as int;
        let mut all: Vec<(usize, usize)> = Vec::new();
        let mut x: usize = 0;
        while x < n
            invariant
                ni == self.n(),
                n == ni,
                x <= n,
                all@.len() == x * ni,
                forall|a: int, b: int|
                    0 <= a < x && 0 <= b < ni ==> all@[flat(ni, a, b)] == (a as usize, b as usize),
                forall|i: int| 0 <= i < all@.len() ==> (#[trigger] all@[i]).0 < x && all@[i].1 < n,
                all@.no_duplicates(),
            decreases n - x,
        {
            let mut y: usize = 0;
            while y < n
                invariant
                    ni == self.n(),
                    n == ni,
                    x < n,
                    y <= n,
                    all@.len() == x * ni + y,
                    forall|a: int, b: int|
                        (0 <= a < x && 0 <= b < ni) || (a == x && 0 <= b < y) ==> all@[flat(ni, a, b)]
                            == (a as usize, b as usize),
                    forall|i: int|
                        0 <= i < all@.len() ==> ((#[trigger] all@[i]).0 < x || (all@[i].0 == x
                            && all@[i].1 < y)) && all@[i].1 < n,
                    all@.no_duplicates(),
                decreases n - y,
            {
                let ghost before = all@;
                all.push((x, y));
                proof {
                    assert forall|a: int, b: int|
                        (0 <= a < x && 0 <= b < ni) || (a == x && 0 <= b < y + 1) implies all@[flat(
                            ni,
                            a,
                            b,
                        )] == (a as usize, b as usize) by {
                        if a != x || b != y {
                            lemma_flat_ordered(ni, a, b, x as int, y as int);
                            assert(all@[flat(ni, a, b)] == before[flat(ni, a, b)]);
                        }
                    }
                    assert forall|p: int, q: int|
                        0 <= p < all@.len() && 0 <= q < all@.len() && p != q implies all@[p]
                        != all@[q] by {
                        if p < before.len() && q < before.len() {
                            assert(before[p] != before[q]);
                        }
                    }
                }
                y = y + 1;
            }
            assert(x * ni + ni == (x + 1) * ni) by (nonlinear_arith);
            x = x + 1;
        }
        all
    }

    /// Makes exactly `k` distinct cells Alive and all others Dead, and returns
    /// them. They are the first `k` cells of the board, listed row by row and
    /// shuffled by `draws`: step `t` trades the `t`-th entry with the one
    /// `draws[t] mod (n * n - t)` places further on. Fails with
    /// `InvalidSeedParameter`, before any change, when `k` exceeds the number of
    /// cells.
    pub fn seed_sparse_from_draws(&mut self, k: usize, draws: &Vec<u64>) -> (r: Result<
        Vec<(usize, usize)>,
        GridError,
    >)
        requires
            old(self).wf(),
            draws@.len() == k,
        ensures
            final(self).wf(),
            final(self).n() == old(self).n(),
            r.is_ok() <==> k <= old(self).n() * old(self).n(),
            r matches Err(e) ==> e == GridError::InvalidSeedParameter && *final(self) == *old(
                self,
            ),
            r matches Ok(picks) ==> {
                &&& final(self).is_seeded()
                &&& picks@.len() == k
                &&& picks@.no_duplicates()
                &&& picks_on_board(picks@, final(self).n() as int)
                &&& alive_exactly_at(final(self), picks@)
                &&& exists|s: Seq<(usize, usize)>|
                    #![trigger is_row_order(s, final(self).n() as int)]
                    is_row_order(s, final(self).n() as int) && picks@ == shuffled(
                        s,
                        draws@,
                        k as nat,
                    ).subrange(0, k as int)
            },
    {
        let total = self.cell_count();
        if k > total {
            return Err(GridError::InvalidSeedParameter);
        }
        let ghost n = self.n() as int;
        let mut all = self.cells_in_row_order();
        let ghost start = all@;
        let mut t: usize = 0;
        while t < k
            invariant
                k <= total,
                total == n * n,
                draws@.len() == k,
                t <= k,
                all@ == shuffled(start, draws@, t as nat),
                all@.len() == total,
                all@.no_duplicates(),
                picks_on_board(all@, n),
            decreases k - t,
        {
            let m = (total - t) as u64;
            let j = t + (draws[t] % m) as usize;
            let a = all[t];
            let b = all[j];
            proof {
                lemma_swap_keeps_distinct(all@, t as int, j as int);
            }
            all.set(t, b);
            all.set(j, a);
            t = t + 1;
        }
        self.commit(dead_cells(total));
        let mut picks: Vec<(usize, usize)> = Vec::new();
        proof {
            assert forall|x: int, y: int| in_bounds(n, x, y) implies #[trigger] self.at(x, y)
                == CellState::Dead by {
                lemma_flat_in_range(n, x, y);
            }
        }
        let mut t: usize = 0;
        while t < k
            invariant
                k <= total,
                all@.len() == total,
                all@.no_duplicates(),
                picks_on_board(all@, n),
                self.wf(),
                self.n() == n,
                t <= k,
                picks@ == all@.subrange(0, t as int),
                alive_exactly_at(self, picks@),
            decreases k - t,
        {
            let c = all[t];
            let ghost before = picks@;
            self.put(c.0, c.1, CellState::Alive);
            picks.push(c);
            proof {
                assert(picks@ == all@.subrange(0, t + 1));
                assert forall|x: int, y: int| in_bounds(n, x, y) implies #[trigger] self.at(x, y)
                    == if picks_cell(picks@, x, y) {
                    CellState::Alive
                } else {
                    CellState::Dead
                } by {
                    if x == c.0 && y == c.1 {
                        assert(picks@[t as int] == c);
                    } else {
                        if picks_cell(picks@, x, y) {
                            let i = choose|i: int|
                                0 <= i < picks@.len() && (#[trigger] picks@[i]).0 == x && picks@[i].1 == y;
                            assert(i != t);
                            assert(before[i] == picks@[i]);
                        }
                        if picks_cell(before, x, y) {
                            let i = choose|i: int|
                                0 <= i < before.len() && (#[trigger] before[i]).0 == x && before[i].1 == y;
                            assert(picks@[i] == before[i]);
                        }
                    }
                }
            }
            t = t + 1;
        }
        self.mark_seeded();
        proof {
            assert forall|i: int, j: int|
                0 <= i < picks@.len() && 0 <= j < picks@.len() && i != j implies picks@[i]
                != picks@[j] by {
                assert(picks@[i] == all@[i] && picks@[j] == all@[j]);
            }
            assert forall|i: int| 0 <= i < picks@.len() implies in_bounds(
                n,
                #[trigger] picks@[i].0 as int,
                picks@[i].1 as int,
            ) by {
                assert(picks@[i] == all@[i]);
            }
            assert(is_row_order(start, n));
        }
        Ok(picks)
    }
    /// Makes exactly `k` distinct cells, chosen at random from `rng`, Alive and
    /// all others Dead, and returns them. Fails with `InvalidSeedParameter`,
    /// before any draw or change, when `k` exceeds the number of cells.
    pub fn seed_sparse(&mut self, k: usize, rng: &mut StdRng) -> (r: Result<
        Vec<(usize, usize)>,
        GridError,
    >)
        requires
            old(self).wf(),
        ensures
            final(self).wf(),
            final(self).n() == old(self).n(),
            r.is_ok() <==> k <= old(self).n() * old(self).n(),
            r matches Err(e) ==> e == GridError::InvalidSeedParameter && *final(self) == *old(
                self,
            ),
            r matches Ok(picks) ==> {
                &&& final(self).is_seeded()
                &&& picks@.len() == k
                &&& picks@.no_duplicates()
                &&& picks_on_board(picks@, final(self).n() as int)
                &&& alive_exactly_at(final(self), picks@)
            },
    {
        let total = self.cell_count();
        if k > total {
            return Err(GridError::InvalidSeedParameter);
        }
        let mut draws: Vec<u64> = Vec::new();
        let mut t: usize = 0;
        while t < k
            invariant
                k <= total,
                t <= k,
                draws@.len() == t,
            decreases k - t,
        {
            let d = draw_below(rng, (total - t) as u64);
            draws.push(d);
            t = t + 1;
        }
        self.seed_sparse_from_draws(k, &draws)
    }

    /// Makes the listed cells Alive and all others Dead. Fails with
    /// `OutOfBounds`, before any change, when a listed cell is off the board.
    pub fn seed_pattern(&mut self, cells: &Vec<(i64, i64)>) -> (r: Result<(), GridError>)
        requires
            old(self).wf(),
        ensures
            final(self).wf(),
            final(self).n() == old(self).n(),
            r.is_ok() <==> all_on_board(cells@, old(self).n() as int),
            r matches Err(e) ==> e == GridError::OutOfBounds && *final(self) == *old(self),
            r is Ok ==> final(self).is_seeded(),
            r is Ok ==> forall|x: int, y: int|
                in_bounds(final(self).n() as int, x, y) ==> #[trigger] final(self).at(x, y) == if lists_cell(
                    cells@,
                    x,
                    y,
                ) {
                    CellState::Alive
                } else {
                    CellState::Dead
                },
    {
        let ghost n = self.n() as int;
        let mut i: usize = 0;
        while i < cells.len()
            invariant
                self.wf(),
                self.n() == n,
                i <= cells@.len(),
                all_on_board(cells@.subrange(0, i as int), n),
            decreases cells@.len() - i,
        {
            let (x, y) = cells[i];
            if self.locate(x, y).is_none() {
                proof {
                    assert(cells@[i as int] == (x, y));
                }
                return Err(GridError::OutOfBounds);
            }
            proof {
                let sub = cells@.subrange(0, i + 1);
                assert forall|j: int| 0 <= j < sub.len() implies in_bounds(
                    n,
                    #[trigger] sub[j].0 as int,
                    sub[j].1 as int,
                ) by {
                    if j < i {
                        assert(sub[j] == cells@.subrange(0, i as int)[j]);
                    }
                }
            }
            i = i + 1;
        }
        proof {
            assert(cells@.subrange(0, cells@.len() as int) == cells@);
        }
        let total = self.cell_count();
        self.commit(dead_cells(total));
        proof {
            assert forall|x: int, y: int| in_bounds(n, x, y) implies #[trigger] self.at(x, y)
                == CellState::Dead by {
                lemma_flat_in_range(n, x, y);
            }
        }
        let mut i: usize = 0;
        while i < cells.len()
            invariant
                self.wf(),
                self.n() == n,
                i <= cells@.len(),
                all_on_board(cells@, n),
                forall|x: int, y: int|
                    in_bounds(n, x, y) ==> #[trigger] self.at(x, y) == if lists_cell(
                        cells@.subrange(0, i as int),
                        x,
                        y,
                    ) {
                        CellState::Alive
                    } else {
                        CellState::Dead
                    },
            decreases cells@.len() - i,
        {
            let (x, y) = cells[i];
            let ghost before = cells@.subrange(0, i as int);
            let ghost after = cells@.subrange(0, i + 1);
            proof {
                assert(cells@[i as int] == (x, y));
                assert(in_bounds(n, cells@[i as int].0 as int, cells@[i as int].1 as int));
            }
            if let Some((xu, yu)) = self.locate(x, y) {
                self.put(xu, yu, CellState::Alive);
            }
            proof {
                assert forall|a: int, b: int| in_bounds(n, a, b) implies #[trigger] self.at(a, b)
                    == if lists_cell(after, a, b) {
                    CellState::Alive
                } else {
                    CellState::Dead
                } by {
                    if a == x && b == y {
                        assert(after[i as int] == (x, y));
                    } else {
                        if lists_cell(after, a, b) {
                            let j = choose|j: int|
                                0 <= j < after.len() && (#[trigger] after[j]).0 == a && after[j].1 == b;
                            assert(j != i);
                            assert(before[j] == after[j]);
                        }
                        if lists_cell(before, a, b) {
                            let j = choose|j: int|
                                0 <= j < before.len() && (#[trigger] before[j]).0 == a && before[j].1 == b;
                            assert(after[j] == before[j]);
                        }
                    }
                }
            }
            i = i + 1;
        }
        self.mark_seeded();
        proof {
            assert(cells@.subrange(0, cells@.len() as int) == cells@);
        }
        Ok(())
    }
    /// Seeds the board by `strategy`, drawing from `rng`. Fails with
    /// `InvalidSeedParameter`, before any draw or change, when the strategy's
    /// parameter is not acceptable for this board.
    pub fn seed(&mut self, strategy: SeedStrategy, rng: &mut StdRng) -> (r: Result<(), GridError>)
        requires
            old(self).wf(),
        ensures
            final(self).wf(),
            final(self).n() == old(self).n(),
            r.is_ok() <==> strategy_fits(strategy, old(self).n()),
            r matches Err(e) ==> e == GridError::InvalidSeedParameter && *final(self) == *old(
                self,
            ),
            r is Ok ==> final(self).is_seeded(),
            r is Ok ==> match strategy {
                SeedStrategy::UniformRandom(p) => exists|draws: Seq<u64>|
                    #![trigger seeded_from_draws(final(self), p, draws)]
                    draws.len() == old(self).n() * old(self).n() && seeded_from_draws(
                        final(self),
                        p,
                        draws,
                    ),
                SeedStrategy::SparseUniquePlacement(k) => exists|picks: Seq<(usize, usize)>|
                    #![trigger alive_exactly_at(final(self), picks)]
                    picks.len() == k && picks.no_duplicates() && picks_on_board(
                        picks,
                        final(self).n() as int,
                    ) && alive_exactly_at(final(self), picks),
            },
    {
        match strategy {
            SeedStrategy::UniformRandom(p) => self.seed_uniform(p, rng),
            SeedStrategy::SparseUniquePlacement(k) => match self.seed_sparse(k, rng) {
                Ok(picks) => {
                    proof {
                        assert(alive_exactly_at(self, picks@));
                    }
                    Ok(())
                },
                Err(e) => Err(e),
            },
        }
    }
}

} // verus!
