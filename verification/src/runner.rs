//! Tournament tallies and the evolutionary trainer's decision rules.
//!
//! Full games are driven from outside the library (a policy chooses the
//! bot's moves); this module holds everything about them that is pure
//! decision logic: seeding a benchmark game, tallying outcomes from the
//! bot's (Red's) perspective, mapping a head-to-head result to a verdict,
//! the feature vector a policy scores a board through, and the gates by
//! which the trainer screens, benchmarks and accepts a mutant policy.

use vstd::prelude::*;

use crate::grid::{
    count_of, has_yellow, lemma_index_decomposition, lemma_play_preserves_counts,
    lemma_step_to_moves, play_transition, play_valid, step_ok, step_to, stone_count, CaseValue,
    Direction, Grid, GridProvider, GridView, PlayResult, VecProvider,
};

verus! {

/// Win/loss/draw tallies of a benchmark series, from the bot's (Red's)
/// perspective.
#[derive(Debug, PartialEq, Eq, Structural)]
pub struct CompareResult {
    pub win: usize,
    pub loose: usize,
    pub none: usize,
}

impl Default for CompareResult {
    fn default() -> (r: Self)
        ensures
            r.win == 0 && r.loose == 0 && r.none == 0,
    {
        CompareResult { win: 0, loose: 0, none: 0 }
    }
}

impl CompareResult {
    /// The fitness a series reduces to: wins minus losses, exactly.
    pub fn score(&self) -> (r: isize)
        requires
            self.win <= isize::MAX,
            self.loose <= isize::MAX,
        ensures
            r == self.win - self.loose,
    {
        self.win as isize - self.loose as isize
    }

    /// Tally one play result; report whether it ended the game.
    pub fn record(&mut self, r: PlayResult) -> (done: bool)
        requires
            old(self).win < usize::MAX,
            old(self).loose < usize::MAX,
            old(self).none < usize::MAX,
        ensures
            final(self).win == old(self).win + (if r is RedWin {
                1int
            } else {
                0int
            }),
            final(self).loose == old(self).loose + (if r is BlueWin {
                1int
            } else {
                0int
            }),
            final(self).none == old(self).none + (if r is NobodyWin {
                1int
            } else {
                0int
            }),
            done == (r is RedWin || r is BlueWin || r is NobodyWin),
    {
        match r {
            PlayResult::RedWin => {
                self.win += 1;
                true
            },
            PlayResult::BlueWin => {
                self.loose += 1;
                true
            },
            PlayResult::NobodyWin => {
                self.none += 1;
                true
            },
            _ => false,
        }
    }
}

/// A successful play on a fresh, fully playable board (at least two columns
/// wide) always continues the game and leaves at least one playable cell.
proof fn lemma_play_on_fresh_board(g: GridView, g2: GridView, i: int, r: PlayResult)
    requires
        g.wf(),
        g.width >= 2,
        g.everything_yellow,
        forall|j: int| 0 <= j < g.cells.len() ==> g.cells[j] is Yellow,
        play_valid(g, i),
        play_transition(g, g2, i, r),
    ensures
        r == PlayResult::Played,
        has_yellow(g2.cells),
{
    let w = g.width as int;
    let h = g.height as int;
    let mid = crate::grid::after_place(g, i);
    let color = g.mover_color();
    assert(w * h == g.cells.len());
    lemma_index_decomposition(i, w, h);
    let x = i % w;
    let y = i / w;
    // Pre-play spread turns the whole board `White`; only the new stone
    // differs.
    assert(forall|j: int| 0 <= j < g.cells.len() && j != i ==> mid.cells[j] is White);
    // No neighbouring stone exists, so no win can fire.
    assert(!crate::grid::wins_at(mid.cells, i, w, h, color)) by {
        if crate::grid::wins_at(mid.cells, i, w, h, color) {
            let d = choose|d: Direction|
                #[trigger] crate::grid::three_in_dir(mid.cells, i, w, h, color, d);
            lemma_step_to_moves(i, w, h, d);
            assert(mid.cells[step_to(i, w, d)] is White);
        }
    }
    // Some direction is valid (west of, or east of, the new stone), and its
    // cell is `White`.
    let d0 = if x >= 1 {
        Direction::West
    } else {
        Direction::East
    };
    assert(step_ok(i, w, h, d0));
    lemma_step_to_moves(i, w, h, d0);
    assert(mid.cells[step_to(i, w, d0)] is White);
    assert(crate::grid::has_white_neighbor(mid.cells, i, w, h));
    // Hence the play continued and the revealed neighbour is playable.
    let j0 = step_to(i, w, d0);
    assert(crate::grid::is_neighbor(i, j0, w, h));
    assert(g2.cells[j0] is Yellow);
}

/// A fully playable `w`-by-`h` board on which nobody has moved yet.
pub open spec fn fresh_board(g: GridView, w: nat, h: nat) -> bool {
    &&& g.wf()
    &&& g.width == w
    &&& g.height == h
    &&& g.red_turn
    &&& g.everything_yellow
    &&& g.last_play is None
    &&& forall|i: int| 0 <= i < g.cells.len() ==> g.cells[i] is Yellow
}

/// `g2` is reachable from a fresh 5-by-6 board by exactly two valid plays.
pub open spec fn benchmark_opening(g2: GridView) -> bool {
    exists|g0: GridView, g1: GridView, i1: int, i2: int, r1: PlayResult, r2: PlayResult|
        {
            &&& fresh_board(g0, 5, 6)
            &&& play_valid(g0, i1)
            &&& #[trigger] play_transition(g0, g1, i1, r1)
            &&& play_valid(g1, i2)
            &&& #[trigger] play_transition(g1, g2, i2, r2)
        }
}

/// A fresh 5-by-6 board, opened with two uniformly random plays, ready for
/// a benchmark game: the board is two valid plays away from a fresh one, so
/// exactly two stones stand, no obstacle exists, and red is to move again.
pub fn start_benchmark_game() -> (g: Grid<VecProvider>)
    ensures
        g@.wf(),
        g@.width == 5,
        g@.height == 6,
        benchmark_opening(g@),
        stone_count(g@.cells) == 2,
        count_of(g@.cells, CaseValue::Black) == 0,
        g@.red_turn,
{
    let mut g = Grid::new(VecProvider::new(5, 6));
    let ghost g0 = g@;
    proof {
        assert(g0.cells[0] is Yellow);
        lemma_count_absent(g0.cells, CaseValue::Red);
        lemma_count_absent(g0.cells, CaseValue::Blue);
        lemma_count_absent(g0.cells, CaseValue::Black);
    }
    let r1 = g.random_play();
    let ghost g1 = g@;
    proof {
        let i1 = choose|i: int| play_valid(g0, i) && #[trigger] play_transition(g0, g1, i, r1);
        lemma_play_on_fresh_board(g0, g1, i1, r1);
        lemma_play_preserves_counts(g0, g1, i1, r1);
    }
    let r2 = g.random_play();
    proof {
        let i1 = choose|i: int| play_valid(g0, i) && #[trigger] play_transition(g0, g1, i, r1);
        let i2 = choose|i: int| play_valid(g1, i) && #[trigger] play_transition(g1, g@, i, r2);
        lemma_play_preserves_counts(g1, g@, i2, r2);
        assert(fresh_board(g0, 5, 6));
        assert(play_valid(g0, i1) && play_transition(g0, g1, i1, r1) && play_valid(g1, i2)
            && play_transition(g1, g@, i2, r2));
    }
    g
}

/// No cell holds `v`, so its count is zero.
pub proof fn lemma_count_absent(c: Seq<CaseValue>, v: CaseValue)
    requires
        forall|i: int| 0 <= i < c.len() ==> c[i] != v,
    ensures
        count_of(c, v) == 0,
    decreases c.len(),
{
    if c.len() > 0 {
        assert forall|i: int| 0 <= i < c.drop_last().len() implies c.drop_last()[i] != v by {
            assert(c.drop_last()[i] == c[i]);
        }
        lemma_count_absent(c.drop_last(), v);
    }
}

/// The number a policy reads for one cell, doubled so that the midpoint
/// value of non-stone cells stays integral: an own stone reads 2, an
/// opponent stone 0, anything else 1.
pub open spec fn feature_of(v: CaseValue, color: CaseValue) -> u8 {
    match v {
        CaseValue::Red => if color is Red {
            2
        } else {
            0
        },
        CaseValue::Blue => if color is Red {
            0
        } else {
            2
        },
        _ => 1,
    }
}

/// The feature vector a policy scores `grid` through when choosing for
/// `color`: one doubled feature per cell, in row-major order.
pub fn feature_vector<T: GridProvider + Clone>(grid: &Grid<T>, color: CaseValue) -> (v: Vec<u8>)
    requires
        grid@.wf(),
        color is Red || color is Blue,
    ensures
        v@.len() == grid@.cells.len(),
        forall|i: int| 0 <= i < v@.len() ==> v@[i] == feature_of(grid@.cells[i], color),
{
    let w = grid.width();
    let h = grid.height();
    let n = w * h;
    let mut v: Vec<u8> = Vec::new();
    let mut i: usize = 0;
    while i < n
        invariant
            grid@.wf(),
            i <= n,
            n == grid@.cells.len(),
            color is Red || color is Blue,
            v@.len() == i,
            forall|k: int| 0 <= k < i ==> v@[k] == feature_of(grid@.cells[k], color),
        decreases n - i,
    {
        let cell = grid.cell_at(i);
        let f: u8 = match cell {
            CaseValue::Red => if color == CaseValue::Red {
                2
            } else {
                0
            },
            CaseValue::Blue => if color == CaseValue::Red {
                0
            } else {
                2
            },
            _ => 1,
        };
        v.push(f);
        i += 1;
    }
    v
}

/// What one play result means for a head-to-head game, from Red's side:
/// `Some(-1)` when red has won, `Some(1)` when blue has, `Some(0)` on a
/// draw, `None` while the game continues.
pub open spec fn self_play_outcome_spec(r: PlayResult) -> Option<isize> {
    match r {
        PlayResult::RedWin => Some(-1 as isize),
        PlayResult::BlueWin => Some(1 as isize),
        PlayResult::NobodyWin => Some(0 as isize),
        _ => None,
    }
}

/// Exec mirror of [`self_play_outcome_spec`]; an `InvalidPosition` result
/// marks an unreachable state and is ruled out by the caller.
pub fn self_play_outcome(r: PlayResult) -> (o: Option<isize>)
    requires
        r != PlayResult::InvalidPosition,
    ensures
        o == self_play_outcome_spec(r),
{
    match r {
        PlayResult::RedWin => Some(-1),
        PlayResult::BlueWin => Some(1),
        PlayResult::NobodyWin => Some(0),
        _ => None,
    }
}

/// The trainer's verdict on one mutant after its head-to-head game and its
/// single-trial fitness proxy.
#[derive(Clone, Copy, Debug, PartialEq, Eq, Structural)]
pub enum MutantScreen {
    /// The head-to-head was ambiguous: discard the mutant and retry at once.
    Retry,
    /// The fitness proxy fell too far short of the champion: reject.
    Reject,
    /// The mutant is promising: run the full benchmark.
    RunFullBenchmark,
}

/// Screen a mutant: an ambiguous head-to-head (a draw) forces an immediate
/// retry; otherwise the mutant earns the full benchmark exactly when its
/// single-trial fitness comes within 40 points of the champion's.
pub fn screen_mutant(head_to_head: isize, trial_score: isize, champion_fitness: isize) -> (r:
    MutantScreen)
    requires
        champion_fitness >= isize::MIN + 40,
    ensures
        r is Retry <==> head_to_head == 0,
        r is RunFullBenchmark <==> head_to_head != 0 && trial_score > champion_fitness - 40,
        r is Reject <==> head_to_head != 0 && trial_score <= champion_fitness - 40,
{
    if head_to_head == 0 {
        MutantScreen::Retry
    } else if trial_score > champion_fitness - 40 {
        MutantScreen::RunFullBenchmark
    } else {
        MutantScreen::Reject
    }
}

/// Accept a mutant exactly when its full-benchmark fitness strictly exceeds
/// the champion's.
pub fn accept_mutant(benchmark_fitness: isize, champion_fitness: isize) -> (r: bool)
    ensures
        r == (benchmark_fitness > champion_fitness),
{
    benchmark_fitness > champion_fitness
}

/// The trainer's safety valve: a generation is abandoned once its screening
/// loop has run more than a million times without an acceptance.
pub fn generation_expired(iterations: u64) -> (r: bool)
    ensures
        r == (iterations > 1000000),
{
    iterations > 1000000
}

/// The sum of a series of fitness scores.
pub open spec fn fitness_sum(s: Seq<isize>) -> int
    decreases s.len(),
{
    if s.len() == 0 {
        0
    } else {
        fitness_sum(s.drop_last()) + s.last()
    }
}

/// Integer division truncated towards zero, as the fitness average uses it.
pub open spec fn trunc_div(a: int, b: int) -> int {
    if a >= 0 {
        a / b
    } else {
        -((-a) / b)
    }
}

/// Bounded scores make a bounded sum.
pub proof fn lemma_fitness_sum_bounds(s: Seq<isize>, bound: int)
    requires
        bound >= 0,
        forall|k: int| 0 <= k < s.len() ==> -bound <= #[trigger] s[k] <= bound,
    ensures
        -bound * s.len() <= fitness_sum(s) <= bound * s.len(),
    decreases s.len(),
{
    if s.len() > 0 {
        assert forall|k: int| 0 <= k < s.drop_last().len() implies -bound <= #[trigger] s.drop_last()[k]
            <= bound by {
            assert(s.drop_last()[k] == s[k]);
        }
        lemma_fitness_sum_bounds(s.drop_last(), bound);
        assert(-bound * s.len() == -bound * (s.len() - 1) + -bound) by (nonlinear_arith);
        assert(bound * s.len() == bound * (s.len() - 1) + bound) by (nonlinear_arith);
    }
}

/// The average fitness of a benchmark series, truncated towards zero.
/// Scores are each bounded by one game per trial, and series are far
/// shorter than a million entries.
pub fn average_fitness(scores: &Vec<isize>) -> (r: isize)
    requires
        scores@.len() >= 1,
        scores@.len() <= 1000000,
        forall|k: int| 0 <= k < scores@.len() ==> -1000 <= #[trigger] scores@[k] <= 1000,
    ensures
        r == trunc_div(fitness_sum(scores@), scores@.len() as int),
{
    let mut sum: isize = 0;
    let mut i: usize = 0;
    while i < scores.len()
        invariant
            i <= scores@.len(),
            scores@.len() <= 1000000,
            forall|k: int| 0 <= k < scores@.len() ==> -1000 <= #[trigger] scores@[k] <= 1000,
            sum == fitness_sum(scores@.subrange(0, i as int)),
            -1000 * i <= sum <= 1000 * i,
        decreases scores@.len() - i,
    {
        proof {
            assert(scores@.subrange(0, i as int + 1).drop_last() =~= scores@.subrange(0, i as int));
            assert(scores@.subrange(0, i as int + 1).last() == scores@[i as int]);
            assert(-1000 * (i + 1) == -1000 * i as int + -1000) by (nonlinear_arith);
            assert(1000 * (i + 1) == 1000 * i as int + 1000) by (nonlinear_arith);
        }
        sum = sum + scores[i];
        i += 1;
    }
    proof {
        assert(scores@.subrange(0, scores@.len() as int) =~= scores@);
    }
    let n = scores.len();
    if sum >= 0 {
        ((sum as usize) / n) as isize
    } else {
        -(((-sum) as usize / n) as isize)
    }
}

/// The champion's recorded fitness after a run of generations, each of
/// which either accepted a mutant with the recorded benchmark fitness or
/// kept the champion unchanged.
pub open spec fn champion_after(f0: int, gens: Seq<(bool, int)>) -> int
    decreases gens.len(),
{
    if gens.len() == 0 {
        f0
    } else {
        if gens.last().0 {
            gens.last().1
        } else {
            champion_after(f0, gens.drop_last())
        }
    }
}

/// Law: under the acceptance rule — a mutant is accepted only when its
/// benchmark fitness strictly exceeds the current champion's — the
/// champion's recorded fitness never falls below where it started, over any
/// run of generations.
pub proof fn lemma_acceptance_never_regresses(f0: int, gens: Seq<(bool, int)>)
    requires
        forall|k: int|
            0 <= k < gens.len() && (#[trigger] gens[k]).0 ==> gens[k].1 > champion_after(
                f0,
                gens.take(k),
            ),
    ensures
        champion_after(f0, gens) >= f0,
    decreases gens.len(),
{
    if gens.len() > 0 {
        let prefix = gens.drop_last();
        assert forall|k: int|
            0 <= k < prefix.len() && (#[trigger] prefix[k]).0 implies prefix[k].1 > champion_after(
            f0,
            prefix.take(k),
        ) by {
            assert(prefix[k] == gens[k]);
            assert(prefix.take(k) =~= gens.take(k));
        }
        lemma_acceptance_never_regresses(f0, prefix);
        if gens.last().0 {
            assert(gens.take(gens.len() - 1) =~= prefix);
            assert(gens.last().1 > champion_after(f0, prefix));
        }
    }
}

} // verus!
