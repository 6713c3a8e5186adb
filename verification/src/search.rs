//! The depth-bounded lookahead search.
//!
//! `where_to_play` scores every playable cell with the heuristic evaluator
//! against the opponent's colour, keeps the three least desirable for the
//! opponent, and explores each retained candidate a bounded number of plies
//! deep, tallying descendant outcomes in a [`PathIssue`] accumulator.  The
//! candidate whose reduced tally is best is selected; this is deliberately
//! not exhaustive minimax — branching is capped and pruning is
//! heuristic-driven.

use vstd::prelude::*;

use crate::eval::{evaluate_spec, OUR_OUR_COLOR};
use crate::grid::{
    has_yellow, lemma_has_yellow_iff_some_index, lemma_yellows_upto_properties, play_next,
    play_result_of, yellow_indices, CaseValue, Grid, GridProvider, GridView, PlayResult,
};

verus! {

/// Per-candidate tally of descendant outcomes seen while exploring one
/// move's subtree.  Counters saturate instead of wrapping.
#[derive(Clone, Copy, Debug)]
pub struct PathIssue {
    pub win: u64,
    pub none: u64,
    pub lose: u64,
    pub nowin: u64,
}

impl PathIssue {
    /// The scalar a tally reduces to: a large base plus wins, heavily
    /// penalised by losses.
    pub open spec fn count_spec(self) -> int {
        (u64::MAX / 2) as int + self.win - 50 * self.lose
    }

    /// Exec mirror of [`PathIssue::count_spec`].
    pub fn count(&self) -> (r: i128)
        ensures
            r == self.count_spec(),
    {
        (u64::MAX / 2) as i128 + self.win as i128 - 50 * self.lose as i128
    }
}

/// Whether the candidates at `t - 1` and `t` are out of order.
fn cand_out_of_order(arr: &Vec<(usize, i64)>, t: usize) -> (r: bool)
    requires
        1 <= t < arr@.len(),
    ensures
        r == !cand_le(cand_key(arr@[t - 1]), cand_key(arr@[t as int])),
{
    let prev = arr[t - 1];
    let cur = arr[t];
    prev.1 > cur.1 || (prev.1 == cur.1 && prev.0 > cur.0)
}

/// Addition clipped at the largest value instead of wrapping.
pub open spec fn sat_add_spec(a: u64, b: u64) -> u64 {
    if a + b > u64::MAX {
        u64::MAX
    } else {
        (a + b) as u64
    }
}

/// Exec mirror of [`sat_add_spec`].
fn sat_add(a: u64, b: u64) -> (r: u64)
    ensures
        r == sat_add_spec(a, b),
{
    if a > u64::MAX - b {
        u64::MAX
    } else {
        a + b
    }
}

/// Two tallies merged counter by counter, each clipped.
pub open spec fn merge_tally(a: PathIssue, b: PathIssue) -> PathIssue {
    PathIssue {
        win: sat_add_spec(a.win, b.win),
        none: sat_add_spec(a.none, b.none),
        lose: sat_add_spec(a.lose, b.lose),
        nowin: sat_add_spec(a.nowin, b.nowin),
    }
}

/// Lexicographic order on (cell index, score) pairs, score first: the order
/// candidates are ranked in.
pub open spec fn cand_le(a: (int, int), b: (int, int)) -> bool {
    a.1 < b.1 || (a.1 == b.1 && a.0 <= b.0)
}

/// The mathematical key of a stored candidate pair.
pub open spec fn cand_key(p: (usize, i64)) -> (int, int) {
    (p.0 as int, p.1 as int)
}

/// `p` pairs a playable cell of `c` with its exact heuristic score for the
/// opponent of `color`.
pub open spec fn is_candidate(
    c: Seq<CaseValue>,
    w: int,
    h: int,
    color: CaseValue,
    p: (usize, i64),
) -> bool {
    &&& p.0 < c.len()
    &&& c[p.0 as int] is Yellow
    &&& p.1 == evaluate_spec(c, p.0 as int, w, h, color.other_color())
}

/// `v` is the candidate short-list for the mover of `color` on board `c`:
/// the (at most three) playable cells whose boards the opponent's evaluator
/// likes least, each paired with its exact score, sorted ascending by
/// (score, index), with distinct cells, and no dropped playable cell
/// ranking better than a kept one.
pub open spec fn ranked_candidates(
    c: Seq<CaseValue>,
    w: int,
    h: int,
    color: CaseValue,
    v: Seq<(usize, i64)>,
) -> bool {
    &&& v.len() == (if yellow_indices(c).len() < 3 {
        yellow_indices(c).len() as int
    } else {
        3
    })
    &&& forall|k: int| 0 <= k < v.len() ==> is_candidate(c, w, h, color, #[trigger] v[k])
    &&& forall|k1: int, k2: int|
        0 <= k1 < k2 < v.len() ==> cand_le(cand_key(#[trigger] v[k1]), cand_key(#[trigger] v[k2]))
    &&& forall|k1: int, k2: int| 0 <= k1 < k2 < v.len() ==> v[k1].0 != v[k2].0
    &&& forall|j: int|
        0 <= j < c.len() && c[j] is Yellow && (forall|k: int|
            0 <= k < v.len() ==> (#[trigger] v[k]).0 != j) ==> (forall|k: int|
            0 <= k < v.len() ==> cand_le(cand_key(#[trigger] v[k]), (
            j,
            evaluate_spec(c, j, w, h, color.other_color()),
            )))
}

/// If two lists both rank the candidates, the `m`-th member of the second
/// ranks no better than the `m`-th member of the first, once the lists
/// agree below `m`.
proof fn lemma_ranked_member_not_smaller(
    c: Seq<CaseValue>,
    w: int,
    h: int,
    color: CaseValue,
    v1: Seq<(usize, i64)>,
    v2: Seq<(usize, i64)>,
    m: int,
)
    requires
        ranked_candidates(c, w, h, color, v1),
        ranked_candidates(c, w, h, color, v2),
        0 <= m < v1.len(),
        forall|m2: int| 0 <= m2 < m ==> v1[m2] == v2[m2],
    ensures
        cand_le(cand_key(v2[m]), cand_key(v1[m])),
{
    let a = v1[m];
    let b = v2[m];
    if !cand_le(cand_key(b), cand_key(a)) {
        // Then a ranks strictly below b.  Either a's cell appears in v2 —
        // impossible before, at, or after position m — or it was dropped,
        // which contradicts v2's minimality.
        if exists|j: int| 0 <= j < v2.len() && (#[trigger] v2[j]).0 == a.0 {
            let j = choose|j: int| 0 <= j < v2.len() && (#[trigger] v2[j]).0 == a.0;
            assert(is_candidate(c, w, h, color, v2[j]));
            assert(is_candidate(c, w, h, color, a));
            assert(v2[j] == a);
            if j < m {
                assert(v1[j] == v2[j]);
                assert(v1[j].0 == v1[m].0);
                assert(false);
            } else if j == m {
                assert(false);
            } else {
                assert(cand_le(cand_key(v2[m]), cand_key(v2[j])));
                assert(false);
            }
        } else {
            assert(forall|k: int| 0 <= k < v2.len() ==> (#[trigger] v2[k]).0 != a.0);
            assert(is_candidate(c, w, h, color, a));
            assert(cand_le(cand_key(v2[m]), (
                a.0 as int,
                evaluate_spec(c, a.0 as int, w, h, color.other_color()),
            )));
            assert(false);
        }
    }
}

/// The candidate ranking is unique: any two lists satisfying
/// [`ranked_candidates`] are equal.
pub proof fn lemma_ranked_candidates_unique(
    c: Seq<CaseValue>,
    w: int,
    h: int,
    color: CaseValue,
    v1: Seq<(usize, i64)>,
    v2: Seq<(usize, i64)>,
)
    requires
        ranked_candidates(c, w, h, color, v1),
        ranked_candidates(c, w, h, color, v2),
    ensures
        v1 == v2,
{
    lemma_ranked_prefix_equal(c, w, h, color, v1, v2, v1.len() as int);
    assert(v1 =~= v2);
}

/// The first `m` members of any two candidate rankings agree.
proof fn lemma_ranked_prefix_equal(
    c: Seq<CaseValue>,
    w: int,
    h: int,
    color: CaseValue,
    v1: Seq<(usize, i64)>,
    v2: Seq<(usize, i64)>,
    m: int,
)
    requires
        ranked_candidates(c, w, h, color, v1),
        ranked_candidates(c, w, h, color, v2),
        0 <= m <= v1.len(),
    ensures
        forall|m2: int| 0 <= m2 < m ==> v1[m2] == v2[m2],
    decreases m,
{
    if m > 0 {
        lemma_ranked_prefix_equal(c, w, h, color, v1, v2, m - 1);
        lemma_ranked_member_not_smaller(c, w, h, color, v1, v2, m - 1);
        lemma_ranked_member_not_smaller(c, w, h, color, v2, v1, m - 1);
        assert(cand_key(v1[m - 1]) == cand_key(v2[m - 1]));
        assert(v1[m - 1] == v2[m - 1]);
    }
}

/// *The* candidate short-list for the mover of `color` on board `c` — the
/// one list [`ranked_candidates`] admits.
pub open spec fn candidates_spec(c: Seq<CaseValue>, w: int, h: int, color: CaseValue) -> Seq<
    (usize, i64),
> {
    choose|v: Seq<(usize, i64)>| ranked_candidates(c, w, h, color, v)
}

/// What the search, to `depth` plies, returns on board `g` for the mover
/// of `color`: the candidate with the highest reduced tally, ties keeping
/// the earliest candidate.
pub open spec fn simul_spec(g: GridView, color: CaseValue, depth: nat) -> Option<
    (usize, PathIssue),
>
    decreases depth, 3int, 0int,
{
    if depth == 0 {
        None
    } else {
        simul_select(
            g,
            color,
            depth,
            candidates_spec(g.cells, g.width as int, g.height as int, color).len() as int,
        )
    }
}

/// The selection after the first `n` candidates have been tallied.
pub open spec fn simul_select(g: GridView, color: CaseValue, depth: nat, n: int) -> Option<
    (usize, PathIssue),
>
    decreases depth, 2int, n,
{
    if n <= 0 || depth == 0 {
        None
    } else {
        let prev = simul_select(g, color, depth, n - 1);
        let cand = candidates_spec(g.cells, g.width as int, g.height as int, color)[n - 1];
        let issue = simul_tally(g, color, depth, cand.0, cand.1);
        match prev {
            None => Some((cand.0, issue)),
            Some(p) => if p.1.count_spec() < issue.count_spec() {
                Some((cand.0, issue))
            } else {
                prev
            },
        }
    }
}

/// The tally one candidate earns: its subtree is explored unless its
/// opponent score already meets the forced-win threshold, in which case it
/// is penalised by the squared depth outright.
pub open spec fn simul_tally(g: GridView, color: CaseValue, depth: nat, i: usize, s: i64)
    -> PathIssue
    decreases depth, 1int, 0int,
{
    if s < OUR_OUR_COLOR {
        let g1 = play_next(g, i as int);
        simul_replies(g1, color, depth, yellow_indices(g1.cells).len() as int)
    } else {
        PathIssue { win: 0, none: 0, lose: (depth * depth) as u64, nowin: 0 }
    }
}

/// The tally merged over the first `n` replies to a candidate: each reply
/// is played, its terminal outcome counted, and the search one ply
/// shallower merged in.
pub open spec fn simul_replies(g1: GridView, color: CaseValue, depth: nat, n: int) -> PathIssue
    decreases depth, 0int, n,
{
    if n <= 0 {
        PathIssue { win: 0, none: 0, lose: 0, nowin: 0 }
    } else {
        let acc = simul_replies(g1, color, depth, n - 1);
        let p = yellow_indices(g1.cells)[n - 1];
        let res = play_result_of(g1, p as int);
        let acc2 = PathIssue {
            win: if res is RedWin || res is BlueWin {
                sat_add_spec(acc.win, 1)
            } else {
                acc.win
            },
            nowin: if res is NobodyWin {
                sat_add_spec(acc.nowin, 1)
            } else {
                acc.nowin
            },
            ..acc
        };
        if depth == 0 {
            acc2
        } else {
            match simul_spec(play_next(g1, p as int), color, (depth - 1) as nat) {
                Some(deeper) => merge_tally(acc2, deeper.1),
                None => acc2,
            }
        }
    }
}

impl<T: GridProvider + Clone> Grid<T> {
    /// The playable cells ranked for the mover of `turn_case_color`: each is
    /// paired with its heuristic score *for the opponent*, the list is
    /// sorted ascending by (score, index), and only the three
    /// least-desirable-for-the-opponent candidates are kept.  Every playable
    /// cell that was dropped ranks no better than any kept one.
    pub fn choose_best_indexes(&self, turn_case_color: CaseValue) -> (v: Vec<(usize, i64)>)
        requires
            self@.wf(),
            turn_case_color is Red || turn_case_color is Blue,
        ensures
            ranked_candidates(
                self@.cells,
                self@.width as int,
                self@.height as int,
                turn_case_color,
                v@,
            ),
            v@ == candidates_spec(
                self@.cells,
                self@.width as int,
                self@.height as int,
                turn_case_color,
            ),
    {
        let ghost c = self@.cells;
        let ghost w = self@.width as int;
        let ghost h = self@.height as int;
        let ghost color = turn_case_color;
        let other = turn_case_color.invert();
        let ys = self.get_yellows();
        proof {
            lemma_yellows_upto_properties(c, c.len() as int);
        }
        let mut arr: Vec<(usize, i64)> = Vec::new();
        let mut j: usize = 0;
        while j < ys.len()
            invariant
                self@.wf(),
                c == self@.cells,
                w == self@.width as int,
                h == self@.height as int,
                color == turn_case_color,
                other == color.other_color(),
                color is Red || color is Blue,
                ys@ == yellow_indices(c),
                forall|k: int|
                    0 <= k < ys@.len() ==> (#[trigger] ys@[k] < c.len() && c[ys@[k] as int]
                        is Yellow),
                j <= ys@.len(),
                arr@.len() == j,
                forall|k: int| 0 <= k < j ==> (#[trigger] arr@[k]) == (
                    ys@[k],
                    arr@[k].1,
                ) && is_candidate(c, w, h, color, arr@[k]),
            decreases ys@.len() - j,
        {
            let y = ys[j];
            let s = self.evaluate_play(y, other);
            arr.push((y, s));
            j += 1;
        }
        proof {
            assert forall|j1: int, j2: int| 0 <= j1 < j2 < arr@.len() implies arr@[j1].0
                != arr@[j2].0 by {
                assert(ys@[j1] < ys@[j2]);
            }
            assert forall|i: int|
                0 <= i < c.len() && c[i] is Yellow implies exists|k: int|
                0 <= k < arr@.len() && (#[trigger] arr@[k]).0 == i as usize by {
                assert(yellow_indices(c).contains(i as usize));
                let k = choose|k: int| 0 <= k < ys@.len() && ys@[k] == i as usize;
                assert(arr@[k].0 == i as usize);
            }
        }
        let ghost full = arr@;
        // Insertion sort ascending by (score, index).
        let mut s: usize = 1;
        while s < arr.len()
            invariant
                arr@.len() == full.len(),
                1 <= s <= arr@.len() || arr@.len() == 0,
                forall|k: int|
                    0 <= k < arr@.len() ==> is_candidate(c, w, h, color, #[trigger] arr@[k]),
                forall|k1: int, k2: int| 0 <= k1 < k2 < arr@.len() ==> arr@[k1].0 != arr@[k2].0,
                forall|i: int|
                    0 <= i < c.len() && c[i] is Yellow ==> exists|k: int|
                        0 <= k < arr@.len() && (#[trigger] arr@[k]).0 == i as usize,
                forall|k1: int, k2: int|
                    0 <= k1 < k2 < s ==> cand_le(cand_key(#[trigger] arr@[k1]), cand_key(
                        #[trigger] arr@[k2],
                    )),
            decreases arr@.len() - s,
        {
            let mut t: usize = s;
            while t > 0 && cand_out_of_order(&arr, t)
                invariant
                    arr@.len() == full.len(),
                    0 <= t <= s < arr@.len(),
                    forall|k: int|
                        0 <= k < arr@.len() ==> is_candidate(c, w, h, color, #[trigger] arr@[k]),
                    forall|k1: int, k2: int|
                        0 <= k1 < k2 < arr@.len() ==> arr@[k1].0 != arr@[k2].0,
                    forall|i: int|
                        0 <= i < c.len() && c[i] is Yellow ==> exists|k: int|
                            0 <= k < arr@.len() && (#[trigger] arr@[k]).0 == i as usize,
                    forall|k1: int, k2: int|
                        0 <= k1 < k2 <= s && k1 != t && k2 != t ==> cand_le(
                            cand_key(#[trigger] arr@[k1]),
                            cand_key(#[trigger] arr@[k2]),
                        ),
                    forall|k: int|
                        t < k <= s ==> cand_le(cand_key(arr@[t as int]), cand_key(
                            #[trigger] arr@[k],
                        )),
                decreases t,
            {
                let ghost pre_swap = arr@;
                let prev = arr[t - 1];
                let cur = arr[t];
                arr[t - 1] = cur;
                arr[t] = prev;
                proof {
                    assert forall|i: int|
                        0 <= i < c.len() && c[i] is Yellow implies exists|k: int|
                        0 <= k < arr@.len() && (#[trigger] arr@[k]).0 == i as usize by {
                        let k0 = choose|k0: int|
                            0 <= k0 < pre_swap.len() && (#[trigger] pre_swap[k0]).0 == i as usize;
                        if k0 == t - 1 {
                            assert(arr@[t as int].0 == i as usize);
                        } else if k0 == t {
                            assert(arr@[t as int - 1].0 == i as usize);
                        } else {
                            assert(arr@[k0].0 == i as usize);
                        }
                    }
                }
                t -= 1;
            }
            s += 1;
        }
        // Keep the best three.
        let keep: usize = if arr.len() < 3 {
            arr.len()
        } else {
            3
        };
        let ghost sorted = arr@;
        arr.truncate(keep);
        proof {
            assert(arr@ =~= sorted.subrange(0, keep as int));
            assert forall|j2: int|
                0 <= j2 < c.len() && c[j2] is Yellow && (forall|k: int|
                    0 <= k < arr@.len() ==> (#[trigger] arr@[k]).0 != j2) implies (forall|k: int|
                0 <= k < arr@.len() ==> cand_le(cand_key(#[trigger] arr@[k]), (
                j2,
                evaluate_spec(c, j2, w, h, color.other_color()),
                ))) by {
                let kj = choose|kj: int|
                    0 <= kj < sorted.len() && (#[trigger] sorted[kj]).0 == j2 as usize;
                if kj < keep {
                    assert(arr@[kj].0 == j2 as usize);
                }
                assert(kj >= keep);
                assert(is_candidate(c, w, h, color, sorted[kj]));
                assert(cand_key(sorted[kj]) == (j2, evaluate_spec(c, j2, w, h, color.other_color())));
                assert forall|k: int| 0 <= k < arr@.len() implies cand_le(
                    cand_key(#[trigger] arr@[k]),
                    (j2, evaluate_spec(c, j2, w, h, color.other_color())),
                ) by {
                    assert(arr@[k] == sorted[k]);
                    assert(cand_le(cand_key(sorted[k]), cand_key(sorted[kj])));
                }
            }
            assert(ranked_candidates(c, w, h, color, arr@));
            assert(ranked_candidates(c, w, h, color, candidates_spec(c, w, h, color)));
            lemma_ranked_candidates_unique(
                c,
                w,
                h,
                color,
                arr@,
                candidates_spec(c, w, h, color),
            );
        }
        arr
    }

    /// Explore the best candidates of the mover `turn_case_color` to
    /// `max_depth` plies, returning the retained candidate with the highest
    /// reduced tally; ties keep the earliest candidate.  A move is owed
    /// whenever there is depth to search and a playable cell.
    pub fn begin_simul(&self, turn_case_color: CaseValue, max_depth: u8) -> (r: Option<
        (usize, PathIssue),
    >)
        requires
            self@.wf(),
            turn_case_color is Red || turn_case_color is Blue,
        ensures
            r == simul_spec(self@, turn_case_color, max_depth as nat),
            r is Some <==> max_depth >= 1 && yellow_indices(self@.cells).len() > 0,
            (match r {
                Some(p) => p.0 < self@.cells.len() && self@.cells[p.0 as int] is Yellow && (
                exists|k: int|
                    0 <= k < candidates_spec(
                        self@.cells,
                        self@.width as int,
                        self@.height as int,
                        turn_case_color,
                    ).len() && (#[trigger] candidates_spec(
                        self@.cells,
                        self@.width as int,
                        self@.height as int,
                        turn_case_color,
                    )[k]).0 == p.0),
                None => true,
            }),
        decreases max_depth,
    {
        if max_depth == 0 {
            return None;
        }
        let mut max_points: i128 = 0;
        let mut current: Option<(usize, PathIssue)> = None;
        let cands = self.choose_best_indexes(turn_case_color);
        let mut ci: usize = 0;
        while ci < cands.len()
            invariant
                self@.wf(),
                turn_case_color is Red || turn_case_color is Blue,
                max_depth >= 1,
                ci <= cands@.len(),
                ranked_candidates(
                    self@.cells,
                    self@.width as int,
                    self@.height as int,
                    turn_case_color,
                    cands@,
                ),
                cands@ == candidates_spec(
                    self@.cells,
                    self@.width as int,
                    self@.height as int,
                    turn_case_color,
                ),
                current == simul_select(self@, turn_case_color, max_depth as nat, ci as int),
                current is Some <==> (ci > 0 && cands@.len() > 0),
                (match current {
                    Some(p) => max_points == p.1.count_spec() && (exists|k: int|
                        0 <= k < cands@.len() && (#[trigger] cands@[k]).0 == p.0),
                    None => true,
                }),
            decreases cands@.len() - ci,
        {
            let cand = cands[ci];
            let i = cand.0;
            let s = cand.1;
            let mut current_issue = PathIssue { win: 0, none: 0, lose: 0, nowin: 0 };
            if s < OUR_OUR_COLOR {
                let mut new_grid = self.duplicate();
                new_grid.play(i);
                let replies = new_grid.get_yellows();
                proof {
                    lemma_yellows_upto_properties(new_grid@.cells, new_grid@.cells.len() as int);
                }
                let mut ri: usize = 0;
                while ri < replies.len()
                    invariant
                        new_grid@.wf(),
                        turn_case_color is Red || turn_case_color is Blue,
                        max_depth >= 1,
                        ri <= replies@.len(),
                        new_grid@ == play_next(self@, i as int),
                        replies@ == yellow_indices(new_grid@.cells),
                        current_issue == simul_replies(
                            new_grid@,
                            turn_case_color,
                            max_depth as nat,
                            ri as int,
                        ),
                        forall|k: int|
                            0 <= k < replies@.len() ==> (#[trigger] replies@[k]
                                < new_grid@.cells.len() && new_grid@.cells[replies@[k] as int]
                                is Yellow),
                    decreases replies@.len() - ri,
                {
                    let p = replies[ri];
                    let mut child = new_grid.duplicate();
                    match child.play(p) {
                        PlayResult::RedWin | PlayResult::BlueWin => {
                            current_issue.win = sat_add(current_issue.win, 1);
                        },
                        PlayResult::NobodyWin => {
                            current_issue.nowin = sat_add(current_issue.nowin, 1);
                        },
                        _ => (),
                    }
                    match child.begin_simul(turn_case_color, max_depth - 1) {
                        Some(deeper) => {
                            current_issue.win = sat_add(current_issue.win, deeper.1.win);
                            current_issue.none = sat_add(current_issue.none, deeper.1.none);
                            current_issue.lose = sat_add(current_issue.lose, deeper.1.lose);
                            current_issue.nowin = sat_add(current_issue.nowin, deeper.1.nowin);
                        },
                        None => (),
                    }
                    proof {
                        assert(current_issue == simul_replies(
                            new_grid@,
                            turn_case_color,
                            max_depth as nat,
                            ri as int + 1,
                        ));
                    }
                    ri += 1;
                }
                proof {
                    assert(current_issue == simul_tally(
                        self@,
                        turn_case_color,
                        max_depth as nat,
                        i,
                        s,
                    ));
                }
            } else {
                proof {
                    assert((max_depth as u64) * (max_depth as u64) <= 65025) by (nonlinear_arith)
                        requires
                            max_depth <= 255,
                    ;
                }
                current_issue.lose = sat_add(
                    current_issue.lose,
                    (max_depth as u64) * (max_depth as u64),
                );
                proof {
                    assert(current_issue == simul_tally(
                        self@,
                        turn_case_color,
                        max_depth as nat,
                        i,
                        s,
                    ));
                }
            }
            let cc = current_issue.count();
            if current.is_none() || max_points < cc {
                current = Some((i, current_issue));
                max_points = cc;
                proof {
                    assert(cands@[ci as int].0 == i);
                }
            }
            proof {
                assert(cands@[ci as int] == (i, s));
                assert(current == simul_select(
                    self@,
                    turn_case_color,
                    max_depth as nat,
                    ci as int + 1,
                ));
            }
            ci += 1;
        }
        proof {
            if current is Some {
                let p = current->Some_0;
                let k0 = choose|k: int| 0 <= k < cands@.len() && (#[trigger] cands@[k]).0 == p.0;
                assert(is_candidate(
                    self@.cells,
                    self@.width as int,
                    self@.height as int,
                    turn_case_color,
                    cands@[k0],
                ));
            }
        }
        current
    }

    /// The move the search recommends for the side to play: one of the
    /// short-listed candidates ranked against the opponent's colour.  A move
    /// is returned exactly when some cell is playable; callers are expected
    /// never to consult the search on an already-terminal board.
    pub fn where_to_play(&self) -> (r: Option<usize>)
        requires
            self@.wf(),
        ensures
            r == (match simul_spec(self@, self@.mover_color().other_color(), 5) {
                Some(p) => Some(p.0),
                None => None,
            }),
            r is Some <==> has_yellow(self@.cells),
            (match r {
                Some(i) => i < self@.cells.len() && self@.cells[i as int] is Yellow && (exists|
                    k: int,
                |
                    0 <= k < candidates_spec(
                        self@.cells,
                        self@.width as int,
                        self@.height as int,
                        self@.mover_color().other_color(),
                    ).len() && (#[trigger] candidates_spec(
                        self@.cells,
                        self@.width as int,
                        self@.height as int,
                        self@.mover_color().other_color(),
                    )[k]).0 == i),
                None => true,
            }),
    {
        let color = if self.is_red_turn {
            CaseValue::Blue
        } else {
            CaseValue::Red
        };
        let r = match self.begin_simul(color, 5) {
            Some(p) => Some(p.0),
            None => None,
        };
        proof {
            lemma_has_yellow_iff_some_index(self@.cells);
        }
        r
    }
}

} // verus!
