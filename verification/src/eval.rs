//! The positional heuristic evaluator.
//!
//! `evaluate_play` scores how desirable a cell is for a colour by looking, in
//! each of the eight directions, at the immediate neighbour, the cell beyond
//! it and the mirror-side neighbour, and summing weighted contributions from
//! a fixed table.  Scores are integers in twentieths of a point, so that
//! every table weight is exact.  The `OUR_OUR_COLOR` weight is deliberately
//! enormous: any move that would create or extend a three-in-a-row for the
//! evaluated colour dominates all other considerations.

use vstd::prelude::*;

use crate::grid::{
    dir_mirror, direction_order, lemma_direction_order_complete, step_ok, step_to, CaseValue,
    Direction, Grid, GridProvider,
};

verus! {

/// Weight for an empty neighbour next to another empty cell.
pub const EMPTY_EMPTY: i64 = 1;

/// Weight for an empty neighbour next to a cell of the evaluated colour.
pub const EMPTY_OUR_COLOR: i64 = 40;

/// Weight for an opponent neighbour next to another opponent cell.
pub const THEIR_THEIR_COLOR: i64 = 10;

/// Weight for an own-colour neighbour next to another own-colour cell: the
/// "this completes or blocks a three-in-a-row" signal.
pub const OUR_OUR_COLOR: i64 = 20000;

/// Bonus when every one of the eight neighbours exists and is empty.
pub const PLAY_EVERYWHERE: i64 = 80;

/// Contribution of a second cell `o` seen past or across an *empty*
/// neighbour.
pub open spec fn pair_weight_empty(o: CaseValue, color: CaseValue) -> int {
    if o.is_empty_cell() {
        EMPTY_EMPTY as int
    } else if o == color {
        EMPTY_OUR_COLOR as int
    } else {
        0
    }
}

/// Contribution of a second cell `o` seen past or across an *own-colour*
/// neighbour.
pub open spec fn pair_weight_own(o: CaseValue, color: CaseValue) -> int {
    if o.is_empty_cell() {
        EMPTY_OUR_COLOR as int
    } else if o == color {
        OUR_OUR_COLOR as int
    } else {
        0
    }
}

/// Contribution of a second cell `o` seen past or across an *opponent*
/// neighbour.
pub open spec fn pair_weight_other(o: CaseValue, other: CaseValue) -> int {
    if o == other {
        THEIR_THEIR_COLOR as int
    } else {
        0
    }
}

/// The score contribution of direction `d` when evaluating a play at
/// `index` for `color`.
pub open spec fn dir_eval(
    c: Seq<CaseValue>,
    index: int,
    w: int,
    h: int,
    color: CaseValue,
    d: Direction,
) -> int {
    if !step_ok(index, w, h, d) {
        0
    } else {
        let u = step_to(index, w, d);
        let o = c[u];
        let beyond = step_ok(u, w, h, d);
        let across = step_ok(index, w, h, dir_mirror(d));
        if o.is_empty_cell() {
            (if beyond {
                pair_weight_empty(c[step_to(u, w, d)], color)
            } else {
                0
            }) + (if across {
                pair_weight_empty(c[step_to(index, w, dir_mirror(d))], color)
            } else {
                0
            })
        } else if o == color {
            (if beyond {
                pair_weight_own(c[step_to(u, w, d)], color)
            } else {
                0
            }) + (if across {
                pair_weight_own(c[step_to(index, w, dir_mirror(d))], color)
            } else {
                0
            })
        } else if o == color.other_color() {
            (if beyond {
                pair_weight_other(c[step_to(u, w, d)], color.other_color())
            } else {
                0
            }) + (if across {
                pair_weight_other(c[step_to(index, w, dir_mirror(d))], color.other_color())
            } else {
                0
            })
        } else {
            0
        }
    }
}

/// The summed contributions of the first `k` directions.
pub open spec fn eval_sum(
    c: Seq<CaseValue>,
    index: int,
    w: int,
    h: int,
    color: CaseValue,
    k: int,
) -> int
    decreases k,
{
    if k <= 0 {
        0
    } else {
        eval_sum(c, index, w, h, color, k - 1) + dir_eval(
            c,
            index,
            w,
            h,
            color,
            direction_order()[k - 1],
        )
    }
}

/// Every one of the eight neighbours of `index` exists and is empty.
pub open spec fn all_neighbors_empty(c: Seq<CaseValue>, index: int, w: int, h: int) -> bool {
    forall|d: Direction| #[trigger] step_ok(index, w, h, d) && c[step_to(index, w, d)].is_empty_cell()
}

/// The full heuristic score of playing `index` for `color`.
pub open spec fn evaluate_spec(c: Seq<CaseValue>, index: int, w: int, h: int, color: CaseValue)
    -> int {
    eval_sum(c, index, w, h, color, 8) + if all_neighbors_empty(c, index, w, h) {
        PLAY_EVERYWHERE as int
    } else {
        0
    }
}

/// Each direction contributes a small non-negative amount.
pub proof fn lemma_dir_eval_bounds(
    c: Seq<CaseValue>,
    index: int,
    w: int,
    h: int,
    color: CaseValue,
    d: Direction,
)
    ensures
        0 <= dir_eval(c, index, w, h, color, d) <= 2 * OUR_OUR_COLOR,
{
}

/// The whole score is non-negative and comfortably bounded.
pub proof fn lemma_eval_sum_bounds(
    c: Seq<CaseValue>,
    index: int,
    w: int,
    h: int,
    color: CaseValue,
    k: int,
)
    requires
        0 <= k <= 8,
    ensures
        0 <= eval_sum(c, index, w, h, color, k) <= k * 2 * OUR_OUR_COLOR,
    decreases k,
{
    if k > 0 {
        lemma_eval_sum_bounds(c, index, w, h, color, k - 1);
        lemma_dir_eval_bounds(c, index, w, h, color, direction_order()[k - 1]);
    }
}

impl<T: GridProvider + Clone> Grid<T> {
    /// The heuristic desirability, for `color`, of playing at `index`, in
    /// twentieths of a point.
    #[verifier::rlimit(100)]
    pub fn evaluate_play(&self, index: usize, color: CaseValue) -> (score: i64)
        requires
            self@.wf(),
            index < self@.cells.len(),
            color is Red || color is Blue,
        ensures
            score == evaluate_spec(
                self@.cells,
                index as int,
                self@.width as int,
                self@.height as int,
                color,
            ),
            0 <= score <= 16 * OUR_OUR_COLOR + PLAY_EVERYWHERE,
    {
        let ghost c = self@.cells;
        let ghost w = self@.width as int;
        let ghost h = self@.height as int;
        let mut score: i64 = 0;
        let other = color.invert();
        let mut play_everywhere = true;
        let dirs = Direction::all();
        let mut k: usize = 0;
        while k < 8
            invariant
                self@.wf(),
                c == self@.cells,
                w == self@.width as int,
                h == self@.height as int,
                index < c.len(),
                color is Red || color is Blue,
                other == color.other_color(),
                k <= 8,
                dirs@ == direction_order(),
                score == eval_sum(c, index as int, w, h, color, k as int),
                0 <= score <= k as int * 2 * OUR_OUR_COLOR,
                play_everywhere == (forall|k2: int|
                    0 <= k2 < k ==> #[trigger] step_ok(index as int, w, h, direction_order()[k2])
                        && c[step_to(index as int, w, direction_order()[k2])].is_empty_cell()),
            decreases 8 - k,
        {
            let dir = dirs[k];
            let mut term: i64 = 0;
            match self.follow_and_get(index, dir) {
                Some(p) => {
                    let u = p.0;
                    let o = p.1;
                    if o.empty() {
                        match self.follow_and_get(u, dir) {
                            Some(p2) => {
                                if p2.1.empty() {
                                    term += EMPTY_EMPTY;
                                } else if p2.1 == color {
                                    term += EMPTY_OUR_COLOR;
                                }
                            },
                            None => (),
                        }
                        match self.follow_and_get(index, dir.mirror()) {
                            Some(p3) => {
                                if p3.1.empty() {
                                    term += EMPTY_EMPTY;
                                } else if p3.1 == color {
                                    term += EMPTY_OUR_COLOR;
                                }
                            },
                            None => (),
                        }
                    } else if o == color {
                        play_everywhere = false;
                        match self.follow_and_get(u, dir) {
                            Some(p2) => {
                                if p2.1.empty() {
                                    term += EMPTY_OUR_COLOR;
                                } else if p2.1 == color {
                                    term += OUR_OUR_COLOR;
                                }
                            },
                            None => (),
                        }
                        match self.follow_and_get(index, dir.mirror()) {
                            Some(p3) => {
                                if p3.1.empty() {
                                    term += EMPTY_OUR_COLOR;
                                } else if p3.1 == color {
                                    term += OUR_OUR_COLOR;
                                }
                            },
                            None => (),
                        }
                    } else if o == other {
                        play_everywhere = false;
                        match self.follow_and_get(u, dir) {
                            Some(p2) => {
                                if p2.1 == other {
                                    term += THEIR_THEIR_COLOR;
                                }
                            },
                            None => (),
                        }
                        match self.follow_and_get(index, dir.mirror()) {
                            Some(p3) => {
                                if p3.1 == other {
                                    term += THEIR_THEIR_COLOR;
                                }
                            },
                            None => (),
                        }
                    } else {
                        play_everywhere = false;
                    }
                },
                None => {
                    play_everywhere = false;
                },
            }
            proof {
                assert(term == dir_eval(c, index as int, w, h, color, direction_order()[k as int]));
            }
            score += term;
            k += 1;
        }
        if play_everywhere {
            proof {
                assert forall|d: Direction| #[trigger] step_ok(index as int, w, h, d) && c[step_to(
                    index as int,
                    w,
                    d,
                )].is_empty_cell() by {
                    lemma_direction_order_complete(d);
                    let k2 = choose|k2: int| 0 <= k2 < 8 && direction_order()[k2] == d;
                    assert(step_ok(index as int, w, h, direction_order()[k2]) && c[step_to(
                        index as int,
                        w,
                        direction_order()[k2],
                    )].is_empty_cell());
                }
            }
            score += PLAY_EVERYWHERE;
        } else {
            proof {
                let k2 = choose|k2: int|
                    !(0 <= k2 < 8 ==> #[trigger] step_ok(index as int, w, h, direction_order()[k2])
                        && c[step_to(index as int, w, direction_order()[k2])].is_empty_cell());
                if all_neighbors_empty(c, index as int, w, h) {
                    assert(step_ok(index as int, w, h, direction_order()[k2]) && c[step_to(
                        index as int,
                        w,
                        direction_order()[k2],
                    )].is_empty_cell());
                }
            }
        }
        score
    }
}

} // verus!
