use trigrid::grid::{CaseValue, Grid, VecProvider};
use trigrid::search::PathIssue;

fn fresh(w: usize, h: usize) -> Grid<VecProvider> {
    Grid::new(VecProvider::new(w, h))
}

#[test]
fn evaluating_an_open_center_scores_emptiness_and_the_bonus() {
    // On a fresh 3-by-3 board every neighbour of the centre exists and is
    // empty; the cell beyond each neighbour is off the board, so only the
    // mirror-side neighbour contributes, once per direction.
    let g = fresh(3, 3);
    assert_eq!(g.evaluate_play(4, CaseValue::Red), 8 + 80);
}

#[test]
fn evaluating_between_two_own_stones_dominates() {
    // Red stones flank the centre of the middle row: the east and west
    // neighbours each see an own-colour stone across the centre.
    let mut g = fresh(3, 3);
    g.set(3, CaseValue::Red);
    g.set(5, CaseValue::Red);
    assert_eq!(g.evaluate_play(4, CaseValue::Red), 2 * 20000 + 6);
}

#[test]
fn evaluating_for_the_opponent_sees_their_pairs() {
    // The same flanking position, evaluated for blue: the red pair counts
    // only through the opponent-adjacent-to-opponent weight.
    let mut g = fresh(3, 3);
    g.set(3, CaseValue::Red);
    g.set(5, CaseValue::Red);
    assert_eq!(g.evaluate_play(4, CaseValue::Blue), 2 * 10 + 6);
}

#[test]
fn choose_best_indexes_keeps_three_sorted_candidates() {
    let g = fresh(2, 2);
    let picks = g.choose_best_indexes(CaseValue::Red);
    assert_eq!(picks.len(), 3);
    // All four corners score alike, so ties resolve by index order.
    assert_eq!(
        picks.iter().map(|p| p.0).collect::<Vec<_>>(),
        vec![0, 1, 2]
    );
    for w in picks.windows(2) {
        assert!(w[0].1 < w[1].1 || (w[0].1 == w[1].1 && w[0].0 < w[1].0));
    }
}

#[test]
fn choose_best_indexes_returns_fewer_when_few_cells_are_playable() {
    let mut g = fresh(2, 2);
    g.set(0, CaseValue::Black);
    g.set(1, CaseValue::Black);
    let picks = g.choose_best_indexes(CaseValue::Red);
    assert_eq!(picks.len(), 2);
    assert_eq!(picks[0].0, 2);
    assert_eq!(picks[1].0, 3);
}

#[test]
fn path_issue_reduces_to_base_plus_wins_minus_fifty_losses() {
    let p = PathIssue { win: 3, none: 7, lose: 1, nowin: 2 };
    assert_eq!(p.count(), (u64::MAX / 2) as i128 + 3 - 50);
}

#[test]
fn search_at_depth_zero_finds_nothing() {
    let g = fresh(5, 6);
    assert!(g.begin_simul(CaseValue::Blue, 0).is_none());
}

#[test]
fn where_to_play_returns_a_playable_cell() {
    let mut g = fresh(2, 2);
    g.set(0, CaseValue::Black);
    g.set(1, CaseValue::Red);
    g.set(3, CaseValue::Blue);
    let m = g.where_to_play();
    assert_eq!(m, Some(2));
}

#[test]
fn search_owes_a_move_whenever_a_cell_is_playable() {
    let g = fresh(3, 3);
    assert!(g.begin_simul(CaseValue::Blue, 1).is_some());
    assert!(g.where_to_play().is_some());
}

#[test]
fn where_to_play_finds_nothing_on_an_exhausted_board() {
    let mut g = fresh(2, 1);
    g.set(0, CaseValue::Red);
    g.set(1, CaseValue::Blue);
    assert_eq!(g.where_to_play(), None);
}

#[test]
fn the_search_is_a_function_of_the_board() {
    let mut g = fresh(3, 3);
    g.play(4);
    let a = g.begin_simul(CaseValue::Red, 2);
    let b = g.begin_simul(CaseValue::Red, 2);
    assert_eq!(a.map(|p| p.0), b.map(|p| p.0));
    assert!(a.is_some());
}

#[test]
fn shallow_search_explores_a_small_board() {
    let g = fresh(2, 2);
    let found = g.begin_simul(CaseValue::Blue, 2);
    let (idx, _) = found.expect("a fresh board offers candidates");
    assert!(idx < 4);
    assert_eq!(g.get(idx), Some(CaseValue::Yellow));
}
