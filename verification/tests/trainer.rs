use trigrid::grid::{CaseValue, Grid, PlayResult, VecProvider};
use trigrid::runner::{
    accept_mutant, average_fitness, feature_vector, generation_expired, screen_mutant,
    self_play_outcome, start_benchmark_game, CompareResult, MutantScreen,
};

#[test]
fn default_tally_is_empty() {
    let r = CompareResult::default();
    assert_eq!(r.win, 0);
    assert_eq!(r.loose, 0);
    assert_eq!(r.none, 0);
}

#[test]
fn record_tallies_terminal_results_only() {
    let mut r = CompareResult::default();
    assert!(!r.record(PlayResult::Played));
    assert!(r.record(PlayResult::RedWin));
    assert!(r.record(PlayResult::RedWin));
    assert!(r.record(PlayResult::BlueWin));
    assert!(r.record(PlayResult::NobodyWin));
    assert_eq!((r.win, r.loose, r.none), (2, 1, 1));
}

#[test]
fn fitness_is_exactly_wins_minus_losses() {
    let r = CompareResult { win: 700, loose: 250, none: 50 };
    assert_eq!(r.score(), 450);
    let r = CompareResult { win: 10, loose: 30, none: 0 };
    assert_eq!(r.score(), -20);
}

#[test]
fn benchmark_games_open_with_two_stones() {
    let g = start_benchmark_game();
    assert_eq!(g.width(), 5);
    assert_eq!(g.height(), 6);
    assert!(g.is_red_turn);
    let mut stones = 0;
    let mut blacks = 0;
    for i in 0..30 {
        match g.get(i).unwrap() {
            CaseValue::Red | CaseValue::Blue => stones += 1,
            CaseValue::Black => blacks += 1,
            _ => {}
        }
    }
    assert_eq!(stones, 2);
    assert_eq!(blacks, 0);
}

#[test]
fn head_to_head_outcomes_map_from_reds_side() {
    assert_eq!(self_play_outcome(PlayResult::RedWin), Some(-1));
    assert_eq!(self_play_outcome(PlayResult::BlueWin), Some(1));
    assert_eq!(self_play_outcome(PlayResult::NobodyWin), Some(0));
    assert_eq!(self_play_outcome(PlayResult::Played), None);
}

#[test]
fn screening_retries_ambiguous_head_to_heads() {
    assert_eq!(screen_mutant(0, 500, 100), MutantScreen::Retry);
    assert_eq!(screen_mutant(-1, 61, 100), MutantScreen::RunFullBenchmark);
    assert_eq!(screen_mutant(1, 61, 100), MutantScreen::RunFullBenchmark);
    assert_eq!(screen_mutant(-1, 60, 100), MutantScreen::Reject);
    assert_eq!(screen_mutant(1, -500, 100), MutantScreen::Reject);
}

#[test]
fn acceptance_requires_strict_improvement() {
    assert!(accept_mutant(101, 100));
    assert!(!accept_mutant(100, 100));
    assert!(!accept_mutant(99, 100));
    // An accepted mutant's fitness therefore never falls below the
    // champion's it replaces.
    let champion = 37;
    let candidate = 38;
    if accept_mutant(candidate, champion) {
        assert!(candidate >= champion);
    }
}

#[test]
fn the_safety_valve_trips_past_a_million_iterations() {
    assert!(!generation_expired(0));
    assert!(!generation_expired(1_000_000));
    assert!(generation_expired(1_000_001));
}

#[test]
fn averages_truncate_towards_zero() {
    assert_eq!(average_fitness(&vec![1, 2, 3, 4]), 2);
    assert_eq!(average_fitness(&vec![-3, -4]), -3);
    assert_eq!(average_fitness(&vec![7]), 7);
    assert_eq!(average_fitness(&vec![5, -5, 3]), 1);
}

#[test]
fn feature_vectors_double_the_cell_features() {
    let mut g = Grid::new(VecProvider::new(2, 2));
    g.set(0, CaseValue::Red);
    g.set(1, CaseValue::Blue);
    g.set(2, CaseValue::White);
    let red_view = feature_vector(&g, CaseValue::Red);
    assert_eq!(red_view, vec![2, 0, 1, 1]);
    let blue_view = feature_vector(&g, CaseValue::Blue);
    assert_eq!(blue_view, vec![0, 2, 1, 1]);
}
