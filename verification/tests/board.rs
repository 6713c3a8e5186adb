use trigrid::grid::{CaseValue, Direction, Grid, PlayResult, VecProvider};

fn fresh(w: usize, h: usize) -> Grid<VecProvider> {
    Grid::new(VecProvider::new(w, h))
}

fn cells_of(g: &Grid<VecProvider>) -> Vec<CaseValue> {
    let mut v = Vec::new();
    let mut i = 0;
    while let Some(c) = g.get(i) {
        v.push(c);
        i += 1;
    }
    v
}

fn count(g: &Grid<VecProvider>, v: CaseValue) -> usize {
    cells_of(g).into_iter().filter(|c| *c == v).count()
}

#[test]
fn new_board_is_fully_playable() {
    let g = fresh(5, 6);
    assert_eq!(g.width(), 5);
    assert_eq!(g.height(), 6);
    assert!(g.is_red_turn);
    assert_eq!(count(&g, CaseValue::Yellow), 30);
    assert_eq!(g.x_y_to_index(3, 2), 13);
}

#[test]
fn get_and_set_roundtrip() {
    let mut g = fresh(5, 6);
    g.set(7, CaseValue::Black);
    assert_eq!(g.get(7), Some(CaseValue::Black));
    assert_eq!(g.get(30), None);
    // Out-of-range writes are ignored.
    g.set(99, CaseValue::Red);
    assert_eq!(count(&g, CaseValue::Red), 0);
}

#[test]
fn invalid_play_leaves_board_untouched() {
    let mut g = fresh(5, 6);
    g.set(5, CaseValue::Black);
    let before = cells_of(&g);
    let turn_before = g.is_red_turn;
    let last_before = g.last_play;
    let flag_before = g.was_everything_yellow;
    assert_eq!(g.play(5), PlayResult::InvalidPosition);
    assert_eq!(g.play(999), PlayResult::InvalidPosition);
    assert_eq!(cells_of(&g), before);
    assert_eq!(g.is_red_turn, turn_before);
    assert_eq!(g.last_play, last_before);
    assert_eq!(g.was_everything_yellow, flag_before);
}

#[test]
fn first_play_places_stone_and_reveals_neighbors() {
    let mut g = fresh(5, 6);
    assert_eq!(g.play(12), PlayResult::Played);
    assert!(!g.is_red_turn);
    assert_eq!(g.get(12), Some(CaseValue::Red));
    // The eight neighbours of 12 were revealed; everything else went hidden.
    for n in [6, 7, 8, 11, 13, 16, 17, 18] {
        assert_eq!(g.get(n), Some(CaseValue::Yellow), "neighbour {n}");
    }
    assert_eq!(count(&g, CaseValue::Yellow), 8);
    assert_eq!(count(&g, CaseValue::White), 21);
}

#[test]
fn stone_counts_track_completed_plays() {
    let mut g = fresh(5, 6);
    let mut plays = 0;
    assert_eq!(g.play(12), PlayResult::Played);
    plays += 1;
    // An invalid attempt does not add a stone.
    assert_eq!(g.play(12), PlayResult::InvalidPosition);
    for n in [13, 7, 2] {
        assert_eq!(g.play(n), PlayResult::Played);
        plays += 1;
    }
    let stones = count(&g, CaseValue::Red) + count(&g, CaseValue::Blue);
    assert_eq!(stones, plays);
    assert_eq!(count(&g, CaseValue::Black), 0);
}

#[test]
fn blocks_survive_plays() {
    let mut g = fresh(5, 6);
    // Positions are reduced modulo the board size; repeats land on one cell.
    g.place_blocks(2, || 37);
    assert_eq!(count(&g, CaseValue::Black), 1);
    assert_eq!(g.get(7), Some(CaseValue::Black));
    g.play(12);
    g.play(13);
    assert_eq!(count(&g, CaseValue::Black), 1);
}

#[test]
fn horizontal_triple_wins_only_when_completed() {
    // Two in a row is not yet a win…
    let mut g = fresh(5, 6);
    g.set(12, CaseValue::Red);
    assert_eq!(g.play(13), PlayResult::Played);

    // …three in a row, completed at the end, is.
    let mut g = fresh(5, 6);
    g.set(11, CaseValue::Red);
    g.set(12, CaseValue::Red);
    assert_eq!(g.play(13), PlayResult::RedWin);
}

#[test]
fn center_completion_wins() {
    let mut g = fresh(5, 6);
    g.set(12, CaseValue::Red);
    g.set(14, CaseValue::Red);
    assert_eq!(g.play(13), PlayResult::RedWin);
}

#[test]
fn diagonal_triple_wins() {
    let mut g = fresh(5, 6);
    g.set(0, CaseValue::Red);
    g.set(6, CaseValue::Red);
    assert_eq!(g.play(12), PlayResult::RedWin);
}

#[test]
fn blue_triple_wins_for_blue() {
    let mut g = fresh(5, 6);
    g.is_red_turn = false;
    g.set(12, CaseValue::Blue);
    g.set(14, CaseValue::Blue);
    assert_eq!(g.play(13), PlayResult::BlueWin);
}

#[test]
fn lone_cell_draws_immediately() {
    let mut g = fresh(1, 1);
    assert_eq!(g.play(0), PlayResult::NobodyWin);
}

#[test]
fn exhausted_board_draws() {
    let mut g = fresh(2, 1);
    assert_eq!(g.play(0), PlayResult::Played);
    assert_eq!(g.play(1), PlayResult::NobodyWin);
    assert_eq!(g.get(0), Some(CaseValue::Red));
    assert_eq!(g.get(1), Some(CaseValue::Blue));
}

#[test]
fn follow_rejects_edge_wrapping() {
    let g = fresh(5, 6);
    assert_eq!(g.follow(0, Direction::West), None);
    assert_eq!(g.follow(0, Direction::North), None);
    assert_eq!(g.follow(4, Direction::East), None);
    assert_eq!(g.follow(4, Direction::NorthEast), None);
    assert_eq!(g.follow(25, Direction::South), None);
    assert_eq!(g.follow(7, Direction::North), Some(2));
    assert_eq!(g.follow(7, Direction::SouthEast), Some(13));
    assert_eq!(g.follow_and_get(7, Direction::South).unwrap().0, 12);
}

#[test]
fn get_yellows_lists_playable_cells_in_order() {
    let mut g = fresh(2, 2);
    assert_eq!(g.get_yellows(), vec![0, 1, 2, 3]);
    g.set(2, CaseValue::Black);
    assert_eq!(g.get_yellows(), vec![0, 1, 3]);
}

#[test]
fn random_play_picks_the_only_playable_cell() {
    let mut g = fresh(2, 2);
    g.set(0, CaseValue::Black);
    g.set(1, CaseValue::Black);
    g.set(3, CaseValue::Black);
    let r = g.random_play();
    assert_ne!(r, PlayResult::InvalidPosition);
    assert_eq!(g.get(2), Some(CaseValue::Red));
}

#[test]
fn random_play_rejects_a_board_without_playable_cells() {
    let mut g = fresh(2, 1);
    g.set(0, CaseValue::Black);
    g.set(1, CaseValue::Black);
    assert_eq!(g.random_play(), PlayResult::InvalidPosition);
    assert_eq!(g.get(0), Some(CaseValue::Black));
    assert_eq!(g.get(1), Some(CaseValue::Black));
}

#[test]
fn mirror_inverts_every_direction() {
    let pairs = [
        (Direction::North, Direction::South),
        (Direction::East, Direction::West),
        (Direction::NorthEast, Direction::SouthWest),
        (Direction::NorthWest, Direction::SouthEast),
    ];
    for (a, b) in pairs {
        assert_eq!(a.mirror(), b);
        assert_eq!(b.mirror(), a);
        assert_eq!(a.mirror().mirror(), a);
    }
}

#[test]
fn offsets_match_row_major_layout() {
    assert_eq!(Direction::North.offset(5), -5);
    assert_eq!(Direction::South.offset(5), 5);
    assert_eq!(Direction::East.offset(5), 1);
    assert_eq!(Direction::West.offset(5), -1);
    assert_eq!(Direction::NorthEast.offset(5), -4);
    assert_eq!(Direction::NorthWest.offset(5), -6);
    assert_eq!(Direction::SouthEast.offset(5), 6);
    assert_eq!(Direction::SouthWest.offset(5), 4);
}

#[test]
fn cell_emptiness_and_inversion() {
    assert!(CaseValue::Yellow.empty());
    assert!(CaseValue::White.empty());
    assert!(!CaseValue::Red.empty());
    assert!(!CaseValue::Black.empty());
    assert_eq!(CaseValue::Red.invert(), CaseValue::Blue);
    assert_eq!(CaseValue::Blue.invert(), CaseValue::Red);
}

#[test]
fn render_draws_rows_with_leading_breaks() {
    let g = fresh(2, 2);
    assert_eq!(g.render(), "\n--\n--\n");
    let mut g = fresh(2, 2);
    g.play(0);
    assert_eq!(g.render(), "\nR-\n--\n");
    let mut g = fresh(3, 1);
    g.set(0, CaseValue::Black);
    g.set(1, CaseValue::Red);
    assert_eq!(g.render(), "\n#R-\n");
}

#[test]
fn random_games_always_terminate() {
    // Every successful play adds a stone and reveals fresh territory, so a
    // game of random moves must end in a win or a draw before the board
    // fills up.
    for _ in 0..20 {
        let mut g = fresh(5, 6);
        let mut over = false;
        for _ in 0..30 {
            match g.random_play() {
                PlayResult::Played => {}
                PlayResult::InvalidPosition => panic!("random play rejected on a live board"),
                _ => {
                    over = true;
                    break;
                }
            }
        }
        assert!(over, "game did not finish within the board's capacity");
    }
}

#[test]
fn duplicate_makes_an_independent_copy() {
    let mut g = fresh(5, 6);
    g.play(12);
    let mut copy = g.duplicate();
    assert_eq!(cells_of(&copy), cells_of(&g));
    copy.play(13);
    assert_eq!(g.get(13), Some(CaseValue::Yellow));
    assert_ne!(copy.get(13), Some(CaseValue::Yellow));
}
