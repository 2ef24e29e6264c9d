use minesweeper::{CellState, Game, GameCell, GameState};

fn board_with(w: u8, h: u8, mines: &[(u8, u8)]) -> Game {
    let mut layout = vec![false; (w as usize) * (h as usize)];
    for &(x, y) in mines {
        layout[(y as usize) * (w as usize) + (x as usize)] = true;
    }
    Game::with_mines(w, h, &layout).unwrap()
}

fn states(game: &Game) -> Vec<Option<CellState>> {
    let mut out = Vec::new();
    for y in 0..game.height() {
        for x in 0..game.width() {
            out.push(game.cell_state(x, y));
        }
    }
    out
}

#[test]
fn default_cell_is_covered_and_safe() {
    let c = GameCell::default();
    assert_eq!(c.state, CellState::Covered);
    assert!(!c.mine);
    assert_eq!(GameCell::new().state, CellState::Covered);
}

#[test]
fn new_board_is_covered_and_continues() {
    let game = Game::new(7, 3);
    assert_eq!(game.width(), 7);
    assert_eq!(game.height(), 3);
    assert_eq!(game.state(), GameState::Continue);
    assert_eq!(game.flagged(), 0);
    assert!(game.mines() <= 21);
    let mut counted = 0;
    for y in 0..3 {
        for x in 0..7 {
            assert_eq!(game.cell_state(x, y), Some(CellState::Covered));
            if game.has_mine(x, y).unwrap() {
                counted += 1;
            }
        }
    }
    assert_eq!(counted, game.mines());
}

#[test]
fn large_board_without_overflow() {
    let game = Game::new(255, 255);
    assert_eq!(game.cell_state(254, 254), Some(CellState::Covered));
    assert_eq!(game.cell_state(255, 0), None);
    let mut game = board_with(255, 255, &[]);
    game.open(0, 0);
    assert_eq!(game.state(), GameState::Won);
    assert_eq!(game.cell_state(254, 254), Some(CellState::Uncovered));
}

#[test]
fn empty_board_is_degenerate() {
    let mut game = Game::new(0, 0);
    assert_eq!(game.mines(), 0);
    assert_eq!(game.cell_state(0, 0), None);
    assert_eq!(game.flag(0, 0), None);
    game.open(0, 0);
    assert_eq!(game.state(), GameState::Continue);
}

#[test]
fn with_mines_needs_one_entry_per_cell() {
    assert!(Game::with_mines(3, 2, &vec![false; 5]).is_none());
    assert!(Game::with_mines(3, 2, &vec![false; 7]).is_none());
    let game = Game::with_mines(3, 2, &vec![true, false, true, false, false, true]).unwrap();
    assert_eq!(game.mines(), 3);
    assert_eq!(game.has_mine(2, 0), Some(true));
    assert_eq!(game.has_mine(0, 1), Some(false));
    assert_eq!(game.has_mine(2, 1), Some(true));
}

#[test]
fn queries_are_none_exactly_off_the_grid() {
    let game = board_with(4, 3, &[(1, 1)]);
    for y in 0..6u8 {
        for x in 0..6u8 {
            let inside = x < 4 && y < 3;
            assert_eq!(game.cell_state(x, y).is_some(), inside);
            assert_eq!(game.has_mine(x, y).is_some(), inside);
            assert_eq!(game.adjacent_mines(x, y).is_some(), inside);
        }
    }
    assert_eq!(game.cell_state(255, 255), None);
}

#[test]
fn neighbor_counts_bound_adjacent_mines() {
    // every cell a mine: the adjacent count is the neighbor count
    let all: Vec<(u8, u8)> = (0..5u8).flat_map(|y| (0..4u8).map(move |x| (x, y))).collect();
    let game = board_with(4, 5, &all);
    assert_eq!(game.adjacent_mines(0, 0), Some(3));
    assert_eq!(game.adjacent_mines(3, 4), Some(3));
    assert_eq!(game.adjacent_mines(0, 2), Some(5));
    assert_eq!(game.adjacent_mines(2, 0), Some(5));
    assert_eq!(game.adjacent_mines(1, 2), Some(8));
    assert_eq!(game.adj(0, 0).len(), 3);
    assert_eq!(game.adj(3, 2).len(), 5);
    assert_eq!(game.adj(2, 2).len(), 8);
    assert_eq!(game.adj(1, 1), vec![(0, 0), (1, 0), (2, 0), (0, 1), (2, 1), (0, 2), (1, 2), (2, 2)]);
    assert_eq!(game.adj(0, 0), vec![(1, 0), (0, 1), (1, 1)]);
}

#[test]
fn flagged_counts_flagged_cells() {
    let mut game = board_with(3, 3, &[(2, 2)]);
    assert_eq!(game.flagged(), 0);
    assert_eq!(game.flag(0, 0), Some(true));
    assert_eq!(game.flag(1, 0), Some(true));
    assert_eq!(game.flag(2, 2), Some(true));
    assert_eq!(game.flagged(), 3);
    assert_eq!(game.flag(1, 0), Some(false));
    assert_eq!(game.flagged(), 2);
    assert_eq!(game.flag(3, 0), None);
    assert_eq!(game.flagged(), 2);
}

#[test]
fn flag_on_uncovered_cell_is_rejected() {
    let mut game = board_with(3, 3, &[(2, 2)]);
    game.open(0, 0);
    assert_eq!(game.cell_state(0, 0), Some(CellState::Uncovered));
    let before = states(&game);
    assert_eq!(game.flag(0, 0), None);
    assert_eq!(states(&game), before);
}

#[test]
fn scenario_flag_toggles() {
    let mut game = board_with(4, 4, &[]);
    assert_eq!(game.flag(0, 0), Some(true));
    assert_eq!(game.flagged(), 1);
    assert_eq!(game.cell_state(0, 0), Some(CellState::Flagged));
    assert_eq!(game.flag(0, 0), Some(false));
    assert_eq!(game.flagged(), 0);
    assert_eq!(game.cell_state(0, 0), Some(CellState::Covered));
}

#[test]
fn scenario_open_empty_board_uncovers_all() {
    let mut game = board_with(4, 4, &[]);
    game.open(0, 0);
    assert_eq!(states(&game), vec![Some(CellState::Uncovered); 16]);
    assert_eq!(game.state(), GameState::Won);
}

#[test]
fn scenario_single_mine() {
    let mut game = board_with(4, 4, &[(1, 1)]);
    game.open(0, 0);
    assert_eq!(game.cell_state(0, 0), Some(CellState::Uncovered));
    assert_eq!(game.cell_state(1, 0), Some(CellState::Covered));
    assert_eq!(game.cell_state(0, 1), Some(CellState::Covered));
    assert_eq!(game.cell_state(1, 1), Some(CellState::Covered));
    game.open(3, 3);
    for (x, y) in [(3, 3), (3, 2), (2, 2), (2, 3)] {
        assert_eq!(game.cell_state(x, y), Some(CellState::Uncovered));
    }
    // (1, 0) and (0, 1) touch the mine and no cell without adjacent mines
    assert_eq!(game.cell_state(1, 0), Some(CellState::Covered));
    assert_eq!(game.cell_state(0, 1), Some(CellState::Covered));
    assert_eq!(game.cell_state(1, 1), Some(CellState::Covered));
    assert_eq!(game.state(), GameState::Continue);
    game.open(1, 0);
    game.open(0, 1);
    assert_eq!(game.state(), GameState::Won);
}

#[test]
fn scenario_ring_of_mines() {
    let game = board_with(
        5,
        6,
        &[(1, 1), (2, 1), (3, 1), (1, 2), (3, 2), (1, 3), (2, 3), (3, 3)],
    );
    assert_eq!(game.adjacent_mines(2, 2), Some(8));
    assert_eq!(game.adjacent_mines(0, 0), Some(1));
    for x in 0..5 {
        assert_eq!(game.adjacent_mines(x, 5), Some(0));
    }
    assert_eq!(game.mines(), 8);
}

#[test]
fn cascade_stops_at_numbered_cells_and_skips_mines() {
    // mines along column 2 split the board
    let mut game = board_with(5, 3, &[(2, 0), (2, 1), (2, 2)]);
    game.open(0, 0);
    for y in 0..3 {
        assert_eq!(game.cell_state(0, y), Some(CellState::Uncovered));
        assert_eq!(game.cell_state(1, y), Some(CellState::Uncovered));
        assert_eq!(game.cell_state(2, y), Some(CellState::Covered));
        assert_eq!(game.cell_state(3, y), Some(CellState::Covered));
        assert_eq!(game.cell_state(4, y), Some(CellState::Covered));
    }
    assert_eq!(game.state(), GameState::Continue);
}

#[test]
fn cascade_uncovers_flagged_safe_cells() {
    let mut game = board_with(3, 3, &[]);
    assert_eq!(game.flag(2, 2), Some(true));
    game.open(0, 0);
    assert_eq!(game.cell_state(2, 2), Some(CellState::Uncovered));
    assert_eq!(game.flagged(), 0);
    assert_eq!(game.state(), GameState::Won);
}

#[test]
fn reopening_changes_nothing() {
    let mut game = board_with(4, 4, &[(1, 1)]);
    game.open(0, 0);
    let before = states(&game);
    game.open(0, 0);
    assert_eq!(states(&game), before);
    assert_eq!(game.state(), GameState::Continue);
    game.open(3, 3);
    let before = states(&game);
    game.open(3, 3);
    assert_eq!(states(&game), before);
}

#[test]
fn opening_a_mine_loses_without_revealing() {
    let mut game = board_with(3, 3, &[(1, 1), (2, 2)]);
    let before = states(&game);
    game.open(1, 1);
    assert_eq!(game.state(), GameState::Lost);
    assert_eq!(states(&game), before);
    // the outcome stays lost
    game.open(0, 0);
    assert_eq!(game.state(), GameState::Lost);
}

#[test]
fn win_needs_every_safe_cell_uncovered() {
    let mut game = board_with(3, 1, &[(2, 0)]);
    game.open(1, 0);
    assert_eq!(game.cell_state(0, 0), Some(CellState::Covered));
    assert_eq!(game.state(), GameState::Continue);
    game.open(0, 0);
    assert_eq!(game.state(), GameState::Won);
    // a won game stays won, also when a mine is opened afterwards
    game.open(2, 0);
    assert_eq!(game.state(), GameState::Won);
}

#[test]
fn opening_off_the_grid_does_nothing() {
    let mut game = board_with(2, 2, &[(0, 0)]);
    let before = states(&game);
    game.open(2, 0);
    game.open(0, 2);
    assert_eq!(states(&game), before);
    assert_eq!(game.state(), GameState::Continue);
}
