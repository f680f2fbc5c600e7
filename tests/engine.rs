use mines::board::Board;
use mines::cell::{Cell, CellKind};
use mines::game::{ConfigError, Game, GameState};
use mines::grid::neighbors;
use mines::style::Button;

fn mines_of(b: &Board) -> Vec<usize> {
    (0..b.len()).filter(|&k| b.cell(k).kind == CellKind::Mine).collect()
}

fn opened_of(b: &Board) -> Vec<usize> {
    (0..b.len()).filter(|&k| b.cell(k).is_opened).collect()
}

fn brute_count(b: &Board, k: usize) -> usize {
    let n = b.side_len() as i64;
    let (r, c) = ((k as i64) / n, (k as i64) % n);
    let mut total = 0;
    for dr in -1i64..=1 {
        for dc in -1i64..=1 {
            if dr == 0 && dc == 0 {
                continue;
            }
            let (rr, cc) = (r + dr, c + dc);
            if rr >= 0 && rr < n && cc >= 0 && cc < n {
                if b.cell((rr * n + cc) as usize).kind == CellKind::Mine {
                    total += 1;
                }
            }
        }
    }
    total
}

fn board_with(n: usize, mines: &[usize]) -> Board {
    let mut b = Board::empty(n);
    for &m in mines {
        b.place_mine(m);
    }
    b
}

#[test]
fn default_cell_is_closed_zero() {
    let c = Cell::default();
    assert!(!c.is_opened);
    assert_eq!(c.kind, CellKind::SafeWithCount(0));
}

#[test]
fn neighbors_of_corner_edge_and_centre() {
    assert_eq!(neighbors(3, 0), vec![1, 3, 4]);
    assert_eq!(neighbors(3, 4), vec![0, 1, 2, 3, 5, 6, 7, 8]);
    assert_eq!(neighbors(3, 5), vec![1, 2, 4, 7, 8]);
    assert_eq!(neighbors(1, 0), Vec::<usize>::new());
}

#[test]
fn placed_mines_raise_neighbour_counts() {
    let b = board_with(3, &[0, 8]);
    assert_eq!(b.cell(0).kind, CellKind::Mine);
    assert_eq!(b.cell(8).kind, CellKind::Mine);
    assert_eq!(b.cell(4).kind, CellKind::SafeWithCount(2));
    assert_eq!(b.cell(1).kind, CellKind::SafeWithCount(1));
    assert_eq!(b.cell(2).kind, CellKind::SafeWithCount(0));
    assert_eq!(b.cell(6).kind, CellKind::SafeWithCount(0));
    assert_eq!(b.cell(7).kind, CellKind::SafeWithCount(1));
    assert_eq!(b.mine_count(), 2);
}

#[test]
fn adjacent_mines_do_not_count_each_other() {
    let b = board_with(3, &[0, 1]);
    assert_eq!(b.cell(0).kind, CellKind::Mine);
    assert_eq!(b.cell(1).kind, CellKind::Mine);
    assert_eq!(b.cell(3).kind, CellKind::SafeWithCount(2));
    assert_eq!(b.cell(2).kind, CellKind::SafeWithCount(1));
}

#[test]
fn drawn_mine_takes_the_drawn_safe_cell() {
    let mut b = Board::empty(3);
    b.place_drawn_mine(0);
    assert_eq!(mines_of(&b), vec![0]);
    // 8 safe cells left: cells 1..=8; draw 3 picks the fourth of them.
    b.place_drawn_mine(3);
    assert_eq!(mines_of(&b), vec![0, 4]);
    // 7 safe cells left: 1, 2, 3, 5, 6, 7, 8; 16 % 7 == 2 picks cell 3.
    b.place_drawn_mine(16);
    assert_eq!(mines_of(&b), vec![0, 3, 4]);
}

#[test]
fn generated_counts_match_neighbour_mines() {
    for _ in 0..20 {
        let b = Board::generate(10, 20);
        for k in 0..b.len() {
            if let CellKind::SafeWithCount(count) = b.cell(k).kind {
                assert_eq!(count, brute_count(&b, k));
                assert!(count <= 8);
            }
        }
    }
}

#[test]
fn generated_board_holds_exactly_m_mines() {
    for m in [0usize, 1, 5, 24] {
        let b = Board::generate(5, m);
        assert_eq!(mines_of(&b).len(), m);
        assert_eq!(b.mine_count(), m);
        assert_eq!(b.len(), 25);
        assert!(opened_of(&b).is_empty());
    }
}

#[test]
fn generated_boards_differ() {
    let first = mines_of(&Board::generate(10, 20));
    let differs = (0..10).any(|_| mines_of(&Board::generate(10, 20)) != first);
    assert!(differs);
}

#[test]
fn open_twice_is_open_once() {
    let mut once = board_with(4, &[15]);
    once.open_empty_cells(0);
    let after_once = opened_of(&once);
    once.open_empty_cells(0);
    assert_eq!(opened_of(&once), after_once);

    let mut numbered = board_with(4, &[15]);
    numbered.open_empty_cells(10);
    assert_eq!(opened_of(&numbered), vec![10]);
    numbered.open_empty_cells(10);
    assert_eq!(opened_of(&numbered), vec![10]);
}

#[test]
fn flood_fill_stops_at_numbered_cells() {
    // 5 x 5, a wall of mines down column 2.
    let b0 = board_with(5, &[2, 7, 12, 17, 22]);
    let mut b = b0;
    b.open_empty_cells(0);
    // Column 0 has count 0, column 1 is numbered: only columns 0 and 1 open.
    assert_eq!(opened_of(&b), vec![0, 1, 5, 6, 10, 11, 15, 16, 20, 21]);
    for k in opened_of(&b) {
        assert!(b.cell(k).kind != CellKind::Mine);
    }
}

#[test]
fn flood_fill_opens_whole_zero_region() {
    let mut b = board_with(4, &[15]);
    b.open_empty_cells(0);
    // Every cell but the mine opens: the zero region reaches cells 10, 11 and 14.
    assert_eq!(opened_of(&b).len(), 15);
    assert!(!b.cell(15).is_opened);
    assert!(b.is_win());
}

#[test]
fn opening_a_mine_opens_only_it() {
    let mut b = board_with(3, &[4]);
    b.open_empty_cells(4);
    assert_eq!(opened_of(&b), vec![4]);
}

#[test]
fn open_all_mines_touches_only_mines() {
    let mut b = board_with(3, &[0, 8]);
    b.open_empty_cells(2);
    let before = opened_of(&b);
    b.open_mines();
    let mut expected = before.clone();
    expected.push(0);
    expected.push(8);
    expected.sort();
    assert_eq!(opened_of(&b), expected);
}

#[test]
fn is_won_ignores_mines() {
    let mut b = board_with(2, &[0]);
    assert!(!b.is_win());
    b.open_empty_cells(1);
    b.open_empty_cells(2);
    assert!(!b.is_win());
    b.open_empty_cells(3);
    assert!(b.is_win());
    b.open_mines();
    assert!(b.is_win());
}

#[test]
fn one_closed_safe_cell_is_no_win() {
    let mut b = board_with(3, &[4]);
    for k in [0usize, 1, 2, 3, 5, 6, 8] {
        b.open_empty_cells(k);
    }
    b.open_mines();
    assert!(!b.is_win());
    b.open_empty_cells(7);
    assert!(b.is_win());
}

#[test]
fn three_by_three_scenario_with_injected_mines() {
    let mut g = Game::from_board(board_with(3, &[0, 8]));
    g.select(4);
    assert_eq!(g.board().cell(4).kind, CellKind::SafeWithCount(2));
    assert_eq!(opened_of(g.board()), vec![4]);
    assert_eq!(g.state(), GameState::InProgress);
    // Cell 1 is numbered; cells 2 and 6 have no mine around and open their
    // neighbours, so the last safe cells open with cell 6.
    for (k, state) in [
        (1usize, GameState::InProgress),
        (2, GameState::InProgress),
        (3, GameState::InProgress),
        (5, GameState::InProgress),
        (6, GameState::Won),
        (7, GameState::Won),
    ] {
        g.select(k);
        assert_eq!(g.state(), state);
    }
    assert_eq!(opened_of(g.board()), vec![1, 2, 3, 4, 5, 6, 7]);
    assert!(!g.board().cell(0).is_opened);
    assert!(!g.board().cell(8).is_opened);
}

#[test]
fn selecting_a_mine_loses_and_shows_mines() {
    let mut g = Game::new(5, 5).unwrap();
    let mines = mines_of(g.board());
    assert_eq!(mines.len(), 5);
    g.select(mines[0]);
    assert_eq!(g.state(), GameState::Lost);
    for &m in &mines {
        assert!(g.board().cell(m).is_opened);
    }
    assert_eq!(opened_of(g.board()), mines);
}

#[test]
fn finished_rounds_ignore_selections() {
    let mut g = Game::from_board(board_with(3, &[0, 8]));
    g.select(0);
    assert_eq!(g.state(), GameState::Lost);
    let opened = opened_of(g.board());
    for k in 0..9 {
        g.select(k);
        assert_eq!(g.state(), GameState::Lost);
        assert_eq!(opened_of(g.board()), opened);
    }
    g.reset();
    assert_eq!(g.state(), GameState::InProgress);
    assert!(opened_of(g.board()).is_empty());
    assert_eq!(g.board().mine_count(), 2);
    assert_eq!(g.board().side_len(), 3);

    let mut w = Game::from_board(board_with(2, &[0]));
    w.select(1);
    w.select(2);
    assert_eq!(w.state(), GameState::InProgress);
    w.select(3);
    assert_eq!(w.state(), GameState::Won);
    w.select(0);
    assert_eq!(w.state(), GameState::Won);
    assert!(!w.board().cell(0).is_opened);
}

#[test]
fn config_errors() {
    assert_eq!(Game::new(3, 9).err(), Some(ConfigError::TooManyMines));
    assert_eq!(Game::new(3, 100).err(), Some(ConfigError::TooManyMines));
    assert_eq!(Game::new(0, 0).err(), Some(ConfigError::TooManyMines));
    assert_eq!(Game::new(usize::MAX, 1).err(), Some(ConfigError::BoardTooLarge));
    let g = Game::new(3, 8).unwrap();
    assert_eq!(mines_of(g.board()).len(), 8);
    assert_eq!(g.state(), GameState::InProgress);
}

#[test]
fn largest_mine_count_leaves_one_safe_cell() {
    let mut g = Game::new(4, 15).unwrap();
    let safe: Vec<usize> = (0..16).filter(|&k| g.board().cell(k).kind != CellKind::Mine).collect();
    assert_eq!(safe.len(), 1);
    g.select(safe[0]);
    assert_eq!(g.state(), GameState::Won);
}

#[test]
fn button_for_each_kind_of_cell() {
    let closed = Cell { is_opened: false, kind: CellKind::Mine };
    assert_eq!(Button::for_cell(closed), Button::NotOpened);
    let mine = Cell { is_opened: true, kind: CellKind::Mine };
    assert_eq!(Button::for_cell(mine), Button::Mine);
    let three = Cell { is_opened: true, kind: CellKind::SafeWithCount(3) };
    assert_eq!(Button::for_cell(three), Button::Empty(3));
}
