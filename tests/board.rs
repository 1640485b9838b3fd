use msweeper::board::{Board, InvalidLevel};
use msweeper::square::SquareContent;

/// Draws that lay mines on `mines` (given in row order) with `(ex, ey)`
/// left free: each draw counts the free squares before its mine.
fn draws_for(width: u32, ex: u32, ey: u32, mines: &[(u32, u32)]) -> Vec<u32> {
    let e = ey * width + ex;
    mines
        .iter()
        .enumerate()
        .map(|(k, &(x, y))| {
            let m = y * width + x;
            m - k as u32 - if e < m { 1 } else { 0 }
        })
        .collect()
}

fn beginner_with(ex: u32, ey: u32, mines: &[(u32, u32)]) -> Board {
    let mut board = Board::new(1).unwrap();
    let draws = draws_for(board.width(), ex, ey, mines);
    board.add_mines_with(ex, ey, &draws);
    board
}

/// Mines that leave an empty 3 x 3 corner bordered by numbers.
const CORNER_LAYOUT: [(u32, u32); 10] =
    [(4, 0), (4, 2), (0, 4), (2, 4), (4, 4), (8, 6), (8, 7), (6, 8), (7, 8), (8, 8)];

fn count_mines(board: &Board) -> u32 {
    let mut n = 0;
    for y in 0..board.height() {
        for x in 0..board.width() {
            if board.square(x, y).is_mine() {
                n += 1;
            }
        }
    }
    n
}

fn neighbour_mines(board: &Board, x: u32, y: u32) -> u8 {
    let mut n = 0;
    for dy in -1i64..=1 {
        for dx in -1i64..=1 {
            let (nx, ny) = (x as i64 + dx, y as i64 + dy);
            if (dx, dy) != (0, 0)
                && nx >= 0
                && ny >= 0
                && nx < board.width() as i64
                && ny < board.height() as i64
                && board.square(nx as u32, ny as u32).is_mine()
            {
                n += 1;
            }
        }
    }
    n
}

#[test]
fn square_iter_test() {
    let board = Board::new(1).unwrap();
    assert_eq!(board.iter().count(), board.width() * board.height());
}

#[test]
fn levels_have_their_sizes() {
    let b1 = Board::new(1).unwrap();
    assert_eq!((b1.width(), b1.height(), b1.mines_left()), (9, 9, 10));
    let b2 = Board::new(2).unwrap();
    assert_eq!((b2.width(), b2.height(), b2.mines_left()), (16, 16, 40));
    assert_eq!(b2.iter().count(), 256);
}

#[test]
fn unknown_level_is_refused() {
    assert_eq!(Board::new(0).err(), Some(InvalidLevel { level: 0 }));
    assert_eq!(Board::new(3).err(), Some(InvalidLevel { level: 3 }));
}

#[test]
fn new_board_is_hidden_and_empty() {
    let board = Board::new(1).unwrap();
    assert!(board.first_turn());
    assert!(board.game_running());
    assert!(!board.defeat());
    assert!(!board.no_moves_left());
    let mut it = board.iter();
    while let Some(s) = it.next() {
        assert!(s.is_hidden() && !s.is_marked() && s.is_empty() && !s.is_mine());
    }
}

#[test]
fn first_reveal_is_never_a_mine() {
    for level in 1..=2u8 {
        for _ in 0..20 {
            let mut board = Board::new(level).unwrap();
            board.show_square(3, 5);
            assert!(!board.square(3, 5).is_mine());
            assert!(!board.square(3, 5).is_hidden());
            assert!(!board.defeat());
            assert!(!board.first_turn());
        }
    }
}

#[test]
fn placement_lays_exactly_the_mines() {
    for level in 1..=2u8 {
        let mut board = Board::new(level).unwrap();
        let total = board.mines_left() as u32;
        board.show_square(0, 0);
        assert_eq!(count_mines(&board), total);
    }
}

#[test]
fn random_layouts_differ() {
    let mut layouts = Vec::new();
    for _ in 0..20 {
        let mut board = Board::new(2).unwrap();
        board.add_mines(0, 0);
        let mut layout = Vec::new();
        for y in 0..16 {
            for x in 0..16 {
                layout.push(board.square(x, y).is_mine());
            }
        }
        layouts.push(layout);
    }
    assert!(layouts.iter().any(|l| *l != layouts[0]));
}

#[test]
fn draws_pick_free_squares_in_row_order() {
    // With nothing excluded before it, the draw 0 takes the first square.
    let mut board = Board::new(1).unwrap();
    board.add_mines_with(8, 8, &vec![0, 0, 0, 0, 0, 0, 0, 0, 0, 0]);
    for x in 0..9 {
        assert_eq!(board.square(x, 0).is_mine(), true);
    }
    assert!(board.square(0, 1).is_mine());
    assert!(!board.square(1, 1).is_mine());
    // The excluded square is skipped, and draws wrap around the free count.
    let mut board = Board::new(1).unwrap();
    board.add_mines_with(0, 0, &vec![80, 0, 0, 0, 0, 0, 0, 0, 0, 0]);
    assert!(!board.square(0, 0).is_mine());
    assert!(board.square(1, 0).is_mine());
    assert_eq!(count_mines(&board), 10);
}

#[test]
fn numbers_count_adjacent_mines() {
    let board = beginner_with(1, 1, &CORNER_LAYOUT);
    assert_eq!(count_mines(&board), 10);
    for y in 0..9 {
        for x in 0..9 {
            let s = board.square(x, y);
            if !s.is_mine() {
                let n = neighbour_mines(&board, x, y);
                if n == 0 {
                    assert_eq!(s.content(), SquareContent::Empty);
                } else {
                    assert_eq!(s.content(), SquareContent::Value(n));
                }
            }
        }
    }
    assert_eq!(board.square(3, 3).content(), SquareContent::Value(3));
    assert_eq!(board.square(3, 1).content(), SquareContent::Value(2));
    assert_eq!(board.square(7, 7).content(), SquareContent::Value(5));
    assert_eq!(board.square(2, 2).content(), SquareContent::Empty);
}

#[test]
fn flood_reveals_island_and_border() {
    let mut board = beginner_with(1, 1, &CORNER_LAYOUT);
    board.show_square(1, 1);
    for y in 0..9 {
        for x in 0..9 {
            let inside = x <= 3 && y <= 3;
            assert_eq!(!board.square(x, y).is_hidden(), inside, "square ({}, {})", x, y);
        }
    }
    assert!(board.game_running());
}

#[test]
fn numbered_square_is_revealed_alone() {
    let mut board = beginner_with(1, 1, &CORNER_LAYOUT);
    board.show_square(3, 3);
    let shown = (0..81).filter(|i| !board.square(i % 9, i / 9).is_hidden()).count();
    assert_eq!(shown, 1);
    assert!(!board.square(3, 3).is_hidden());
}

#[test]
fn win_when_only_mines_are_hidden() {
    let mut board = beginner_with(1, 1, &CORNER_LAYOUT);
    for y in 0..9 {
        for x in 0..9 {
            if !board.square(x, y).is_mine() && board.square(x, y).is_hidden() {
                assert!(board.game_running());
                board.show_square(x, y);
            }
        }
    }
    assert!(board.no_moves_left());
    assert!(!board.defeat());
    assert!(!board.game_running());
}

#[test]
fn loss_when_a_mine_is_revealed() {
    let mut board = beginner_with(1, 1, &CORNER_LAYOUT);
    board.show_square(1, 1);
    board.show_square(4, 0);
    assert!(board.defeat());
    assert!(!board.game_running());
    assert!(!board.square(4, 0).is_hidden());
}

#[test]
fn marking_twice_is_marking_once() {
    let mut board = beginner_with(1, 1, &CORNER_LAYOUT);
    board.mark_square(4, 0);
    assert!(board.square(4, 0).is_marked());
    assert_eq!(board.mines_left(), 9);
    board.mark_square(4, 0);
    assert!(board.square(4, 0).is_marked());
    assert!(board.square(4, 0).is_hidden());
    assert_eq!(board.mines_left(), 9);
}

#[test]
fn revealing_a_marked_square_clears_the_mark() {
    let mut board = beginner_with(1, 1, &CORNER_LAYOUT);
    board.mark_square(3, 3);
    board.show_square(3, 3);
    assert!(!board.square(3, 3).is_marked());
    assert!(!board.square(3, 3).is_hidden());
    assert_eq!(board.mines_left(), 10);
    // A marked square inside an empty island is cleared by the flood.
    board.mark_square(0, 0);
    let mut fresh = beginner_with(1, 1, &CORNER_LAYOUT);
    fresh.mark_square(0, 0);
    fresh.show_square(2, 2);
    assert!(!fresh.square(0, 0).is_marked());
    assert!(!fresh.square(0, 0).is_hidden());
}

#[test]
fn mines_left_can_go_negative() {
    let mut board = Board::new(1).unwrap();
    for i in 0..12 {
        board.mark_square(i % 9, i / 9);
    }
    assert_eq!(board.mines_left(), -2);
}

#[test]
fn off_board_commands_change_nothing() {
    let mut board = beginner_with(1, 1, &CORNER_LAYOUT);
    let before: Vec<(bool, bool, SquareContent)> =
        (0..81).map(|i| board.square(i % 9, i / 9)).map(|s| (s.is_hidden(), s.is_marked(), s.content())).collect();
    board.show_square(9, 0);
    board.show_square(0, 9);
    board.show_square(u32::MAX, u32::MAX);
    board.mark_square(9, 3);
    board.mark_square(3, 100);
    let after: Vec<(bool, bool, SquareContent)> =
        (0..81).map(|i| board.square(i % 9, i / 9)).map(|s| (s.is_hidden(), s.is_marked(), s.content())).collect();
    assert_eq!(before, after);
    let mut fresh = Board::new(1).unwrap();
    fresh.show_square(9, 9);
    assert!(fresh.first_turn());
    assert_eq!(count_mines(&fresh), 0);
}

#[test]
fn is_valid_checks_both_coordinates() {
    let board = Board::new(1).unwrap();
    assert!(board.is_valid(0, 0));
    assert!(board.is_valid(8, 8));
    assert!(!board.is_valid(9, 0));
    assert!(!board.is_valid(0, 9));
    assert!(!board.is_valid(-1, 3));
}

#[test]
fn iterator_walks_rows_in_order() {
    let board = beginner_with(1, 1, &CORNER_LAYOUT);
    let mut it = board.iter();
    let mut i = 0u32;
    while let Some(s) = it.next() {
        assert_eq!(s.is_mine(), board.square(i % 9, i / 9).is_mine());
        i += 1;
    }
    assert_eq!(i, 81);
    assert!(it.next().is_none());
}
