//! A Minesweeper board: hidden and revealed squares, mines laid after the
//! first move, adjacency numbers and the reveal of empty islands.

pub mod board;
pub mod board_view;
pub mod console_input;
pub mod facts;
pub mod square;
pub mod square_iter;
