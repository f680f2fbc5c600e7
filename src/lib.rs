//! A Minesweeper board engine: mine placement with adjacency counts,
//! flood-fill reveal, win detection and the game's state machine.

pub mod grid;
pub mod cell;
pub mod counting;
pub mod board;
pub mod game;
pub mod style;
