//! A Minesweeper board engine: a rectangular grid of cells with mines,
//! cascading reveal of safe regions, flags, and win/loss detection.

pub mod game;

pub mod laws;

pub use game::{BoardView, CellState, Game, GameCell, GameState};
