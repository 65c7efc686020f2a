//! The game engine: board, lines, rules, move generation and game state.
pub mod bits;
pub mod board;
pub mod line;
pub mod line_index;
pub mod moves;
pub mod rules;
pub mod state;
pub mod io;
