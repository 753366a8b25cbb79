//! A verified Minesweeper engine: a grid of cells tracking mine placement,
//! opened and flagged state, the flood-fill reveal that cascades through an
//! empty region, and the game session that turns pointer input into grid
//! actions and tracks win or loss.

pub mod grid;
pub mod field;
pub mod game;
