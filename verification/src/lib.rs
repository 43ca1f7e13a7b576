//! A turn-based territory-conquest game: the board, the rules by which
//! armies move and fight, what each player can see through the fog of war,
//! and a path-searching computer player.

pub mod board;
pub mod bot;
pub mod cell;
pub mod connectivity;
pub mod generate;
pub mod laws;
pub mod limits;
pub mod map;
pub mod moves;
mod random;
pub mod rank;
pub mod search;
pub mod target;
