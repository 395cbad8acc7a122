//! The game: the player walks a generated maze from its first cell to its
//! last.

pub mod game_state;
