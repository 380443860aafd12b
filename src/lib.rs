use vstd::prelude::*;

pub mod board;
pub mod game;
pub mod line;
mod random;

pub use board::{BoardError, BoardState, Direction};
pub use game::Playable;

verus! {

} // verus!
