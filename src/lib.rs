use vstd::prelude::*;

pub mod bag;
pub mod board;
pub mod codec;
pub mod conservation;
pub mod bowl;
pub mod game_move;
pub mod gamestate;
pub mod laws;
pub mod protocol;

verus! {

/// A tile is identified by its type alone, an integer below the board dimension.
pub type Tile = usize;

} // verus!
