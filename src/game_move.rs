use vstd::prelude::*;

use crate::codec::{nat_str, push_char, push_nat};
use crate::Tile;

verus! {

/// A row where taken tiles can be put.
#[derive(Debug, Clone, Copy, PartialEq, Eq, Structural)]
pub enum Row {
    /// Always available; tiles put here only count as penalties.
    Floor,
    /// The staging row with the given index, counted from the top.
    Wall(usize),
}

/// A move: which pool to take from, which tile type to take, and where to put the tiles.
#[derive(Debug, Clone, Copy, PartialEq, Eq, Structural)]
pub struct Move {
    pub bowl: usize,
    pub tile_type: Tile,
    pub row: Row,
}

/// Returned when a move is not legal in the current state.
#[derive(Debug, Clone, Copy, PartialEq, Eq, Structural)]
pub struct IllegalMoveError;

impl Row {
    /// The row as text: `-` for the floor, the wall row's index otherwise.
    pub fn fmt_text(&self) -> (r: String)
        ensures
            r@ == match *self {
                Row::Floor => seq!['-'],
                Row::Wall(i) => nat_str(i as nat),
            },
    {
        let mut s = String::new();
        match *self {
            Row::Floor => push_char(&mut s, '-'),
            Row::Wall(i) => push_nat(&mut s, i),
        }
        assert(s@ =~= match *self {
            Row::Floor => seq!['-'],
            Row::Wall(i) => nat_str(i as nat),
        });
        s
    }
}

} // verus!
