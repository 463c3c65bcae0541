use vstd::prelude::*;

verus! {

/// Location in a board.
/// (0, 0) stands for the bottom-left cell in the board.
#[derive(Clone, Copy)]
pub struct Location {
    pub x: i8,
    pub y: i8,
}

} // verus!
