use crate::location::Location;
use vstd::prelude::*;

pub mod grid_text;
pub mod row_oriented_bit_board;

verus! {

/// Number of playable columns in every board.
pub const BOARD_WIDTH: usize = 10;

/// The capability contract that a concrete board representation satisfies.
///
/// The spec members describe the representation abstractly: `capacity` is the
/// fixed number of storable rows, `inv` its validity invariant, and the
/// `*_req` / `*_ens` functions say what each operation requires and what it
/// guarantees. The exec methods are bound to those descriptions, so every
/// implementation must keep its ceiling constant under `set` and
/// `erase_filled_lines`.
pub trait Board: Clone + Sized {
    type Cell;

    /// Fixed number of storable rows.
    spec fn capacity(&self) -> nat;

    /// Validity invariant of the representation.
    spec fn inv(&self) -> bool;

    /// What `get` asks of its caller.
    spec fn get_req(&self, location: Location) -> bool;

    /// What `get` says of the returned cell.
    spec fn get_ens(&self, location: Location, cell: Self::Cell) -> bool;

    /// What `set` asks of its caller.
    spec fn set_req(&self, location: Location, cell: Self::Cell) -> bool;

    /// How the board after `set` relates to the board before it, and what the
    /// returned previous cell value is.
    spec fn set_ens(&self, post: Self, location: Location, cell: Self::Cell, prev: Self::Cell) -> bool;

    /// How the board after `erase_filled_lines` relates to the board before
    /// it, and what the returned count is.
    spec fn erase_ens(&self, post: Self, erased: usize) -> bool;

    /// Total row capacity of the board.
    fn ceil(&self) -> (r: usize)
        requires
            self.inv(),
        ensures
            r as nat == self.capacity(),
    ;

    /// Read the occupancy at `location`.
    fn get(&self, location: Location) -> (cell: Self::Cell)
        requires
            self.inv(),
            self.get_req(location),
        ensures
            self.get_ens(location, cell),
    ;

    /// Write the occupancy at `location`, returning the value the cell held
    /// immediately before this write.
    fn set(&mut self, location: Location, cell: Self::Cell) -> (prev: Self::Cell)
        requires
            old(self).inv(),
            old(self).set_req(location, cell),
        ensures
            final(self).inv(),
            final(self).capacity() == old(self).capacity(),
            old(self).set_ens(*final(self), location, cell, prev),
    ;

    /// Remove every fully occupied row, shifting the rows above each down and
    /// refilling the vacated top rows as empty. Returns the number of rows
    /// removed.
    fn erase_filled_lines(&mut self) -> (erased: usize)
        requires
            old(self).inv(),
        ensures
            final(self).inv(),
            final(self).capacity() == old(self).capacity(),
            old(self).erase_ens(*final(self), erased),
    ;
}

} // verus!
