//! One position of the board.

use vstd::prelude::*;

verus! {

/// What a cell holds; fixed once the board is generated.
#[derive(Clone, Copy, Debug, PartialEq, Eq, Structural)]
pub enum CellKind {
    Mine,
    /// A safe cell, with the number of mines among its neighbours.
    SafeWithCount(usize),
}

/// One position of the board: its content, and whether the player has
/// revealed it.
#[derive(Clone, Copy, Debug, PartialEq, Eq, Structural)]
pub struct Cell {
    pub is_opened: bool,
    pub kind: CellKind,
}

pub open spec fn is_mine(c: Cell) -> bool {
    c.kind is Mine
}

/// A closed safe cell with no mine around it: revealing it reveals its neighbours.
pub open spec fn expands(c: Cell) -> bool {
    !c.is_opened && c.kind == CellKind::SafeWithCount(0)
}

impl Default for Cell {
    /// A closed safe cell with a count of zero.
    fn default() -> (c: Cell)
        ensures
            c == (Cell { is_opened: false, kind: CellKind::SafeWithCount(0) }),
    {
        Cell { is_opened: false, kind: CellKind::SafeWithCount(0) }
    }
}

} // verus!
