//! How a cell is drawn.

use vstd::prelude::*;
use crate::cell::{Cell, CellKind};

verus! {

/// The look of a cell's button: closed, an opened mine, or an opened safe
/// cell with its count.
#[derive(Clone, Copy, Debug, PartialEq, Eq, Structural)]
pub enum Button {
    NotOpened,
    Mine,
    Empty(i32),
}

impl Button {
    /// The look of cell `c`.
    pub fn for_cell(c: Cell) -> (b: Button)
        requires
            c.kind matches CellKind::SafeWithCount(k) ==> k <= i32::MAX,
        ensures
            !c.is_opened ==> b is NotOpened,
            c.is_opened && c.kind is Mine ==> b is Mine,
            c.is_opened ==> (c.kind matches CellKind::SafeWithCount(k) ==> b == Button::Empty(k as i32)),
    {
        if !c.is_opened {
            Button::NotOpened
        } else {
            match c.kind {
                CellKind::Mine => Button::Mine,
                CellKind::SafeWithCount(k) => Button::Empty(k as i32),
            }
        }
    }
}

} // verus!
