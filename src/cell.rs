use vstd::prelude::*;

verus! {

/// Who holds a cell: nobody, or one of the two players.
#[derive(Debug, Clone, Copy, PartialEq, Eq, Structural)]
pub enum Ownership {
    Unowned,
    Player1,
    Player2,
}

/// One hexagonal cell: its coordinates on the board and its owner.
#[derive(Debug, Clone, Copy, PartialEq, Eq, Structural)]
pub struct Cell {
    pub x: usize,
    pub y: usize,
    pub ownership: Ownership,
}

impl Cell {
    /// An unowned cell at `(x, y)`.
    pub fn new(x: usize, y: usize) -> (r: Cell)
        ensures
            r.x == x,
            r.y == y,
            r.ownership == Ownership::Unowned,
    {
        Cell { x, y, ownership: Ownership::Unowned }
    }

    /// A cell at `(x, y)` held by `ownership`.
    pub fn new_from_ownership(x: usize, y: usize, ownership: Ownership) -> (r: Cell)
        ensures
            r.x == x,
            r.y == y,
            r.ownership == ownership,
    {
        Cell { x, y, ownership }
    }
}

} // verus!
