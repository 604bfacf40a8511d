use vstd::prelude::*;

verus! {

/// A (row, column) coordinate on the board.
#[derive(PartialEq, Eq, Structural, Clone, Copy, Debug)]
pub struct Position {
    pub(crate) row: usize,
    pub(crate) column: usize,
}

impl Position {
    pub closed spec fn spec_row(&self) -> nat {
        self.row as nat
    }

    pub closed spec fn spec_column(&self) -> nat {
        self.column as nat
    }

    pub fn new(row: usize, column: usize) -> (r: Position)
        ensures
            r.spec_row() == row,
            r.spec_column() == column,
            forall|p: Position|
                #![trigger p.spec_row(), p.spec_column()]
                p == r <==> (p.spec_row() == row && p.spec_column() == column),
    {
        Position { row, column }
    }

    pub fn row(&self) -> (r: usize)
        ensures
            r == self.spec_row(),
    {
        self.row
    }

    pub fn column(&self) -> (r: usize)
        ensures
            r == self.spec_column(),
    {
        self.column
    }
}

} // verus!
