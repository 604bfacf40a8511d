use vstd::prelude::*;

verus! {

/// The way a ship extends from its anchor cell: rightward or downward.
#[derive(PartialEq, Eq, Structural, Clone, Copy, Debug)]
pub enum Direction {
    Horizontal,
    Vertical,
}

} // verus!
