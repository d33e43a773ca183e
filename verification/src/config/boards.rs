use vstd::prelude::*;

verus! {

/// Which side of the board a component sits on.
#[derive(Debug, Clone, Copy, PartialEq, Eq, Structural)]
pub enum BoardSide {
    Top,
    Bottom,
}

impl Default for BoardSide {
    fn default() -> (s: Self)
        ensures
            s == BoardSide::Top,
    {
        BoardSide::Top
    }
}

/// Placements are enabled unless configured otherwise.
pub fn default_true() -> (b: bool)
    ensures
        b,
{
    true
}

} // verus!
