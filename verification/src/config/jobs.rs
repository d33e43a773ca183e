use vstd::prelude::*;

verus! {

/// Boards of a job are enabled unless configured otherwise.
pub fn default_true() -> (b: bool)
    ensures
        b,
{
    true
}

} // verus!
