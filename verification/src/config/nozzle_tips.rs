use vstd::prelude::*;

verus! {

/// Default pick and place dwell, in milliseconds.
pub fn default_dwell() -> (ms: u32)
    ensures
        ms == 200,
{
    200
}

} // verus!
