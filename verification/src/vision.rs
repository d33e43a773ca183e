//! Defaults of the vision configuration that are not floating point.

use vstd::prelude::*;

verus! {

/// Default block size of the adaptive threshold, in pixels.
pub fn default_block_size() -> (n: i32)
    ensures
        n == 11,
{
    11
}

/// Default kernel size of the blur, in pixels.
pub fn default_blur_ksize() -> (n: i32)
    ensures
        n == 9,
{
    9
}

/// Default of the vision switches that are on unless set.
pub fn default_true() -> (b: bool)
    ensures
        b,
{
    true
}

} // verus!
