//! Scalar helpers of the floating-point SILK analysis that work on integers.

use vstd::prelude::*;

verus! {

/// Saturation to the 16-bit sample range.
pub open spec fn spec_sat16(x: int) -> int {
    if x < -32768 {
        -32768
    } else if x > 32767 {
        32767
    } else {
        x
    }
}

/// Clamps `x` to `-32768..=32767`.
pub fn sat16(x: i32) -> (r: i32)
    ensures
        r == spec_sat16(x as int),
{
    if x < -32768 {
        -32768
    } else if x > 32767 {
        32767
    } else {
        x
    }
}

} // verus!
