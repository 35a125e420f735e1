use vstd::prelude::*;

verus! {

/// Clamp `this` into the closed interval `[min, max]`.
pub fn constrain(this: i32, min: i32, max: i32) -> (r: i32)
    requires
        min < max,
    ensures
        r == if this < min {
            min
        } else if this > max {
            max
        } else {
            this
        },
{
    if this < min {
        return min;
    } else if this > max {
        return max;
    }
    this
}

} // verus!
