use vstd::prelude::*;

verus! {

/// `r` is the integer square root of `v`: the largest `r` with `r * r <= v`.
pub open spec fn is_floor_root(v: int, r: int) -> bool {
    0 <= r && r * r <= v && v < (r + 1) * (r + 1)
}

/// Every `u32` has its square root below this bound (its square exceeds `u32::MAX`).
pub const ROOT_BOUND: u64 = 65536;

/// The largest `r` with `r * r <= v`, found by bisection between a root that
/// is small enough and one that is too large.
pub fn sqrt_floor(v: u32) -> (r: u32)
    ensures
        is_floor_root(v as int, r as int),
{
    if v <= 1 {
        assert(v * v <= v && v < (v + 1) * (v + 1)) by (nonlinear_arith)
            requires
                v <= 1,
        ;
        return v;
    }
    let mut min_root: u64 = 1;
    let mut top: u64 = if (v as u64) < ROOT_BOUND {
        v as u64
    } else {
        ROOT_BOUND
    };
    assert(v < top * top) by (nonlinear_arith)
        requires
            2 <= v,
            top == v || top == 65536,
    ;
    while min_root + 1 < top
        invariant
            1 <= min_root < top <= ROOT_BOUND,
            min_root * min_root <= v,
            v < top * top,
        decreases top - min_root,
    {
        let middle: u64 = (min_root + top) / 2;
        assert(middle * middle <= 65536 * 65536) by (nonlinear_arith)
            requires
                middle <= 65536,
        ;
        if middle * middle <= v as u64 {
            min_root = middle;
        } else {
            top = middle;
        }
    }
    min_root as u32
}

} // verus!
