//! Saturating fixed-point arithmetic used by the control loop.

use vstd::prelude::*;

verus! {

/// Clamps a mathematical integer into the `u64` range from above.
pub open spec fn cap64(x: int) -> int {
    if x > u64::MAX as int {
        u64::MAX as int
    } else {
        x
    }
}

/// `a * num / den`, rounded down and saturated at `u64::MAX`.
pub fn mul_div(a: u64, num: u64, den: u64) -> (r: u64)
    requires
        den > 0,
    ensures
        r as int == cap64(a as int * num as int / den as int),
{
    proof {
        assert(a as int * num as int <= u64::MAX as int * u64::MAX as int) by (nonlinear_arith)
            requires
                a as int <= u64::MAX as int,
                num as int <= u64::MAX as int,
        ;
    }
    let p: u128 = (a as u128) * (num as u128);
    let q: u128 = p / (den as u128);
    if q > u64::MAX as u128 {
        u64::MAX
    } else {
        q as u64
    }
}

/// `a + b` saturated at `u64::MAX`.
pub fn sat_add(a: u64, b: u64) -> (r: u64)
    ensures
        r as int == cap64(a as int + b as int),
{
    let s: u128 = (a as u128) + (b as u128);
    if s > u64::MAX as u128 {
        u64::MAX
    } else {
        s as u64
    }
}

/// `a - b`, clamped at zero.
pub fn sat_sub(a: u64, b: u64) -> (r: u64)
    ensures
        r as int == if a >= b {
            a - b
        } else {
            0
        },
{
    if a >= b {
        a - b
    } else {
        0
    }
}

/// The headroom a dimension leaves for background work: 90% of what the
/// cap leaves over after foreground usage (with background consumption
/// added back so it is not double-counted), but never less than 10% of
/// the cap.
pub open spec fn avail_spec(total_quota: int, current_used: int, bg_consumed: int) -> int {
    let headroom = if total_quota + bg_consumed >= current_used {
        (total_quota + bg_consumed - current_used) * 9 / 10
    } else {
        0
    };
    let floor10 = total_quota / 10;
    cap64(
        if headroom >= floor10 {
            headroom
        } else {
            floor10
        },
    )
}

/// Computes the available quota for one dimension (`avail_spec`).
pub fn available_quota(total_quota: u64, current_used: u64, bg_consumed: u64) -> (r: u64)
    ensures
        r as int == avail_spec(total_quota as int, current_used as int, bg_consumed as int),
{
    let sum: u128 = (total_quota as u128) + (bg_consumed as u128);
    let headroom: u128 = if sum >= current_used as u128 {
        (sum - (current_used as u128)) * 9 / 10
    } else {
        0
    };
    let floor10: u128 = (total_quota / 10) as u128;
    let m: u128 = if headroom >= floor10 {
        headroom
    } else {
        floor10
    };
    if m > u64::MAX as u128 {
        u64::MAX
    } else {
        m as u64
    }
}

} // verus!
