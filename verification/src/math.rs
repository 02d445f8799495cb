//! Sinc kernel design: the length of the windowed-sinc low-pass filter.
//!
//! The transition bandwidth is an exact rational `beta_num / beta_den`, and
//! the kernel length is the smallest odd integer no smaller than
//! `ceil(4 / max(beta, 1e-10))`.  A smaller bandwidth gives a longer,
//! sharper filter; the floor on the bandwidth keeps the length bounded.
//! The filter coefficients themselves are transcendental and are supplied by
//! the caller of the engine; their length comes from here.

use vstd::prelude::*;

verus! {

/// Reciprocal of the floor placed under the transition bandwidth.
pub const BETA_FLOOR_RECIP: u64 = 10_000_000_000;

/// `ceil(4 * BETA_FLOOR_RECIP)`: the largest raw length the floor allows.
pub const MAX_RAW_LEN: u64 = 40_000_000_000;

/// `ceil(4 / beta)` with `beta = beta_num / beta_den` clamped below to
/// `1 / BETA_FLOOR_RECIP`.
pub open spec fn clamped_ceil(beta_num: int, beta_den: int) -> int {
    if beta_num * BETA_FLOOR_RECIP < beta_den {
        MAX_RAW_LEN as int
    } else {
        (4 * beta_den + beta_num - 1) / beta_num
    }
}

/// The smallest odd integer no smaller than `l`.
pub open spec fn force_odd(l: int) -> int {
    if l % 2 == 0 {
        l + 1
    } else {
        l
    }
}

/// The kernel length that a transition bandwidth of `beta_num / beta_den`
/// calls for.
pub open spec fn kernel_len(beta_num: int, beta_den: int) -> int {
    force_odd(clamped_ceil(beta_num, beta_den))
}

/// Length of the windowed-sinc kernel for transition bandwidth
/// `beta_num / beta_den`: the smallest odd integer at least
/// `ceil(4 / max(beta, 1e-10))`.  A zero numerator stands for a bandwidth
/// that has collapsed to (or below) zero and is clamped like any bandwidth
/// under the floor.
pub fn sinc_filter_len(beta_num: u64, beta_den: u64) -> (r: u64)
    requires
        beta_den > 0,
    ensures
        r == kernel_len(beta_num as int, beta_den as int),
        r % 2 == 1,
        r >= 1,
{
    let num = beta_num as u128;
    let den = beta_den as u128;
    let raw: u64 = if num * (BETA_FLOOR_RECIP as u128) < den {
        MAX_RAW_LEN
    } else {
        let q: u128 = (4 * den + num - 1) / num;
        proof {
            assert(4 * den + num - 1 < num * (4 * (BETA_FLOOR_RECIP as int) + 1)) by (nonlinear_arith)
                requires
                    num >= 1,
                    den <= num * (BETA_FLOOR_RECIP as int),
            ;
            assert((4 * den + num - 1) as int / (num as int) <= MAX_RAW_LEN as int) by (nonlinear_arith)
                requires
                    num >= 1,
                    4 * den + num - 1 < num * ((MAX_RAW_LEN as int) + 1),
            ;
            assert(q <= MAX_RAW_LEN);
        }
        q as u64
    };
    if raw % 2 == 0 {
        raw + 1
    } else {
        raw
    }
}

} // verus!
