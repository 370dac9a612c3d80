//! Milliseconds from the generic timer's counter and frequency registers.
use vstd::prelude::*;

verus! {

/// Milliseconds since the counter started: `cntpct * 1000 / cntfrq` in
/// 128-bit arithmetic, cut to an `i64` (the registers are read by the
/// caller). `requires` leaves out a zero frequency.
pub fn now_millis(cntpct: u64, cntfrq: u64) -> (ms: i64)
    requires
        cntfrq != 0,
    ensures
        ms == ((cntpct as int * 1000) / (cntfrq as int)) as i64,
{
    let p = cntpct as u128;
    assert(p * 1000 <= u128::MAX) by (nonlinear_arith)
        requires
            p <= u64::MAX,
    ;
    let q = (p * 1000) / (cntfrq as u128);
    #[verifier::truncate]
    (q as i64)
}

} // verus!
