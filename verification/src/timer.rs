//! Time: from ticks of the hardware counter to milliseconds and
//! microseconds.  Reading the counter is left to the caller.
use crate::config::{CLOCK_FREQ, MICRO_PER_SEC, MSEC_PER_SEC};
use vstd::arithmetic::div_mod::{
    lemma_div_is_ordered, lemma_fundamental_div_mod, lemma_fundamental_div_mod_converse,
};
use vstd::prelude::*;

verus! {

/// Whole units that have passed after `ticks` ticks, at `per_sec` units to
/// the second.
pub open spec fn spec_scale(ticks: int, per_sec: int) -> int {
    ticks * per_sec / (CLOCK_FREQ as int)
}

/// Whole microseconds that have passed after `ticks` ticks.
pub open spec fn spec_time_us(ticks: int) -> int {
    spec_scale(ticks, MICRO_PER_SEC as int)
}

/// Whole milliseconds that have passed after `ticks` ticks.
pub open spec fn spec_time_ms(ticks: int) -> int {
    spec_scale(ticks, MSEC_PER_SEC as int)
}

/// Whole units that have passed after `ticks` ticks, at `per_sec` units to
/// the second, computed without leaving the machine word.
fn scale(ticks: usize, per_sec: usize) -> (units: usize)
    requires
        0 < per_sec <= CLOCK_FREQ,
    ensures
        units == spec_scale(ticks as int, per_sec as int),
        units <= ticks,
{
    let whole: usize = ticks / CLOCK_FREQ;
    let part: usize = ticks % CLOCK_FREQ;
    assert(part * per_sec <= 12_500_000 * 12_500_000) by (nonlinear_arith)
        requires
            0 <= part < 12_500_000,
            0 < per_sec <= 12_500_000,
    ;
    let scaled: u64 = (part as u64) * (per_sec as u64);
    let extra: u64 = scaled / (CLOCK_FREQ as u64);
    proof {
        let f = CLOCK_FREQ as int;
        let p = per_sec as int;
        let t = ticks as int;
        let w = whole as int;
        let r = part as int;
        lemma_fundamental_div_mod(t, f);
        lemma_fundamental_div_mod(r * p, f);
        let e = (r * p) / f;
        let m = (r * p) % f;
        assert(t * p == (w * p + e) * f + m) by (nonlinear_arith)
            requires
                t == f * w + r,
                r * p == f * e + m,
        ;
        lemma_fundamental_div_mod_converse(t * p, f, w * p + e, m);
        assert(w * p <= w * f) by (nonlinear_arith)
            requires
                0 <= w,
                0 < p <= f,
        ;
        assert(e * f <= r * f) by (nonlinear_arith)
            requires
                r * p == f * e + m,
                0 <= m,
                0 <= r,
                0 < p <= f,
        ;
        assert(e <= r) by (nonlinear_arith)
            requires
                e * f <= r * f,
                f > 0,
        ;
    }
    whole * per_sec + extra as usize
}

/// Whole microseconds that have passed after `ticks` ticks.
pub fn get_time_us(ticks: usize) -> (us: usize)
    ensures
        us == spec_time_us(ticks as int),
{
    scale(ticks, MICRO_PER_SEC)
}

/// Whole milliseconds that have passed after `ticks` ticks.
pub fn get_time_ms(ticks: usize) -> (ms: usize)
    ensures
        ms == spec_time_ms(ticks as int),
{
    scale(ticks, MSEC_PER_SEC)
}

/// Time never runs backwards: a later reading of the counter gives no
/// earlier time, in microseconds and in milliseconds.
pub proof fn lemma_time_monotonic(earlier: int, later: int)
    requires
        0 <= earlier <= later,
    ensures
        spec_time_us(earlier) <= spec_time_us(later),
        spec_time_ms(earlier) <= spec_time_ms(later),
{
    assert(earlier * (MICRO_PER_SEC as int) <= later * (MICRO_PER_SEC as int)) by (nonlinear_arith)
        requires
            earlier <= later,
            MICRO_PER_SEC == 1_000_000,
    ;
    assert(earlier * (MSEC_PER_SEC as int) <= later * (MSEC_PER_SEC as int)) by (nonlinear_arith)
        requires
            earlier <= later,
            MSEC_PER_SEC == 1_000,
    ;
    lemma_div_is_ordered(
        earlier * (MICRO_PER_SEC as int),
        later * (MICRO_PER_SEC as int),
        CLOCK_FREQ as int,
    );
    lemma_div_is_ordered(
        earlier * (MSEC_PER_SEC as int),
        later * (MSEC_PER_SEC as int),
        CLOCK_FREQ as int,
    );
}

} // verus!
