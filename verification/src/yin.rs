//! The YIN pitch detector: a pure function from a sample buffer to an
//! optional period estimate.
//!
//! The algorithm runs in four ordered steps over lags `tau` below
//! `max_lag = len / 2`:
//! 1. difference function `d(tau) = sum_i (x[i] - x[i + tau])^2`;
//! 2. cumulative-mean normalization `d'(tau) = d(tau) * tau / sum(d(2..=tau))`,
//!    held in fixed point with scale [`CMND_SCALE`];
//! 3. the first lag whose normalized difference drops below
//!    [`CMND_THRESHOLD`] is walked forward to the local minimum behind it;
//! 4. a parabola through the three normalized values around that lag refines
//!    it to a sub-sample rational.
//!
//! Each step has a spec-level twin (`diff`, `cmnd`, `candidate_search`,
//! `refined_lag`), and [`yin_pitch_detection`] is proved to return exactly
//! [`estimate_spec`] of its input.

use vstd::prelude::*;

verus! {

use vstd::arithmetic::div_mod::lemma_div_is_ordered;
use vstd::arithmetic::div_mod::lemma_div_multiples_vanish;

/// Largest admissible buffer length. Together with the 16-bit sample range it
/// keeps every intermediate value of the pipeline inside `u128`.
pub const MAX_SAMPLES: usize = 0x8000_0000;

/// Smallest lag ever considered a period candidate.
pub const MIN_LAG: usize = 2;

/// Fixed-point scale of the normalized difference: the value `1.0` of the
/// real-valued algorithm is stored as `CMND_SCALE`.
pub const CMND_SCALE: u64 = 1_000_000;

/// Absolute threshold on the normalized difference (`0.1` in fixed point).
pub const CMND_THRESHOLD: u64 = 100_000;

/// Upper bound on one squared sample difference: `65535 * 65535`.
pub const MAX_SQ_DIFF: u64 = 0xFFFE_0001;

/// Number of lags searched: half the buffer, so that `i + tau` stays inside
/// the buffer for every window index `i < max_lag` and lag `tau < max_lag`.
pub open spec fn max_lag(s: Seq<i16>) -> int {
    s.len() as int / 2
}

/// First `n` terms of the difference function at lag `tau`:
/// `sum_{i < n} (s[i] - s[i + tau])^2`.
pub open spec fn diff_part(s: Seq<i16>, tau: int, n: int) -> int
    decreases n,
{
    if n <= 0 {
        0
    } else {
        diff_part(s, tau, n - 1) + (s[n - 1] - s[n - 1 + tau]) * (s[n - 1] - s[n - 1 + tau])
    }
}

/// The difference function `d(tau)`, summed over the whole half-buffer window.
pub open spec fn diff(s: Seq<i16>, tau: int) -> int {
    diff_part(s, tau, max_lag(s))
}

/// Running sum of difference values over lags `2..=tau`. Lags 0 and 1 are
/// never part of the search, so their differences do not enter the sum.
pub open spec fn running_sum(s: Seq<i16>, tau: int) -> int
    decreases tau,
{
    if tau <= 1 {
        0
    } else {
        running_sum(s, tau - 1) + diff(s, tau)
    }
}

/// Cumulative-mean normalized difference in fixed point:
/// `d'(tau) = d(tau) * tau * CMND_SCALE / max(running_sum(tau), 1)`.
/// Lag 0 is the sentinel `1.0`; lag 1 carries no difference value and
/// normalizes to 0. The `max(.., 1)` guard keeps the division defined on a
/// silent (all-zero) buffer, where the running sum is 0.
pub open spec fn cmnd(s: Seq<i16>, tau: int) -> int {
    if tau == 0 {
        CMND_SCALE as int
    } else if tau == 1 {
        0
    } else {
        let den = if running_sum(s, tau) < 1 {
            1int
        } else {
            running_sum(s, tau)
        };
        diff(s, tau) * tau * (CMND_SCALE as int) / den
    }
}

/// Walk forward from `t` while the next normalized difference is strictly
/// smaller, landing on the local minimum behind a threshold crossing.
pub open spec fn local_min_from(s: Seq<i16>, t: int) -> int
    decreases max_lag(s) - t,
{
    if t + 1 < max_lag(s) && cmnd(s, t + 1) < cmnd(s, t) {
        local_min_from(s, t + 1)
    } else {
        t
    }
}

/// Scan lags upward from `tau`; the first one whose normalized difference
/// drops below the threshold yields a candidate, refined to the local
/// minimum behind it. `None` when no lag in range crosses the threshold.
pub open spec fn candidate_search(s: Seq<i16>, tau: int) -> Option<int>
    decreases max_lag(s) - tau,
{
    if tau >= max_lag(s) {
        Option::None
    } else if cmnd(s, tau) < CMND_THRESHOLD {
        Option::Some(local_min_from(s, tau))
    } else {
        candidate_search(s, tau + 1)
    }
}

/// Vertex of the parabola through `(t-1, s0)`, `(t, s1)`, `(t+1, s2)` as an
/// exact rational `(num, den)`: `t - b/(2a)` with `a = (s0 + s2 - 2*s1) / 2`
/// and `b = (s2 - s0) / 2`. A flat fit (`a == 0`) falls back to `(t, 1)`.
pub open spec fn parabola_vertex(t: int, s0: int, s1: int, s2: int) -> (int, int) {
    let a2 = s0 + s2 - 2 * s1;
    let b2 = s2 - s0;
    if a2 == 0 {
        (t, 1)
    } else {
        (2 * a2 * t - b2, 2 * a2)
    }
}

/// Sub-sample refinement of a selected lag `t`: the parabola vertex over the
/// three normalized values around `t`, or `(t, 1)` unchanged when `t` sits at
/// either end of the lag range and has no two neighbours.
pub open spec fn refined_lag(s: Seq<i16>, t: int) -> (int, int) {
    if t < 1 || t + 1 >= max_lag(s) {
        (t, 1)
    } else {
        parabola_vertex(t, cmnd(s, t - 1), cmnd(s, t), cmnd(s, t + 1))
    }
}

/// The whole estimator: `None` for buffers too short to search
/// (`max_lag < MIN_LAG + 2`, i.e. fewer than 8 samples) and for aperiodic
/// buffers where no lag crosses the threshold; otherwise the refined lag as
/// a rational `(num, den)`. The period in samples is `num / den`, and the
/// frequency for sample rate `r` is `r * den / num`.
pub open spec fn estimate_spec(s: Seq<i16>) -> Option<(int, int)> {
    if max_lag(s) < MIN_LAG + 2 {
        Option::None
    } else {
        match candidate_search(s, MIN_LAG as int) {
            Option::None => Option::None,
            Option::Some(t) => Option::Some(refined_lag(s, t)),
        }
    }
}

/// Every term of the difference function is a square, so each partial sum is
/// nonnegative and grows by at most [`MAX_SQ_DIFF`] per term.
pub proof fn lemma_diff_part_bounds(s: Seq<i16>, tau: int, n: int)
    requires
        0 <= n,
    ensures
        0 <= diff_part(s, tau, n) <= n * (MAX_SQ_DIFF as int),
    decreases n,
{
    if n > 0 {
        lemma_diff_part_bounds(s, tau, n - 1);
        let d = s[n - 1] - s[n - 1 + tau];
        assert(0 <= d * d <= MAX_SQ_DIFF as int) by (nonlinear_arith)
            requires
                -65536 < d < 65536,
        ;
    }
}

/// The running sum is a sum of nonnegative difference values, so it is
/// nonnegative and dominates its own last term.
pub proof fn lemma_running_sum_bounds(s: Seq<i16>, tau: int)
    ensures
        0 <= running_sum(s, tau),
        tau >= 2 ==> diff(s, tau) <= running_sum(s, tau),
    decreases tau,
{
    if tau >= 2 {
        lemma_running_sum_bounds(s, tau - 1);
        lemma_diff_part_bounds(s, tau, max_lag(s));
    }
}

/// Step 1: the difference buffer. Entry `t` holds `diff(samples, t)` for
/// every searched lag `t` in `[MIN_LAG, max_lag)`; entries 0 and 1 are never
/// searched and stay 0.
pub fn difference_function(samples: &Vec<i16>) -> (d: Vec<u64>)
    requires
        samples@.len() <= MAX_SAMPLES,
        max_lag(samples@) >= MIN_LAG,
    ensures
        d@.len() == max_lag(samples@),
        d@[0] == 0,
        d@[1] == 0,
        forall|t: int|
            MIN_LAG <= t < max_lag(samples@) ==> d@[t] == diff(samples@, t),
        forall|t: int| 0 <= t < max_lag(samples@) ==> d@[t] <= 0x3FFF_8000_4000_0000,
{
    let max_tau = samples.len() / 2;
    let mut d: Vec<u64> = Vec::new();
    d.push(0);
    d.push(0);
    let mut tau: usize = MIN_LAG;
    while tau < max_tau
        invariant
            MIN_LAG <= tau <= max_tau,
            max_tau == max_lag(samples@),
            samples@.len() <= MAX_SAMPLES,
            d@.len() == tau,
            d@[0] == 0,
            d@[1] == 0,
            forall|t: int| MIN_LAG <= t < tau ==> d@[t] == diff(samples@, t),
            forall|t: int| 0 <= t < tau ==> d@[t] <= 0x3FFF_8000_4000_0000,
        decreases max_tau - tau,
    {
        let mut sum: u64 = 0;
        let mut i: usize = 0;
        while i < max_tau
            invariant
                i <= max_tau,
                MIN_LAG <= tau < max_tau,
                max_tau == max_lag(samples@),
                samples@.len() <= MAX_SAMPLES,
                sum == diff_part(samples@, tau as int, i as int),
                sum <= i * (MAX_SQ_DIFF as int),
            decreases max_tau - i,
        {
            let delta: i32 = (samples[i] as i32) - (samples[i + tau] as i32);
            proof {
                assert(0 <= (delta as int) * (delta as int) <= MAX_SQ_DIFF as int)
                    by (nonlinear_arith)
                    requires
                        -65536 < delta < 65536,
                ;
            }
            let sq: i64 = (delta as i64) * (delta as i64);
            sum = sum + (sq as u64);
            i = i + 1;
        }
        d.push(sum);
        tau = tau + 1;
    }
    d
}

/// Step 2: the cumulative-mean normalized difference buffer, in fixed point.
/// Entry `t` holds `cmnd(samples, t)`; every entry is at most
/// `t * CMND_SCALE`, because the running sum in the divisor dominates the
/// difference value in the numerator.
pub fn cumulative_mean_normalized(samples: &Vec<i16>, d: &Vec<u64>) -> (cm: Vec<u64>)
    requires
        samples@.len() <= MAX_SAMPLES,
        max_lag(samples@) >= MIN_LAG,
        d@.len() == max_lag(samples@),
        d@[1] == 0,
        forall|t: int|
            MIN_LAG <= t < max_lag(samples@) ==> d@[t] == diff(samples@, t),
        forall|t: int| 0 <= t < max_lag(samples@) ==> d@[t] <= 0x3FFF_8000_4000_0000,
    ensures
        cm@.len() == max_lag(samples@),
        forall|t: int| 0 <= t < max_lag(samples@) ==> cm@[t] == cmnd(samples@, t),
        forall|t: int|
            1 <= t < max_lag(samples@) ==> cm@[t] <= t * (CMND_SCALE as int),
{
    let max_tau = samples.len() / 2;
    let mut cm: Vec<u64> = Vec::new();
    cm.push(CMND_SCALE);
    let mut rs: u128 = 0;
    let mut tau: usize = 1;
    while tau < max_tau
        invariant
            1 <= tau <= max_tau,
            max_tau == max_lag(samples@),
            samples@.len() <= MAX_SAMPLES,
            d@.len() == max_tau,
            d@[1] == 0,
            forall|t: int| MIN_LAG <= t < max_tau ==> d@[t] == diff(samples@, t),
            forall|t: int| 0 <= t < max_tau ==> d@[t] <= 0x3FFF_8000_4000_0000,
            cm@.len() == tau,
            forall|t: int| 0 <= t < tau ==> cm@[t] == cmnd(samples@, t),
            forall|t: int| 1 <= t < tau ==> cm@[t] <= t * (CMND_SCALE as int),
            rs == running_sum(samples@, tau - 1),
            rs <= (tau - 1) * 0x3FFF_8000_4000_0000,
        decreases max_tau - tau,
    {
        let ghost s = samples@;
        let ghost t = tau as int;
        let dt = d[tau];
        rs = rs + (dt as u128);
        proof {
            assert(rs == running_sum(s, t));
        }
        let val: u64;
        if dt == 0 {
            val = 0;
            proof {
                if t >= 2 {
                    assert(diff(s, t) * t * (CMND_SCALE as int) == 0);
                }
                assert(cmnd(s, t) == 0);
            }
        } else {
            proof {
                assert((dt as int) * (tau as int) < 0x100000000000000000000000) by (nonlinear_arith)
                    requires
                        0 <= dt <= 0x3FFF_8000_4000_0000,
                        0 <= tau <= 0x4000_0000,
                ;
            }
            let num: u128 = (dt as u128) * (tau as u128) * (CMND_SCALE as u128);
            let q: u128 = num / rs;
            proof {
                lemma_running_sum_bounds(s, t);
                assert(diff(s, t) <= rs);
                assert(num == diff(s, t) * t * (CMND_SCALE as int));
                assert(diff(s, t) * t * (CMND_SCALE as int) <= (rs as int) * (t
                    * (CMND_SCALE as int))) by (nonlinear_arith)
                    requires
                        0 <= diff(s, t) <= rs as int,
                        0 <= t,
                ;
                lemma_div_is_ordered(
                    num as int,
                    (rs as int) * (t * (CMND_SCALE as int)),
                    rs as int,
                );
                lemma_div_multiples_vanish(t * (CMND_SCALE as int), rs as int);
                assert(q <= t * (CMND_SCALE as int));
                assert(q == cmnd(s, t));
            }
            val = q as u64;
        }
        cm.push(val);
        tau = tau + 1;
    }
    cm
}

/// A refined period estimate: the lag `num / den` in sample units, as an
/// exact rational with `den != 0`.
#[derive(Clone, Copy, Debug, PartialEq, Eq, Structural)]
pub struct RefinedLag {
    pub num: i128,
    pub den: i128,
}

/// Parabolic interpolation around `tau` over the fixed-point normalized
/// difference buffer: the exact rational vertex of the parabola through the
/// three values at `tau - 1`, `tau`, `tau + 1`, or the unrefined `(tau, 1)`
/// when `tau` has no neighbour on one side.
pub fn parabolic_interpolation(cm: &Vec<u64>, tau: usize) -> (r: RefinedLag)
    requires
        cm@.len() <= 0x4000_0000,
    ensures
        r.den != 0,
        (tau < 1 || tau + 1 >= cm@.len()) ==> r == (RefinedLag { num: tau as i128, den: 1 }),
        (1 <= tau && tau + 1 < cm@.len()) ==> {
            let v = parabola_vertex(
                tau as int,
                cm@[tau as int - 1] as int,
                cm@[tau as int] as int,
                cm@[tau as int + 1] as int,
            );
            r.num == v.0 && r.den == v.1
        },
{
    if tau < 1 || tau >= cm.len() || tau + 1 == cm.len() {
        return RefinedLag { num: tau as i128, den: 1 };
    }
    let s0 = cm[tau - 1] as i128;
    let s1 = cm[tau] as i128;
    let s2 = cm[tau + 1] as i128;
    let a2 = s0 + s2 - 2 * s1;
    let b2 = s2 - s0;
    if a2 == 0 {
        RefinedLag { num: tau as i128, den: 1 }
    } else {
        let t = tau as i128;
        assert(-0x40000000000000000 <= 2 * a2 <= 0x40000000000000000);
        assert((2 * a2) * t <= 0x1000000000000000000000000 && (2 * a2) * t
            >= -0x1000000000000000000000000) by (nonlinear_arith)
            requires
                -0x40000000000000000 <= 2 * a2 <= 0x40000000000000000,
                0 <= t < 0x40000000,
        ;
        RefinedLag { num: 2 * a2 * t - b2, den: 2 * a2 }
    }
}

/// An executable result agrees with a spec-level estimate when both are
/// absent, or both are present with the same rational lag.
pub open spec fn lag_matches(r: Option<RefinedLag>, e: Option<(int, int)>) -> bool {
    match (r, e) {
        (Option::None, Option::None) => true,
        (Option::Some(l), Option::Some(nd)) => l.num == nd.0 && l.den == nd.1,
        _ => false,
    }
}

/// The YIN pitch detector. Returns the refined period of `samples` as an
/// exact rational lag, or `None` when the buffer is too short (fewer than 8
/// samples) or no lag's normalized difference drops below the threshold.
///
/// The result is exactly [`estimate_spec`] of the buffer: a pure function of
/// the samples alone, so two calls on the same buffer always agree. The
/// frequency for a sample rate `r` is `r * den / num`.
pub fn yin_pitch_detection(samples: &Vec<i16>) -> (result: Option<RefinedLag>)
    requires
        samples@.len() <= MAX_SAMPLES,
    ensures
        lag_matches(result, estimate_spec(samples@)),
        samples@.len() < 8 ==> result is None,
        match result {
            Option::Some(l) => l.den != 0,
            Option::None => true,
        },
{
    let ghost s = samples@;
    let max_tau = samples.len() / 2;
    if max_tau < MIN_LAG + 2 {
        return Option::None;
    }

    // Step 1: difference function.
    let d = difference_function(samples);
    // Step 2: cumulative-mean normalization.
    let cm = cumulative_mean_normalized(samples, &d);

    // Step 3: absolute threshold scan for the first candidate lag.
    let mut tau: usize = MIN_LAG;
    let mut cand: Option<usize> = Option::None;
    while tau < max_tau
        invariant_except_break
            cand is None,
            MIN_LAG <= tau <= max_tau,
            max_tau == max_lag(s),
            cm@.len() == max_tau,
            forall|i: int| 0 <= i < max_tau ==> cm@[i] == cmnd(s, i),
            candidate_search(s, MIN_LAG as int) == candidate_search(s, tau as int),
        ensures
            max_tau == max_lag(s),
            cm@.len() == max_tau,
            forall|i: int| 0 <= i < max_tau ==> cm@[i] == cmnd(s, i),
            match cand {
                Option::Some(c) => MIN_LAG <= c < max_tau && cmnd(s, c as int)
                    < CMND_THRESHOLD && candidate_search(s, MIN_LAG as int)
                    == candidate_search(s, c as int),
                Option::None => candidate_search(s, MIN_LAG as int) is None,
            },
        decreases max_tau - tau,
    {
        if cm[tau] < CMND_THRESHOLD {
            cand = Option::Some(tau);
            break;
        }
        tau = tau + 1;
    }

    let c = match cand {
        Option::Some(c) => c,
        Option::None => {
            return Option::None;
        },
    };

    // Walk forward to the local minimum behind the threshold crossing.
    let mut t: usize = c;
    while t + 1 < max_tau && cm[t + 1] < cm[t]
        invariant
            MIN_LAG <= t < max_tau,
            max_tau == max_lag(s),
            cm@.len() == max_tau,
            forall|i: int| 0 <= i < max_tau ==> cm@[i] == cmnd(s, i),
            local_min_from(s, c as int) == local_min_from(s, t as int),
        decreases max_tau - t,
    {
        t = t + 1;
    }
    proof {
        assert(local_min_from(s, t as int) == t);
        assert(candidate_search(s, MIN_LAG as int) == Option::Some(t as int));
    }

    // Step 4: parabolic interpolation around the selected lag.
    let r = parabolic_interpolation(&cm, t);
    proof {
        assert(r.num == refined_lag(s, t as int).0 && r.den == refined_lag(s, t as int).1);
    }
    Option::Some(r)
}

} // verus!
