//! General properties of the estimator, stated and proved over the spec
//! model of [`crate::yin`].

use vstd::prelude::*;

verus! {

use vstd::arithmetic::div_mod::lemma_div_multiples_vanish_quotient;

use crate::yin::candidate_search;
use crate::yin::cmnd;
use crate::yin::diff;
use crate::yin::diff_part;
use crate::yin::estimate_spec;
use crate::yin::lemma_diff_part_bounds;
use crate::yin::lemma_running_sum_bounds;
use crate::yin::local_min_from;
use crate::yin::max_lag;
use crate::yin::refined_lag;
use crate::yin::running_sum;
use crate::yin::CMND_SCALE;
use crate::yin::CMND_THRESHOLD;
use crate::yin::MIN_LAG;

/// A buffer of fewer than 8 samples leaves no room for the lag search
/// (`max_lag < MIN_LAG + 2`), so the estimate is absent — whatever the
/// sample rate, since the rate only scales a present lag into a frequency.
pub proof fn lemma_short_input_absent(s: Seq<i16>)
    requires
        s.len() < 8,
    ensures
        estimate_spec(s) is None,
{
    assert(max_lag(s) < 4);
}

/// A selected lag with no neighbour on one side — at lag 0 or at the last
/// searched lag `max_lag - 1` — is never interpolated: refinement reads no
/// value outside the buffer and falls back to the unrefined integer lag.
pub proof fn lemma_boundary_lag_unrefined(s: Seq<i16>, t: int)
    requires
        t < 1 || t + 1 >= max_lag(s),
    ensures
        refined_lag(s, t) == (t, 1int),
{
}

proof fn lemma_silent_diff_part(s: Seq<i16>, tau: int, n: int)
    requires
        forall|i: int| 0 <= i < s.len() ==> s[i] == 0,
        0 <= n,
        0 <= tau,
        n + tau <= s.len(),
    ensures
        diff_part(s, tau, n) == 0,
    decreases n,
{
    if n > 0 {
        lemma_silent_diff_part(s, tau, n - 1);
        assert(s[n - 1] == 0);
        assert(s[n - 1 + tau] == 0);
    }
}

proof fn lemma_silent_running_sum(s: Seq<i16>, tau: int)
    requires
        forall|i: int| 0 <= i < s.len() ==> s[i] == 0,
        tau < max_lag(s),
    ensures
        running_sum(s, tau) == 0,
    decreases tau,
{
    if tau >= 2 {
        lemma_silent_running_sum(s, tau - 1);
        lemma_silent_diff_part(s, tau, max_lag(s));
    }
}

proof fn lemma_silent_cmnd(s: Seq<i16>, tau: int)
    requires
        forall|i: int| 0 <= i < s.len() ==> s[i] == 0,
        1 <= tau < max_lag(s),
    ensures
        cmnd(s, tau) == 0,
{
    if tau >= 2 {
        lemma_silent_running_sum(s, tau);
        lemma_silent_diff_part(s, tau, max_lag(s));
        assert(diff(s, tau) * tau * (CMND_SCALE as int) == 0);
    }
}

/// On an all-zero (silent) buffer of sufficient length every difference is
/// zero, the running-sum guard takes over the division, and the estimator
/// returns the definite lag 2 — the smallest searched lag, with a flat
/// parabola fit — rather than anything undefined. With a sample rate `r`
/// the frequency is the finite value `r / 2`.
pub proof fn lemma_silent_buffer(s: Seq<i16>)
    requires
        s.len() >= 8,
        forall|i: int| 0 <= i < s.len() ==> s[i] == 0,
    ensures
        estimate_spec(s) == Option::Some((2int, 1int)),
{
    lemma_silent_cmnd(s, 1);
    lemma_silent_cmnd(s, 2);
    lemma_silent_cmnd(s, 3);
    assert(cmnd(s, 2) < CMND_THRESHOLD);
    assert(local_min_from(s, 2) == 2);
    assert(candidate_search(s, MIN_LAG as int) == Option::Some(2int));
    assert(refined_lag(s, 2) == (2int, 1int));
}

proof fn lemma_scaled_diff_part(s: Seq<i16>, u: Seq<i16>, k: int, tau: int, n: int)
    requires
        u.len() == s.len(),
        forall|i: int| 0 <= i < s.len() ==> u[i] == k * s[i],
        0 <= n,
        0 <= tau,
        n + tau <= s.len(),
    ensures
        diff_part(u, tau, n) == k * k * diff_part(s, tau, n),
    decreases n,
{
    if n <= 0 {
        assert(k * k * 0 == 0) by (nonlinear_arith);
    } else {
        lemma_scaled_diff_part(s, u, k, tau, n - 1);
        let a = s[n - 1] as int;
        let b = s[n - 1 + tau] as int;
        assert(u[n - 1] == k * a && u[n - 1 + tau] == k * b);
        assert((k * a - k * b) * (k * a - k * b) == k * k * ((a - b) * (a - b)))
            by (nonlinear_arith);
        assert(k * k * (diff_part(s, tau, n - 1) + (a - b) * (a - b)) == k * k * diff_part(
            s,
            tau,
            n - 1,
        ) + k * k * ((a - b) * (a - b))) by (nonlinear_arith);
    }
}

proof fn lemma_scaled_running_sum(s: Seq<i16>, u: Seq<i16>, k: int, tau: int)
    requires
        u.len() == s.len(),
        forall|i: int| 0 <= i < s.len() ==> u[i] == k * s[i],
        tau < max_lag(s),
    ensures
        running_sum(u, tau) == k * k * running_sum(s, tau),
    decreases tau,
{
    if tau <= 1 {
        assert(k * k * 0 == 0) by (nonlinear_arith);
    } else {
        lemma_scaled_running_sum(s, u, k, tau - 1);
        lemma_scaled_diff_part(s, u, k, tau, max_lag(s));
        assert(k * k * (running_sum(s, tau - 1) + diff(s, tau)) == k * k * running_sum(
            s,
            tau - 1,
        ) + k * k * diff(s, tau)) by (nonlinear_arith);
    }
}

proof fn lemma_scaled_cmnd(s: Seq<i16>, u: Seq<i16>, k: int, tau: int)
    requires
        u.len() == s.len(),
        forall|i: int| 0 <= i < s.len() ==> u[i] == k * s[i],
        k >= 1,
        0 <= tau < max_lag(s),
    ensures
        cmnd(u, tau) == cmnd(s, tau),
{
    if tau >= 2 {
        lemma_scaled_running_sum(s, u, k, tau);
        lemma_scaled_diff_part(s, u, k, tau, max_lag(s));
        lemma_running_sum_bounds(s, tau);
        lemma_diff_part_bounds(s, tau, max_lag(s));
        let rs = running_sum(s, tau);
        let dv = diff(s, tau);
        let sc = CMND_SCALE as int;
        assert(k * k >= 1) by (nonlinear_arith)
            requires
                k >= 1,
        ;
        if rs >= 1 {
            assert(k * k * rs >= 1) by (nonlinear_arith)
                requires
                    k * k >= 1,
                    rs >= 1,
            ;
            assert((k * k * dv) * tau * sc == (k * k) * (dv * tau * sc)) by (nonlinear_arith);
            assert(0 <= dv * tau * sc) by (nonlinear_arith)
                requires
                    0 <= dv,
                    0 <= tau,
                    0 <= sc,
            ;
            lemma_div_multiples_vanish_quotient(k * k, dv * tau * sc, rs);
            assert(cmnd(u, tau) == ((k * k) * (dv * tau * sc)) / ((k * k) * rs));
        } else {
            assert(rs == 0 && dv == 0);
            assert(k * k * 0 == 0) by (nonlinear_arith);
            assert(diff(u, tau) * tau * sc == 0);
            assert(diff(s, tau) * tau * sc == 0);
        }
    }
}

proof fn lemma_scaled_local_min(s: Seq<i16>, u: Seq<i16>, k: int, t: int)
    requires
        u.len() == s.len(),
        forall|i: int| 0 <= i < s.len() ==> u[i] == k * s[i],
        k >= 1,
        0 <= t < max_lag(s),
    ensures
        local_min_from(u, t) == local_min_from(s, t),
    decreases max_lag(s) - t,
{
    lemma_scaled_cmnd(s, u, k, t);
    if t + 1 < max_lag(s) {
        lemma_scaled_cmnd(s, u, k, t + 1);
        if cmnd(s, t + 1) < cmnd(s, t) {
            lemma_scaled_local_min(s, u, k, t + 1);
        }
    }
}

proof fn lemma_scaled_candidate(s: Seq<i16>, u: Seq<i16>, k: int, tau: int)
    requires
        u.len() == s.len(),
        forall|i: int| 0 <= i < s.len() ==> u[i] == k * s[i],
        k >= 1,
        0 <= tau,
    ensures
        candidate_search(u, tau) == candidate_search(s, tau),
    decreases max_lag(s) - tau,
{
    if tau < max_lag(s) {
        lemma_scaled_cmnd(s, u, k, tau);
        if cmnd(s, tau) < CMND_THRESHOLD {
            lemma_scaled_local_min(s, u, k, tau);
        } else {
            lemma_scaled_candidate(s, u, k, tau + 1);
        }
    }
}

proof fn lemma_local_min_range(s: Seq<i16>, t: int)
    requires
        0 <= t < max_lag(s),
    ensures
        t <= local_min_from(s, t) < max_lag(s),
    decreases max_lag(s) - t,
{
    if t + 1 < max_lag(s) && cmnd(s, t + 1) < cmnd(s, t) {
        lemma_local_min_range(s, t + 1);
    }
}

proof fn lemma_candidate_range(s: Seq<i16>, tau: int)
    requires
        0 <= tau,
    ensures
        match candidate_search(s, tau) {
            Option::Some(t) => tau <= t < max_lag(s),
            Option::None => true,
        },
    decreases max_lag(s) - tau,
{
    if tau < max_lag(s) {
        if cmnd(s, tau) < CMND_THRESHOLD {
            lemma_local_min_range(s, tau);
        } else {
            lemma_candidate_range(s, tau + 1);
        }
    }
}

/// Scaling every sample by one positive constant `k` leaves the estimate
/// unchanged: the difference function scales by `k * k` in both the
/// numerator and the running-sum divisor of the normalization, which cancels
/// exactly, so the same lag is selected and refined to the same rational.
/// With the sample rate fixed, the detected frequency is unchanged too.
pub proof fn lemma_scale_invariance(s: Seq<i16>, u: Seq<i16>, k: int)
    requires
        u.len() == s.len(),
        k >= 1,
        forall|i: int| 0 <= i < s.len() ==> u[i] == k * s[i],
    ensures
        estimate_spec(u) == estimate_spec(s),
{
    if max_lag(s) >= MIN_LAG + 2 {
        lemma_scaled_candidate(s, u, k, MIN_LAG as int);
        lemma_candidate_range(s, MIN_LAG as int);
        match candidate_search(s, MIN_LAG as int) {
            Option::Some(t) => {
                if 1 <= t && t + 1 < max_lag(s) {
                    lemma_scaled_cmnd(s, u, k, t - 1);
                    lemma_scaled_cmnd(s, u, k, t);
                    lemma_scaled_cmnd(s, u, k, t + 1);
                }
                assert(refined_lag(u, t) == refined_lag(s, t));
            },
            Option::None => {
            },
        }
    }
}

} // verus!
