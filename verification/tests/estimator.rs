// Scenario tests for the YIN pitch estimator: short buffers, silence,
// synthetic sine waves, aperiodic buffers, and the boundary behaviour of the
// parabolic refinement. Frequencies are recovered from the rational lag as
// `rate * den / num`.

use yin_pitch::yin::parabolic_interpolation;
use yin_pitch::yin::yin_pitch_detection;
use yin_pitch::yin::RefinedLag;

fn sine(len: usize, freq: f64, rate: f64, amp: f64) -> Vec<i16> {
    let mut v = Vec::with_capacity(len);
    for i in 0..len {
        let x = amp * (2.0 * std::f64::consts::PI * freq * (i as f64) / rate).sin();
        v.push(x.round() as i16);
    }
    v
}

fn frequency(rate: f64, lag: &RefinedLag) -> f64 {
    rate * (lag.den as f64) / (lag.num as f64)
}

#[test]
fn too_short_buffer_is_absent() {
    let samples: Vec<i16> = vec![0, 0, 0, 0];
    assert_eq!(yin_pitch_detection(&samples), None);
}

#[test]
fn seven_samples_are_still_too_short() {
    let samples: Vec<i16> = vec![5, -3, 7, 0, 2, -8, 4];
    assert_eq!(yin_pitch_detection(&samples), None);
}

#[test]
fn empty_buffer_is_absent() {
    let samples: Vec<i16> = Vec::new();
    assert_eq!(yin_pitch_detection(&samples), None);
}

#[test]
fn silence_of_ten_is_finite() {
    let samples: Vec<i16> = vec![0; 10];
    let lag = yin_pitch_detection(&samples).expect("silence of length 10 yields a lag");
    assert_eq!(lag, RefinedLag { num: 2, den: 1 });
    let f = frequency(44100.0, &lag);
    assert!(f.is_finite());
    assert_eq!(f, 22050.0);
}

#[test]
fn silence_at_minimum_length() {
    let samples: Vec<i16> = vec![0; 8];
    assert_eq!(yin_pitch_detection(&samples), Some(RefinedLag { num: 2, den: 1 }));
}

#[test]
fn estimate_is_idempotent() {
    let samples = sine(800, 440.0, 44100.0, 10000.0);
    let first = yin_pitch_detection(&samples);
    let second = yin_pitch_detection(&samples);
    assert_eq!(first, second);
    assert!(first.is_some());
}

#[test]
fn sine_440_long_buffer_within_five_hertz() {
    let samples = sine(2048, 440.0, 44100.0, 10000.0);
    let lag = yin_pitch_detection(&samples).expect("a 2048-sample 440 Hz sine has a pitch");
    assert_eq!(lag, RefinedLag { num: 787555, den: 7858 });
    let f = frequency(44100.0, &lag);
    assert!((f - 440.0).abs() < 5.0, "estimate {f} is not within 5 Hz of 440");
}

#[test]
fn sine_440_two_hundred_points() {
    // The search stops at the largest lag, 99, one short of the true period
    // of about 100.2 samples, and the boundary guard skips interpolation:
    // the estimate is exactly 44100 / 99, about 445.5 Hz.
    let samples = sine(200, 440.0, 44100.0, 10000.0);
    let lag = yin_pitch_detection(&samples).expect("a 200-sample 440 Hz sine has a pitch");
    assert_eq!(lag, RefinedLag { num: 99, den: 1 });
    let f = frequency(44100.0, &lag);
    assert!((f - 44100.0 / 99.0).abs() < 1e-9);
    assert!((f - 440.0).abs() / 440.0 < 0.013, "estimate {f} is not near 440");
}

#[test]
fn pure_sines_within_one_percent() {
    let cases: [(f64, usize); 3] = [(440.0, 800), (220.0, 1600), (1000.0, 400)];
    for (freq_in, len) in cases {
        let samples = sine(len, freq_in, 44100.0, 10000.0);
        let lag = yin_pitch_detection(&samples).expect("enough periods yield a pitch");
        let f = frequency(44100.0, &lag);
        let rel = (f - freq_in).abs() / freq_in;
        assert!(rel < 0.01, "estimate {f} is off {freq_in} by more than 1%");
    }
}

#[test]
fn scaling_samples_keeps_the_estimate() {
    let quiet = sine(400, 440.0, 44100.0, 30.0);
    let mut loud = Vec::with_capacity(quiet.len());
    for &x in quiet.iter() {
        loud.push(x * 900);
    }
    let a = yin_pitch_detection(&quiet);
    let b = yin_pitch_detection(&loud);
    assert_eq!(a, b);
    assert_eq!(a, Some(RefinedLag { num: 774146, den: 7724 }));
}

#[test]
fn aperiodic_buffers_are_absent() {
    let ramp: Vec<i16> = (0i16..20).map(|i| i * 100).collect();
    assert_eq!(yin_pitch_detection(&ramp), None);
    let slope: Vec<i16> = (0i16..40).map(|i| i * 37).collect();
    assert_eq!(yin_pitch_detection(&slope), None);
}

#[test]
fn alternating_square_wave_detects_shortest_period() {
    let samples: Vec<i16> = (0i16..12).map(|i| if i % 2 == 0 { 10000 } else { -10000 }).collect();
    let lag = yin_pitch_detection(&samples).expect("a period-2 square wave has a pitch");
    assert_eq!(lag, RefinedLag { num: 9000000, den: 6000000 });
}

#[test]
fn interpolation_keeps_boundary_lags_unrefined() {
    let cm: Vec<u64> = vec![5, 4, 3, 2, 1];
    assert_eq!(parabolic_interpolation(&cm, 4), RefinedLag { num: 4, den: 1 });
    assert_eq!(parabolic_interpolation(&cm, 0), RefinedLag { num: 0, den: 1 });
    assert_eq!(parabolic_interpolation(&cm, 7), RefinedLag { num: 7, den: 1 });
}

#[test]
fn interpolation_refines_an_interior_minimum() {
    // Parabola through (1, 6), (2, 2), (3, 4): a2 = 6, b2 = -2, so the
    // vertex sits at 2 - (-2)/(2 * 6) = 26/12 of a sample period.
    let cm: Vec<u64> = vec![9, 6, 2, 4, 8];
    assert_eq!(parabolic_interpolation(&cm, 2), RefinedLag { num: 26, den: 12 });
}

#[test]
fn flat_fit_falls_back_to_integer_lag() {
    let cm: Vec<u64> = vec![9, 3, 3, 3, 8];
    assert_eq!(parabolic_interpolation(&cm, 2), RefinedLag { num: 2, den: 1 });
}

#[test]
fn candidate_at_last_lag_skips_interpolation() {
    // The 200-point sine walks its candidate to lag 99 = max_lag - 1; the
    // guard returns it unrefined instead of reading past the buffer.
    let samples = sine(200, 440.0, 44100.0, 10000.0);
    let lag = yin_pitch_detection(&samples).expect("pitch present");
    assert_eq!(lag.den, 1);
    assert_eq!(lag.num, 99);
}
