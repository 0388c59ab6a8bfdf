use amrwb::conceal::{Erasure, FrameQuality, L_SUBFR};
use amrwb::fixed_point::{DspContext, Word16};

/// Drive a run of good subframes with a given lag and gain.
fn warm(erasure: &mut Erasure, lag: u16, gain: i16, count: usize) {
    for _ in 0..count {
        erasure.begin_frame(FrameQuality::Good);
        erasure.note_good_subframe(lag, Word16(gain));
    }
}

#[test]
fn severity_halves_on_a_good_frame_rather_than_clearing() {
    let mut e = Erasure::new();
    for _ in 0..4 {
        e.begin_frame(FrameQuality::Bad);
    }
    assert_eq!(e.severity(), 4);
    e.begin_frame(FrameQuality::Good);
    assert_eq!(e.severity(), 2, "a good frame must halve, not clear");
    e.begin_frame(FrameQuality::Good);
    assert_eq!(e.severity(), 1);
    e.begin_frame(FrameQuality::Good);
    assert_eq!(e.severity(), 0);
}

#[test]
fn severity_saturates_at_six() {
    let mut e = Erasure::new();
    for _ in 0..20 {
        e.begin_frame(FrameQuality::Bad);
    }
    assert_eq!(e.severity(), 6, "the attenuation tables only have seven rows");
}

#[test]
fn prev_bfi_covers_a_whole_frame_not_one_subframe() {
    let mut e = Erasure::new();
    e.begin_frame(FrameQuality::Good);
    assert!(!e.previous_frame_was_bad());
    e.begin_frame(FrameQuality::Bad);
    assert!(!e.previous_frame_was_bad(), "the flag is about the frame before");
    e.begin_frame(FrameQuality::Good);
    assert!(e.previous_frame_was_bad());
    e.begin_frame(FrameQuality::Good);
    assert!(!e.previous_frame_was_bad());
}

#[test]
fn a_steady_voiced_history_holds_its_lag_through_a_loss() {
    let mut ctx = DspContext::default();
    let mut e = Erasure::new();
    warm(&mut e, 80, 12000, 6);

    e.begin_frame(FrameQuality::Unusable);
    let (lag, frac) = e.pitch_lag(&mut ctx, 200, 3, FrameQuality::Unusable);
    assert_eq!(lag, 80);
    assert_eq!(frac, 0, "a guessed lag does not get a quarter-sample fraction");
}

#[test]
fn a_damaged_frames_lag_is_kept_when_the_history_agrees_with_it() {
    let mut ctx = DspContext::default();
    let mut e = Erasure::new();
    for lag in [78u16, 79, 80, 81, 82] {
        e.begin_frame(FrameQuality::Good);
        e.note_good_subframe(lag, Word16(11000));
    }
    e.begin_frame(FrameQuality::Bad);
    let (lag, _) = e.pitch_lag(&mut ctx, 81, 2, FrameQuality::Bad);
    assert_eq!(lag, 81, "a lag inside the history's own range was rejected");
}

#[test]
fn a_damaged_frames_lag_is_rejected_when_it_is_nowhere_near_the_history() {
    let mut ctx = DspContext::default();
    let mut e = Erasure::new();
    for lag in [40u16, 41, 42, 41, 40] {
        e.begin_frame(FrameQuality::Good);
        e.note_good_subframe(lag, Word16(2000));
    }
    e.begin_frame(FrameQuality::Bad);
    let (lag, _) = e.pitch_lag(&mut ctx, 220, 1, FrameQuality::Bad);
    assert!(
        (40..=42).contains(&lag),
        "a lag of 220 against a history of 40..42 survived as {lag}"
    );
}

#[test]
fn a_substituted_lag_never_leaves_the_range_the_talker_used() {
    let mut ctx = DspContext::default();
    let mut e = Erasure::new();
    for lag in [50u16, 90, 60, 120, 70] {
        e.begin_frame(FrameQuality::Good);
        e.note_good_subframe(lag, Word16(1000));
    }
    for _ in 0..30 {
        e.begin_frame(FrameQuality::Unusable);
        let (lag, _) = e.pitch_lag(&mut ctx, 0, 0, FrameQuality::Unusable);
        assert!(
            (50..=120).contains(&lag),
            "substituted lag {lag} is outside the history's range"
        );
    }
}

#[test]
fn the_lag_jitter_and_the_innovation_come_from_different_generators() {
    let mut ctx = DspContext::default();

    let mut with_innovation = Erasure::new();
    warm(&mut with_innovation, 45, 1000, 5);
    let mut without = with_innovation.clone();

    with_innovation.begin_frame(FrameQuality::Unusable);
    let _ = with_innovation.lost_innovation(&mut ctx);
    let a = with_innovation.pitch_lag(&mut ctx, 0, 0, FrameQuality::Unusable);

    without.begin_frame(FrameQuality::Unusable);
    let b = without.pitch_lag(&mut ctx, 0, 0, FrameQuality::Unusable);

    assert_eq!(a, b, "drawing an innovation moved the lag generator");
}

#[test]
fn a_concealed_lag_never_enters_the_history() {
    let mut ctx = DspContext::default();
    let mut e = Erasure::new();
    warm(&mut e, 100, 13000, 5);

    for _ in 0..5 {
        e.begin_frame(FrameQuality::Unusable);
        let _ = e.pitch_lag(&mut ctx, 0, 0, FrameQuality::Unusable);
    }
    e.begin_frame(FrameQuality::Unusable);
    let (lag, _) = e.pitch_lag(&mut ctx, 0, 0, FrameQuality::Unusable);
    assert_eq!(lag, 100, "the history drifted, so concealed lags fed back into it");
}

#[test]
fn a_substituted_innovation_stays_within_the_codebooks_headroom() {
    let mut ctx = DspContext::default();
    let mut e = Erasure::new();
    let code = e.lost_innovation(&mut ctx);
    assert_eq!(code.len(), L_SUBFR);
    assert!(
        code.iter().all(|c| c.0.abs() <= 4096),
        "the substituted innovation exceeds the codebook's Q9 headroom"
    );
    let distinct = code
        .iter()
        .map(|c| c.0)
        .collect::<std::collections::BTreeSet<_>>();
    assert!(distinct.len() > 32, "only {} distinct samples", distinct.len());
}

#[test]
fn a_good_frames_lag_passes_through() {
    let mut ctx = DspContext::default();
    let mut e = Erasure::new();
    e.begin_frame(FrameQuality::Good);
    assert_eq!(e.pitch_lag(&mut ctx, 200, 3, FrameQuality::Good), (200, 3));
}

#[test]
fn the_erasure_state_machine_tracks_the_reference_frame_by_frame() {
    // The severity of each frame, and whether the frame before it was bad: a
    // single loss, a run of three, and two losses with one frame between.
    let want_state = [
        0usize, 0, 0, 0, 0, 1, 0, 0, 0, 0, 1, 2, 3, 1, 0, 0, 0, 0, 0, 0, 1, 0, 1, 0, 0,
    ];
    let want_prev = [
        false, false, false, false, false, false, true, false, false, false, false, true, true,
        true, false, false, false, false, false, false, false, true, false, true, false,
    ];
    let mut erasure = Erasure::new();
    for f in 0..want_state.len() {
        let bad = matches!(f, 5 | 10 | 11 | 12 | 20 | 22);
        erasure.begin_frame(if bad { FrameQuality::Bad } else { FrameQuality::Good });
        assert_eq!(erasure.severity(), want_state[f], "frame {f}: severity counter");
        assert_eq!(
            erasure.previous_frame_was_bad(),
            want_prev[f],
            "frame {f}: previous-frame flag"
        );
    }
}
