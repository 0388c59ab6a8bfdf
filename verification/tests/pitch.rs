use amrwb::enc::pitch::{
    choose_ltp, closed_loop_lag, convolve, GainClipping, LagResolution, LagWindow, OpenLoopPitch,
    PitchMode, SearchLimits, BITS_6K60, BITS_8K85, CORR_WEIGHT, INTER4_1, L_SUBFR, PIT_MAX, PIT_MIN, WSP_FRAME,
};
use amrwb::fixed_point::{DspContext, Word16};

const WIDE_BITS: u16 = 253;
const EXC_HISTORY: usize = 248;
const EXC_TOTAL: usize = EXC_HISTORY + 256 + 1;

#[test]
fn the_open_loop_search_gives_a_tie_to_the_shorter_lag() {
    let mut ctx = DspContext::default();
    let mut open = OpenLoopPitch::new();
    let lags = open.analyse(
        &mut ctx,
        &[Word16(0); WSP_FRAME],
        PitchMode::from_frame_bits(WIDE_BITS),
    );
    assert_eq!(
        lags.first_half, 36,
        "an all-ties open-loop search must return the shortest reachable lag"
    );
}

#[test]
fn the_open_loop_search_never_returns_its_lower_bound() {
    let mut ctx = DspContext::default();
    let mut open = OpenLoopPitch::new();
    let lags = open.analyse(
        &mut ctx,
        &[Word16(0); WSP_FRAME],
        PitchMode::from_frame_bits(WIDE_BITS),
    );
    assert_ne!(lags.first_half, PIT_MIN, "PIT_MIN is not an open-loop result");
}

/// A search over the given window in which every integer candidate correlates
/// identically.
fn all_ties_closed_loop(window: LagWindow, absolute: bool) -> (i16, i16) {
    let mut ctx = DspContext::default();
    let excitation = [Word16(0); EXC_TOTAL];
    let target = [Word16(0); L_SUBFR];
    let response = [Word16(0); L_SUBFR];
    closed_loop_lag(
        &mut ctx,
        &excitation,
        EXC_HISTORY,
        &target,
        &response,
        SearchLimits {
            window,
            absolute,
            resolution: LagResolution::nine_bit(),
        },
    )
}

#[test]
fn the_closed_loop_integer_search_gives_a_tie_to_the_longer_lag() {
    let (lag, fraction) = all_ties_closed_loop(LagWindow { min: 200, max: 215 }, true);
    assert_eq!(
        (lag, fraction),
        (215, 0),
        "an all-ties integer search must keep the longest lag in the window"
    );
}

#[test]
fn the_closed_loop_fractional_search_gives_a_tie_to_the_smallest_fraction() {
    let (lag, fraction) = all_ties_closed_loop(LagWindow { min: 40, max: 55 }, false);
    assert_eq!(
        (lag, fraction),
        (54, 2),
        "the fractional search must keep the earlier of two equal phases"
    );
}

#[test]
fn a_lag_on_the_window_floor_cannot_search_below_it() {
    let mut ctx = DspContext::default();
    let mut excitation = [Word16(0); EXC_TOTAL];
    let window = LagWindow { min: 40, max: 55 };
    let mut target = [Word16(0); L_SUBFR];
    let mut response = [Word16(0); L_SUBFR];
    response[0] = Word16(16384);
    for (i, slot) in target.iter_mut().enumerate() {
        *slot = Word16(if i % 40 == 0 { 4000 } else { 0 });
        excitation[EXC_HISTORY - 40 + i] = *slot;
    }
    let (lag, fraction) = closed_loop_lag(
        &mut ctx,
        &excitation,
        EXC_HISTORY,
        &target,
        &response,
        SearchLimits {
            window,
            absolute: false,
            resolution: LagResolution::nine_bit(),
        },
    );
    assert_eq!(lag, window.min, "the correlation should peak on the window floor");
    assert!((0..=3).contains(&fraction), "fraction {fraction} out of range");
}

#[test]
fn the_lag_window_clamps_at_both_ends() {
    let mut ctx = DspContext::default();
    assert_eq!(
        LagWindow::around(&mut ctx, PIT_MIN),
        LagWindow { min: PIT_MIN, max: PIT_MIN + 15 },
        "a short lag clamps to PIT_MIN"
    );
    assert_eq!(
        LagWindow::around(&mut ctx, PIT_MAX),
        LagWindow { min: PIT_MAX - 15, max: PIT_MAX },
        "a long lag clamps to PIT_MAX and pulls the floor down with it"
    );
    assert_eq!(
        LagWindow::around(&mut ctx, 100),
        LagWindow { min: 92, max: 107 },
        "an interior lag sits 8 below and 7 above"
    );
}

#[test]
fn the_lag_history_only_shifts_on_a_strong_correlation() {
    let mut ctx = DspContext::default();
    let mut open = OpenLoopPitch::new();

    open.gain = Word16(19661);
    assert_eq!(open.absorb(&mut ctx, 77), None, "0.6 exactly must not refresh");
    assert_eq!(open.recent_lags, [40; 5], "the history moved anyway");

    open.gain = Word16(19662);
    assert_eq!(open.absorb(&mut ctx, 77), Some(40), "one new lag among four 40s");
    assert_eq!(
        open.recent_lags,
        [77, 40, 40, 40, 40],
        "the history should have shifted exactly once"
    );
}

#[test]
fn the_confidence_decays_to_zero_and_stays_there() {
    let mut ctx = DspContext::default();
    let mut open = OpenLoopPitch::new();
    open.gain = Word16(0);
    open.confidence = Word16(32767);
    for _ in 0..200 {
        open.absorb(&mut ctx, 50);
    }
    assert_eq!(open.confidence.0, 0, "the confidence should have floored to 0");
    assert!(!open.weight_towards_history, "weighting should be off at zero");
}

#[test]
fn the_clipping_threshold_uses_integer_division_by_the_isf_maximum() {
    let mut ctx = DspContext::default();
    let mode = PitchMode::from_frame_bits(BITS_8K85);
    let mut clipping = GainClipping::new();
    clipping.isf_gap = Word16(384);

    clipping.mean_gain = Word16(16358);
    assert!(!clipping.clips(&mut ctx, mode), "the threshold is a strict >");
    clipping.mean_gain = Word16(16359);
    assert!(clipping.clips(&mut ctx, mode), "one above the threshold must clip");
}

#[test]
fn the_wideband_clipping_test_needs_both_halves() {
    let mut ctx = DspContext::default();
    let mode = PitchMode::from_frame_bits(WIDE_BITS);
    let mut clipping = GainClipping::new();

    clipping.isf_gap = Word16(153);
    clipping.mean_gain = Word16(14747);
    assert!(clipping.clips(&mut ctx, mode), "resonant and predictive must clip");

    clipping.isf_gap = Word16(154);
    assert!(!clipping.clips(&mut ctx, mode), "the gap test is a strict <");

    clipping.isf_gap = Word16(153);
    clipping.mean_gain = Word16(14746);
    assert!(!clipping.clips(&mut ctx, mode), "the gain test is a strict >");
}

#[test]
fn the_clipping_tracker_resets_the_same_way_for_every_mode() {
    let fresh = GainClipping::new();
    assert_eq!((fresh.isf_gap.0, fresh.mean_gain.0), (307, 9830));
}

#[test]
fn the_correlation_weighting_table_matches_the_reference_shape() {
    assert_eq!(CORR_WEIGHT.len(), 199);
    assert_eq!(CORR_WEIGHT[0], 10772);
    assert_eq!(CORR_WEIGHT[198], 10728);
    assert!(
        CORR_WEIGHT[95..=101].iter().all(|&v| v == 16384),
        "the bump's plateau is indices 95..=101"
    );
    assert_eq!(CORR_WEIGHT[94], 16056);
    assert_eq!(CORR_WEIGHT[102], 16056);
    assert!(CORR_WEIGHT[101] > CORR_WEIGHT[198]);
}

#[test]
fn the_interpolation_filter_matches_the_reference_shape() {
    assert_eq!(INTER4_1.len(), 32);
    assert_eq!(INTER4_1[15], 14746, "the peak tap sits at phase 3 of tap 3");
    assert_eq!(INTER4_1[31], 0, "the last tap is the padding zero");
    assert_eq!(INTER4_1[0], -12);
}

#[test]
fn the_mode_predicates_split_where_the_reference_does() {
    let narrow = PitchMode::from_frame_bits(BITS_6K60);
    let second = PitchMode::from_frame_bits(BITS_8K85);
    let wide = PitchMode::from_frame_bits(WIDE_BITS);
    let sid = PitchMode::from_frame_bits(35);

    assert!(narrow.open_loop_spans_frame());
    assert!(!second.open_loop_spans_frame());
    assert!(!sid.open_loop_spans_frame());
    assert!(!sid.interoperable_clipping());

    assert!(!narrow.has_sharp_candidate());
    assert!(!second.has_sharp_candidate());
    assert!(wide.has_sharp_candidate());
    assert!(!narrow.third_subframe_is_absolute());
    assert!(second.third_subframe_is_absolute());

    assert!(narrow.interoperable_clipping());
    assert!(second.interoperable_clipping());
    assert!(!wide.interoperable_clipping());

    assert_eq!(narrow.lag_resolution(), LagResolution::eight_bit());
    assert_eq!(wide.lag_resolution(), LagResolution::nine_bit());
}

#[test]
fn a_search_reads_no_more_excitation_than_its_shortest_lag_needs() {
    let mut ctx = DspContext::default();
    let limits = SearchLimits {
        window: LagWindow { min: 100, max: 115 },
        absolute: true,
        resolution: LagResolution::nine_bit(),
    };
    let mut excitation = vec![Word16(0); EXC_TOTAL];
    for (i, slot) in excitation.iter_mut().enumerate() {
        *slot = Word16(((i * 37) % 101) as i16 * 20 - 1000);
    }
    let target: Vec<Word16> = excitation[EXC_HISTORY - 108..EXC_HISTORY - 44].to_vec();
    let mut response = [Word16(0); L_SUBFR];
    response[0] = Word16(16384);
    let whole = closed_loop_lag(&mut ctx, &excitation, EXC_HISTORY, &target, &response, limits);
    assert_eq!(whole, (108, 0));
    let needed = EXC_HISTORY - 96 + 64;
    let part =
        closed_loop_lag(&mut ctx, &excitation[..needed], EXC_HISTORY, &target, &response, limits);
    assert_eq!(part, whole);
}

#[test]
fn a_longer_target_is_read_only_over_the_subframe() {
    let mut ctx = DspContext::default();
    let mut response = [Word16(0); L_SUBFR];
    response[0] = Word16(16384);
    response[1] = Word16(8192);
    let fill = |i: usize| Word16(((i * 29) % 83) as i16 * 30 - 1200);
    let target: Vec<Word16> = (0..70).map(|i| fill(i + 7)).collect();
    let excitation: Vec<Word16> = (0..80).map(fill).collect();
    let mode = PitchMode::from_frame_bits(WIDE_BITS);
    let (mut a, mut b) = (excitation.clone(), excitation);
    let short = choose_ltp(&mut ctx, &mut a, 8, &target[..L_SUBFR], &response, false, mode);
    let long = choose_ltp(&mut ctx, &mut b, 8, &target, &response, false, mode);
    assert_eq!(a, b);
    assert_eq!(short.prefer_sharp, long.prefer_sharp);
    assert_eq!(short.codebook_target, long.codebook_target);
    assert_eq!(short.correlations, long.correlations);
    assert_eq!(short.gain(), long.gain());
}

#[test]
fn a_convolution_sees_only_the_past() {
    let mut ctx = DspContext::default();
    let response = [Word16(8192); L_SUBFR];
    let mut x = [Word16(1000); L_SUBFR];
    let before = convolve(&mut ctx, &x, &response);
    for slot in &mut x[40..] {
        *slot = Word16(-7000);
    }
    let after = convolve(&mut ctx, &x, &response);
    assert_eq!(before[..40], after[..40]);
    assert_ne!(before[40], after[40]);
    assert_eq!(before[0], Word16(250));
}

#[test]
fn the_top_gap_never_counts() {
    let mut ctx = DspContext::default();
    let mode = PitchMode::from_frame_bits(WIDE_BITS);
    let mut isf: Vec<Word16> = (0..16).map(|i| Word16(900 * (i + 1))).collect();
    let mut wide = GainClipping::new();
    wide.observe_isf(&mut ctx, mode, &isf);
    isf[15] = isf[14];
    let mut closed = GainClipping::new();
    closed.observe_isf(&mut ctx, mode, &isf);
    assert_eq!(wide, closed);
    isf[14] = isf[13];
    closed.observe_isf(&mut ctx, mode, &isf);
    assert_ne!(wide, closed, "every other gap does");
}
