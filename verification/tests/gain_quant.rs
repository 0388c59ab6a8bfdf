use amrwb::enc::gain_quant::{
    beats, GainBits, GainInputs, GainPredictor, PitchCorrelations, L_SUBFR, RANGE,
};
use amrwb::enc::pitch::pitch_gain;
use amrwb::fixed_point::{DspContext, Word16, Word32};
use amrwb::gain_tables::QUA_GAIN_7B;

fn no_correlations() -> PitchCorrelations {
    PitchCorrelations {
        energy: Word16(0),
        energy_exp: 0,
        correlation: Word16(0),
        correlation_exp: 0,
    }
}

#[test]
fn the_predictor_resets_to_minus_fourteen_decibels_and_shifts() {
    let mut ctx = DspContext::new();
    let mut predictor = GainPredictor::new();
    assert_eq!(predictor.past_energy, [Word16(-14336); 4]);

    predictor.remember(&mut ctx, Word16(2048));
    assert_eq!(predictor.past_energy[0].0, 0);
    assert_eq!(predictor.past_energy[1].0, -14336);

    predictor.remember(&mut ctx, Word16(4096));
    assert_eq!(predictor.past_energy[0].0, 6165);
    assert_eq!(predictor.past_energy[1].0, 0);
    assert_eq!(predictor.past_energy[2].0, -14336);
    assert_eq!(predictor.past_energy[3].0, -14336);

    predictor.reset();
    assert_eq!(predictor.past_energy, [Word16(-14336); 4]);
}

#[test]
fn the_predictor_records_the_table_gain_not_the_applied_gain() {
    let mut ctx = DspContext::new();
    let mut a = GainPredictor::new();
    let mut b = GainPredictor::new();
    b.past_energy = [Word16(6000); 4];

    let table_gain = Word16(QUA_GAIN_7B[2 * 40 + 1]);
    a.remember(&mut ctx, table_gain);
    b.remember(&mut ctx, table_gain);
    assert_eq!(
        a.past_energy[0], b.past_energy[0],
        "the recorded energy must not depend on the predictor's own history"
    );
}

#[test]
fn the_seven_bit_window_follows_the_unquantised_pitch_gain() {
    let zeros = [Word16(0); L_SUBFR];
    let mut inputs = GainInputs {
        target: &zeros,
        filtered_adaptive: &zeros,
        target_q: 0,
        filtered_code: &zeros,
        code: &zeros,
        correlations: no_correlations(),
        bits: GainBits::Seven,
        pitch_gain: Word16(0),
        clip_pitch_gain: false,
    };

    assert_eq!(GainPredictor::window(&inputs), (0, 64));

    inputs.pitch_gain = Word16(32767);
    let (first, size) = GainPredictor::window(&inputs);
    assert_eq!((first, size), (64, 64));
    assert_eq!(first + size, 128, "the window must stay inside the table");

    inputs.clip_pitch_gain = true;
    assert_eq!(
        GainPredictor::window(&inputs),
        (37, 64),
        "clipping shortens the seven-bit pre-search, not the search"
    );
}

#[test]
fn six_bit_clipping_shortens_the_search() {
    let zeros = [Word16(0); L_SUBFR];
    let mut inputs = GainInputs {
        target: &zeros,
        filtered_adaptive: &zeros,
        target_q: 0,
        filtered_code: &zeros,
        code: &zeros,
        correlations: no_correlations(),
        bits: GainBits::Six,
        pitch_gain: Word16(32767),
        clip_pitch_gain: false,
    };
    assert_eq!(GainPredictor::window(&inputs).0, 0);
    assert_eq!(GainPredictor::window(&inputs).1, 64);

    inputs.clip_pitch_gain = true;
    assert_eq!(GainPredictor::window(&inputs).0, 0);
    assert_eq!(GainPredictor::window(&inputs).1, 48);
}

#[test]
fn the_window_boundary_is_strict() {
    let zeros = [Word16(0); L_SUBFR];
    let boundary = QUA_GAIN_7B[RANGE];
    let mut inputs = GainInputs {
        target: &zeros,
        filtered_adaptive: &zeros,
        target_q: 0,
        filtered_code: &zeros,
        code: &zeros,
        correlations: no_correlations(),
        bits: GainBits::Seven,
        pitch_gain: Word16(boundary),
        clip_pitch_gain: false,
    };
    let equal = GainPredictor::window(&inputs).0;
    inputs.pitch_gain = Word16(boundary + 1);
    let above = GainPredictor::window(&inputs).0;
    assert_eq!(
        above,
        equal + 1,
        "an equal pitch gain must not count, a greater one must"
    );
}

#[test]
fn equal_distortions_keep_the_lowest_index() {
    for probe in [0i32, 1, -1, 12345, i32::MAX, i32::MIN] {
        assert!(
            !beats(Word32(probe), Word32(probe)),
            "an equal distortion must not displace the incumbent at {probe}"
        );
    }
    assert!(beats(Word32(-1), Word32(0)));
    assert!(!beats(Word32(0), Word32(-1)));
    assert!(beats(Word32(i32::MIN), Word32(i32::MAX)));
    assert!(!beats(Word32(i32::MAX), Word32(i32::MIN)));
}

/// A subframe whose target is a mix of its two contributions.
fn synthetic() -> ([Word16; L_SUBFR], [Word16; L_SUBFR], [Word16; L_SUBFR], [Word16; L_SUBFR]) {
    let mut xn = [Word16(0); L_SUBFR];
    let mut y1 = [Word16(0); L_SUBFR];
    let mut y2 = [Word16(0); L_SUBFR];
    let mut code = [Word16(0); L_SUBFR];
    for i in 0..L_SUBFR {
        let a = ((i * 37) % 101) as i16 - 50;
        let b = ((i * 53) % 97) as i16 - 48;
        y1[i] = Word16(a * 20);
        y2[i] = Word16(b * 4);
        xn[i] = Word16(a * 12 + b * 30);
    }
    for (k, at) in [3usize, 17, 30, 44, 5, 21, 58, 63].iter().enumerate() {
        code[*at] = Word16(if k % 2 == 0 { 512 } else { -512 });
    }
    (xn, y1, y2, code)
}

#[test]
fn the_search_reports_the_smallest_distortion_in_its_window() {
    let mut ctx = DspContext::new();
    let mut predictor = GainPredictor::new();
    let (xn, y1, y2, code) = synthetic();
    let (gain, c) = pitch_gain(&mut ctx, &xn, &y1);
    let inputs = GainInputs {
        target: &xn,
        filtered_adaptive: &y1,
        target_q: 2,
        filtered_code: &y2,
        code: &code,
        correlations: PitchCorrelations {
            energy: c.energy,
            energy_exp: c.energy_exp,
            correlation: c.correlation,
            correlation_exp: c.correlation_exp,
        },
        bits: GainBits::Seven,
        pitch_gain: gain,
        clip_pitch_gain: false,
    };
    let (first, size) = GainPredictor::window(&inputs);
    let chosen = predictor.quantise(&mut ctx, &inputs);
    assert!(
        (first..first + size).contains(&usize::from(chosen.index)),
        "the chosen index must lie inside the window it searched"
    );
    assert_eq!(size, 64, "the seven-bit search always covers 64 candidates");
    assert_eq!(
        chosen.pitch_gain,
        Word16(QUA_GAIN_7B[2 * usize::from(chosen.index)]),
        "the reported gain is the table's"
    );
}

#[test]
fn the_predictor_state_changes_the_chosen_index() {
    let mut ctx = DspContext::new();
    let (xn, y1, y2, code) = synthetic();
    let (gain, c) = pitch_gain(&mut ctx, &xn, &y1);
    let inputs = GainInputs {
        target: &xn,
        filtered_adaptive: &y1,
        target_q: 2,
        filtered_code: &y2,
        code: &code,
        correlations: PitchCorrelations {
            energy: c.energy,
            energy_exp: c.energy_exp,
            correlation: c.correlation,
            correlation_exp: c.correlation_exp,
        },
        bits: GainBits::Seven,
        pitch_gain: gain,
        clip_pitch_gain: false,
    };
    let mut fresh = GainPredictor::new();
    let from_reset = fresh.quantise(&mut ctx, &inputs);
    let mut warm = GainPredictor::new();
    warm.past_energy = [Word16(6000); 4];
    let from_warm = warm.quantise(&mut ctx, &inputs);
    assert_ne!(
        from_reset.index, from_warm.index,
        "a quantiser that ignored its state would choose the same pair"
    );
}

#[test]
fn gain_width_follows_the_frame_size() {
    assert_eq!(GainBits::from_frame_bits(132), GainBits::Six);
    assert_eq!(GainBits::from_frame_bits(177), GainBits::Six);
    assert_eq!(GainBits::from_frame_bits(253), GainBits::Seven);
    assert_eq!(GainBits::from_frame_bits(477), GainBits::Seven);
    assert_eq!(GainBits::Six.bits(), 6);
    assert_eq!(GainBits::Seven.bits(), 7);
}

#[test]
fn exponents_may_lie_far_apart() {
    // A coefficient shifted down by more than its width is its sign alone: the
    // codeword's terms outweigh the others altogether.
    let mut ctx = DspContext::new();
    let (xn, y1, y2, code) = synthetic();
    for target_q in [1500i16, 5000, 10000] {
        let inputs = GainInputs {
            target: &xn,
            filtered_adaptive: &y1,
            target_q,
            filtered_code: &y2,
            code: &code,
            correlations: no_correlations(),
            bits: GainBits::Six,
            pitch_gain: Word16(0),
            clip_pitch_gain: true,
        };
        let mut predictor = GainPredictor::new();
        let chosen = predictor.quantise(&mut ctx, &inputs);
        assert!(chosen.index < 48, "clipping shortens the search at {target_q}");
        let mut again = GainPredictor::new();
        assert_eq!(again.quantise(&mut ctx, &inputs), chosen);
    }
}
