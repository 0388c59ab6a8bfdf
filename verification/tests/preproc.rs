use amrwb::enc::preproc::{
    restrict_to_14_bit, Decimator, Preprocessor, DOWN_FAC, FIR_DOWN, L_FILT, L_FRAME, L_FRAME16K,
    Q_MAX,
};
use amrwb::fixed_point::{mult, Word16};
use amrwb::synthesis::HighPass50;

/// A frame of a decaying pulse train over a slow wave.
fn input_frame(frame: usize) -> [Word16; L_FRAME16K] {
    let mut samples = [Word16(0); L_FRAME16K];
    for (i, slot) in samples.iter_mut().enumerate() {
        let n = (frame * L_FRAME16K + i) as i32;
        let pulse = 9000 - (n % 137) * 120;
        let wave = ((n * 7) % 400 - 200) * 20;
        *slot = Word16((pulse.max(0) + wave) as i16);
    }
    samples
}

#[test]
fn fir_phases_have_unity_dc_gain() {
    let want = [16383, 16384, 16383, 16383];
    for (column, &expected) in want.iter().enumerate() {
        let sum: i32 = FIR_DOWN
            .iter()
            .skip(column)
            .step_by(4)
            .map(|&c| i32::from(c))
            .sum();
        assert_eq!(sum, expected, "phase column {column} sums wrong");
    }
    assert_eq!(FIR_DOWN.len(), 120);
}

#[test]
fn output_length_is_four_fifths_of_the_input() {
    assert_eq!(mult(Word16(320), Word16(DOWN_FAC)).0, 256);
    assert_eq!(mult(Word16(15), Word16(DOWN_FAC)).0, 12);
    assert_eq!(mult(Word16(320), Word16(26214)).0, 255);
}

#[test]
fn the_tail_filters_do_not_disturb_the_carried_state() {
    let input = input_frame(0);

    let mut with_tail = Preprocessor::new();
    let mut first = [Word16(0); L_FRAME + L_FILT];
    with_tail.band_limit(&input, &mut first);
    let mut second = [Word16(0); L_FRAME + L_FILT];
    with_tail.band_limit(&input, &mut second);

    let mut plain_decimator = Decimator::new();
    let mut plain_highpass = HighPass50::new();
    let mut reference = [Word16(0); L_FRAME];
    plain_decimator.decimate(&input, &mut reference);
    plain_highpass.filter(&mut reference);
    plain_decimator.decimate(&input, &mut reference);
    plain_highpass.filter(&mut reference);

    for i in 0..L_FRAME {
        assert_eq!(
            second[i].0, reference[i].0,
            "sample {i}: the tail call leaked into the carried state"
        );
    }
}

#[test]
fn silence_takes_the_maximum_scaling() {
    let mut pre = Preprocessor::new();
    let mut new_speech = [Word16(0); L_FRAME + L_FILT];
    pre.band_limit(&[Word16(0); L_FRAME16K], &mut new_speech);
    let scaling = pre.preemphasise(&mut new_speech);
    assert_eq!(scaling.q_new, Q_MAX);
    assert_eq!(scaling.exp, Q_MAX - 15);
}

#[test]
fn exp_tracks_the_change_in_scaling_across_frames() {
    let mut pre = Preprocessor::new();
    let mut previous = 15i16;
    for frame in 0..3 {
        let mut input = input_frame(frame);
        restrict_to_14_bit(&mut input);
        let mut new_speech = [Word16(0); L_FRAME + L_FILT];
        pre.band_limit(&input, &mut new_speech);
        let scaling = pre.preemphasise(&mut new_speech);
        assert_eq!(scaling.exp, scaling.q_new - previous, "frame {frame}: exp");
        previous = scaling.q_new;
    }
}

#[test]
fn input_is_restricted_to_fourteen_bits_before_the_coder_sees_it() {
    let mut samples: Vec<Word16> = (-9i16..9).map(Word16).collect();
    let raw = samples.clone();
    restrict_to_14_bit(&mut samples);
    for (kept, original) in samples.iter().zip(&raw) {
        assert_eq!(kept.0, original.0 & !3, "the two low bits are dropped");
    }
}
