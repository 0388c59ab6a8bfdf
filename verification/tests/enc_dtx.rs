use amrwb::dtx::{DTX_HANG_CONST, DTX_HIST_SIZE};
use amrwb::enc::dtx::{row_offset, DtxEncoder, TxDecision, D_LEN};
use amrwb::fixed_point::{DspContext, Word16, Word32};
use amrwb::isf_noise::LP_ORDER;

#[test]
fn the_row_offsets_tile_the_triangular_matrix() {
    let mut expected = 0;
    for row in 0..DTX_HIST_SIZE - 1 {
        assert_eq!(row_offset(row), expected, "row {row}");
        expected += 7 - row;
    }
    assert_eq!(expected, D_LEN);
}

#[test]
fn the_matrix_shift_matches_the_references_stride_walk() {
    let mut direct: [i32; D_LEN] = std::array::from_fn(|i| i32::try_from(i).expect("D_LEN is 28"));
    for row in (0..DTX_HIST_SIZE - 2).rev() {
        for column in 0..=(5 - row) {
            direct[row_offset(row + 1) + column] = direct[row_offset(row) + column];
        }
    }

    let mut literal: [i32; D_LEN] = std::array::from_fn(|i| i32::try_from(i).expect("D_LEN is 28"));
    let mut i: i32 = 27;
    let mut tmp: i32 = 0;
    while i >= 12 {
        tmp += 1;
        let mut j = tmp;
        while j > 0 {
            let (dst, src) = (
                usize::try_from(i - j + 1).expect("in range"),
                usize::try_from(i - j - tmp).expect("in range"),
            );
            literal[dst] = literal[src];
            j -= 1;
        }
        i -= tmp;
    }

    assert_eq!(direct, literal, "the closed form and the stride walk diverge");
    assert_eq!(
        &direct[row_offset(1)..],
        &[0, 1, 2, 3, 4, 5, 7, 8, 9, 10, 11, 13, 14, 15, 16, 18, 19, 20, 22, 23, 25][..],
        "the shifted rows do not match the measured output"
    );
}

#[test]
fn the_hangover_runs_seven_frames_from_a_cold_start() {
    let mut ctx = DspContext::default();
    let mut dtx = DtxEncoder::new();
    for _ in 0..3 {
        assert_eq!(dtx.classify(&mut ctx, true), TxDecision::Speech);
    }
    let mut speech_after_spurt = 0;
    let mut first_cn = None;
    for frame in 0..12 {
        if dtx.classify(&mut ctx, false) == TxDecision::Speech {
            speech_after_spurt += 1;
        } else if first_cn.is_none() {
            first_cn = Some(frame);
        }
    }
    assert_eq!(speech_after_spurt, 7, "the extra hangover is not seven frames");
    assert_eq!(first_cn, Some(7));
}

#[test]
fn a_short_burst_inside_silence_gets_no_hangover_at_all() {
    let mut ctx = DspContext::default();
    let mut dtx = DtxEncoder::new();
    for _ in 0..12 {
        dtx.classify(&mut ctx, false);
    }
    for _ in 0..3 {
        assert_eq!(dtx.classify(&mut ctx, true), TxDecision::Speech);
    }
    assert_eq!(
        dtx.classify(&mut ctx, false),
        TxDecision::ComfortNoise,
        "a short burst should not restore the hangover"
    );
}

#[test]
fn speech_rearms_the_counter_that_mode_8_reads() {
    let mut ctx = DspContext::default();
    let mut dtx = DtxEncoder::new();
    assert_eq!(dtx.hangover_count(), Word16(DTX_HANG_CONST));
    for _ in 0..3 {
        dtx.classify(&mut ctx, false);
    }
    assert!(dtx.hangover_count().0 < DTX_HANG_CONST);
    dtx.classify(&mut ctx, true);
    assert_eq!(
        dtx.hangover_count(),
        Word16(DTX_HANG_CONST),
        "23.85 kbit/s reads this, so a stale value changes the bitstream"
    );
}

#[test]
fn the_history_ring_starts_at_slot_one_and_wraps_at_eight() {
    let mut ctx = DspContext::default();
    let mut dtx = DtxEncoder::new();
    let isf = [Word16(1000); LP_ORDER];
    assert_eq!(dtx.hist_ptr, 0);
    dtx.buffer(&mut ctx, &isf, Word32(1_000_000), 2);
    assert_eq!(dtx.hist_ptr, 1, "the newest frame lands at the new pointer");
    for _ in 0..7 {
        dtx.buffer(&mut ctx, &isf, Word32(1_000_000), 2);
    }
    assert_eq!(dtx.hist_ptr, 0, "eight calls wrap");
}
