//! One subframe: target, closed-loop pitch, codebook, gains, and the local
//! synthesis that makes the next subframe's target.

use vstd::prelude::*;
use vstd::slice::slice_subrange;
use crate::enc::analysis::{
    deemph2, deemph2_of, residu, residual, weight_a, weighted_taps, GAMMA1, TILT_FAC,
};
use crate::enc::budget::PulseBudget;
use crate::enc::codebook::{
    correlate_target, correlation, pair_index, pair_response, pitch_sharpen, pulse_pair, sharpened,
    signed_correlation, signs, search_two_pulse, two_pulse_pick, PITCH_SHARP,
};
use crate::enc::gain_quant::{
    chosen_index, gain_codebook, prediction, remembered, scale_code_gain, table_energy, GainBits,
    GainInputs, GainPredictor, GainView, PitchCorrelations,
};
use crate::enc::high_band::{
    analysed_band, band_index, enhanced, excitation_of, excited, moved_threshold, EnhancementInputs,
    EnhancementView, HighBand, HighBandView,
};
use crate::enc::pack::packed_indices;
use crate::enc::pitch::{
    choose_ltp, clipping, closed_loop_choice, closed_loop_lag, eight_bit_resolution, error_balance,
    error_of, law_smaller_error_wins, next_mean_gain, nine_bit_resolution, predict_adaptive,
    smooth_vector, update_target, updated_target, weighed, window_around, window_correlations,
    BITS_8K85, CandidateView, GainClipping, LagWindow, LtpDecision, PIT_MAX, PIT_MIN, PitchMode,
    SearchLimits,
};
use crate::enc::preproc::{L_FRAME16K, L_TOTAL};
use crate::enc::rate::{bits_of, lemma_bits_length, Parameters, Rate, NBBITS_24K};
use crate::enc::search::{
    filled_slots, impulse_scaling, pulse_code, q9_response, search_multi_pulse, search_outcome,
    search_view,
};
use crate::enc::shaping::{
    impulse_of, impulse_response, lemma_levels_fit, preemph, preemph2, preemph2_of, preemph_of,
    voice_factor, voicing,
};
use crate::fixed_point::{
    add_s, l_mac, l_msu, l_mult, l_negate, l_shl, lemma_l_mac, lemma_l_shl, lemma_round, lemma_shr,
    round, shr, sub_s, DspContext, Word16, Word32,
};
use crate::highband::L_SUBFR16K;
use crate::isf_noise::LP_ORDER;
use crate::lag::{codable, encode_lag, lag_index, lag_index_width};
use crate::ltp::{law_prediction_leaves_the_past, predicted};
use crate::math::{scale_sig, scaled_seq};
use crate::synthesis::{syn_filt, synthesised_memory, synthesised_signal, L_SUBFR};

verus! {

/// Excitation history carried between frames.
pub const EXC_HISTORY: usize = 248;

/// The whole working excitation buffer: history, a frame, and one sample that
/// the adaptive codebook's low-pass reads ahead.
pub const EXC_LEN: usize = 505;

/// What one subframe reads that it does not own, as plain values.
pub struct SubframeView {
    pub rate: Rate,
    pub mode: PitchMode,
    /// Which of the four subframes.
    pub index: int,
    /// The speech buffer.
    pub window: Seq<Word16>,
    /// The unquantised and the quantised predictor.
    pub a: Seq<Word16>,
    pub aq: Seq<Word16>,
    pub q_new: i16,
    pub shift: i16,
    pub stab_fac: Word16,
    pub lag_window: LagWindow,
    pub absolute: bool,
    /// The 16 kHz input.
    pub pcm: Seq<Word16>,
    pub vad_hist: i16,
    pub hangover: Word16,
}

/// What a subframe owns, as plain values.
pub struct CoreView {
    /// The local synthesis filter's memory.
    pub mem_syn: Seq<Word16>,
    /// The weighting filter's memory.
    pub mem_w0: Word16,
    /// The previous subframe's voicing, as a tilt.
    pub tilt_code: Word16,
    pub clipping: GainClipping,
    /// The gain predictor.
    pub past_energy: Seq<Word16>,
    pub high_band: HighBandView,
}

/// Where a subframe starts in the excitation buffer.
pub open spec fn base_of(s: SubframeView) -> int {
    248 + 64 * s.index
}

/// Where a subframe starts in the speech buffer.
pub open spec fn at_of(s: SubframeView) -> int {
    64 + 64 * s.index
}

// ---------------------------------------------------------------------------
// Target and impulse response
// ---------------------------------------------------------------------------

/// The weighting numerator of a subframe.
pub open spec fn numerator(s: SubframeView) -> Seq<Word16> {
    weighted_taps(s.a, Word16(GAMMA1))
}

/// The residual of a subframe.
pub open spec fn subframe_residual(s: SubframeView) -> Seq<Word16> {
    residual(s.aq, s.window.subrange(at_of(s) - 16, at_of(s) + 64))
}

/// How far the local synthesis lies from the speech before a subframe.
pub open spec fn error_memory(c: CoreView, s: SubframeView) -> Seq<Word16> {
    Seq::new(16, |i: int| sub_s(s.window[at_of(s) - 16 + i], c.mem_syn[i]))
}

/// The pitch target before scaling.
#[verifier::opaque]
pub open spec fn raw_target(c: CoreView, s: SubframeView) -> Seq<Word16> {
    let memory = error_memory(c, s);
    let error = memory + synthesised_signal(s.aq, memory, subframe_residual(s));
    deemph2_of(residual(numerator(s), error), Word16(TILT_FAC), c.mem_w0)
}

/// The target in the residual domain: its first half exactly, its second half
/// approximated by the residual.
#[verifier::opaque]
pub open spec fn raw_reference(c: CoreView, s: SubframeView) -> Seq<Word16> {
    let zeros = Seq::new(16, |i: int| Word16(0));
    let lifted = preemph2_of(raw_target(c, s).take(32), Word16(TILT_FAC), Word16(0));
    let filtered = synthesised_signal(numerator(s), zeros, lifted);
    residual(s.aq, zeros + filtered) + subframe_residual(s).skip(32)
}

/// The impulse response of the weighted synthesis filter.
#[verifier::opaque]
pub open spec fn raw_response(s: SubframeView) -> Seq<Word16> {
    deemph2_of(impulse_of(numerator(s), s.aq), Word16(TILT_FAC), Word16(0))
}

/// The pitch target.
pub open spec fn target_of(c: CoreView, s: SubframeView) -> Seq<Word16> {
    scaled_seq(raw_target(c, s), s.shift)
}

/// The impulse response of the pitch search.
pub open spec fn pitch_response(s: SubframeView) -> Seq<Word16> {
    scaled_seq(raw_response(s), (1 + s.shift) as i16)
}

/// A buffer with a block written into it.
pub open spec fn with_block(exc: Seq<Word16>, base: int, block: Seq<Word16>) -> Seq<Word16> {
    Seq::new(
        exc.len(),
        |i: int|
            if base <= i < base + block.len() {
                block[i - base]
            } else {
                exc[i]
            },
    )
}

// ---------------------------------------------------------------------------
// Pitch
// ---------------------------------------------------------------------------

/// What constrains the pitch search.
pub open spec fn limits_of(s: SubframeView) -> SearchLimits {
    SearchLimits {
        window: s.lag_window,
        absolute: s.absolute,
        resolution: if s.mode.frame_bits() > BITS_8K85 {
            nine_bit_resolution()
        } else {
            eight_bit_resolution()
        },
    }
}

/// Whether the pitch index has quarter-sample resolution.
pub open spec fn quarter_of(s: SubframeView) -> bool {
    s.mode.frame_bits() > BITS_8K85
}

/// The excitation buffer that the pitch search runs on.
pub open spec fn searched_exc(s: SubframeView, exc: Seq<Word16>) -> Seq<Word16> {
    with_block(exc, base_of(s), subframe_residual(s))
}

/// The lag and the fraction of a subframe.
#[verifier::opaque]
pub open spec fn lag_of(c: CoreView, s: SubframeView, exc: Seq<Word16>) -> (int, int) {
    closed_loop_choice(
        window_correlations(
            searched_exc(s, exc),
            base_of(s),
            target_of(c, s),
            pitch_response(s),
            s.lag_window,
        ),
        limits_of(s),
    )
}

/// The window that the next subframe searches.
#[verifier::opaque]
pub open spec fn next_window(c: CoreView, s: SubframeView, exc: Seq<Word16>) -> LagWindow {
    if s.absolute {
        window_around(lag_of(c, s, exc).0)
    } else {
        s.lag_window
    }
}

/// The bits of the pitch index.
pub open spec fn lag_bits(c: CoreView, s: SubframeView, exc: Seq<Word16>) -> Seq<u8> {
    let (t0, frac) = lag_of(c, s, exc);
    bits_of(
        (lag_index(t0 as i16, frac as i16, s.lag_window.min, s.absolute, quarter_of(s)).0 as u16)
            as int,
        lag_index_width(s.absolute, quarter_of(s)) as int,
    )
}

/// The excitation buffer with the adaptive codebook's vector.
pub open spec fn adaptive_exc(c: CoreView, s: SubframeView, exc: Seq<Word16>) -> Seq<Word16> {
    let (t0, frac) = lag_of(c, s, exc);
    predicted(searched_exc(s, exc), base_of(s), t0, frac, 65)
}

/// The low-passed candidate.
#[verifier::opaque]
pub open spec fn smooth_candidate(c: CoreView, s: SubframeView, exc: Seq<Word16>) -> CandidateView {
    weighed(
        smooth_vector(adaptive_exc(c, s, exc), base_of(s)),
        target_of(c, s),
        pitch_response(s),
        clipping(c.clipping, s.mode),
    )
}

/// The unfiltered candidate.
#[verifier::opaque]
pub open spec fn sharp_candidate(c: CoreView, s: SubframeView, exc: Seq<Word16>) -> CandidateView {
    weighed(
        adaptive_exc(c, s, exc).subrange(base_of(s), base_of(s) + 64),
        target_of(c, s),
        pitch_response(s),
        clipping(c.clipping, s.mode),
    )
}

/// Whether the unfiltered candidate wins.
pub open spec fn prefers_sharp(c: CoreView, s: SubframeView, exc: Seq<Word16>) -> bool {
    s.mode.frame_bits() > BITS_8K85 && error_balance(
        sharp_candidate(c, s, exc).target,
        smooth_candidate(c, s, exc).target,
    ).0 <= 0
}

/// The winning candidate.
pub open spec fn winner(c: CoreView, s: SubframeView, exc: Seq<Word16>) -> CandidateView {
    if prefers_sharp(c, s, exc) {
        sharp_candidate(c, s, exc)
    } else {
        smooth_candidate(c, s, exc)
    }
}

/// The winning adaptive vector.
pub open spec fn chosen_vector(c: CoreView, s: SubframeView, exc: Seq<Word16>) -> Seq<Word16> {
    if prefers_sharp(c, s, exc) {
        adaptive_exc(c, s, exc).subrange(base_of(s), base_of(s) + 64)
    } else {
        smooth_vector(adaptive_exc(c, s, exc), base_of(s))
    }
}

/// The bit that says which candidate won, where there are two.
pub open spec fn ltp_bits(c: CoreView, s: SubframeView, exc: Seq<Word16>) -> Seq<u8> {
    if s.mode.frame_bits() > BITS_8K85 {
        bits_of(
            if prefers_sharp(c, s, exc) {
                1
            } else {
                0
            },
            1,
        )
    } else {
        Seq::empty()
    }
}

// ---------------------------------------------------------------------------
// Codebook
// ---------------------------------------------------------------------------

/// The lag that the codeword is sharpened at.
pub open spec fn sharp_lag(c: CoreView, s: SubframeView, exc: Seq<Word16>) -> int {
    let (t0, frac) = lag_of(c, s, exc);
    if frac > 2 {
        t0 + 1
    } else {
        t0
    }
}

/// A vector shaped as the excitation will be: pre-emphasised by the previous
/// subframe's voicing, then sharpened at the pitch.
pub open spec fn shaped_as_code(x: Seq<Word16>, tilt: Word16, lag: int) -> Seq<Word16> {
    sharpened(preemph_of(x, tilt, Word16(0)), lag, Word16(PITCH_SHARP), x.len() as int)
}

/// The impulse response that the codebook searches.
pub open spec fn code_response(c: CoreView, s: SubframeView, exc: Seq<Word16>) -> Seq<Word16> {
    shaped_as_code(scaled_seq(raw_response(s), -2i16), c.tilt_code, sharp_lag(c, s, exc))
}

/// The codebook target in the residual domain.
pub open spec fn code_reference(c: CoreView, s: SubframeView, exc: Seq<Word16>) -> Seq<Word16> {
    scaled_seq(
        updated_target(raw_reference(c, s), chosen_vector(c, s, exc), winner(c, s, exc).gain),
        s.shift,
    )
}

/// What the codebook search gives: the codeword, its response, and the bits of
/// its indices.
pub struct CodeView {
    pub code: Seq<Word16>,
    pub filtered: Seq<Word16>,
    pub bits: Seq<u8>,
}

/// The bits of the first `n` indices.
pub open spec fn index_bits(indices: Seq<u16>, widths: Seq<usize>, n: int) -> Seq<u8>
    decreases n,
{
    if n <= 0 {
        Seq::empty()
    } else {
        index_bits(indices, widths, n - 1) + bits_of(
            indices[n - 1] as int,
            widths[n - 1] as int,
        )
    }
}

/// The codebook search.
#[verifier::opaque]
pub open spec fn searched_code(
    rate: Rate,
    target: Seq<Word16>,
    reference: Seq<Word16>,
    response: Seq<Word16>,
    filtered: Seq<Word16>,
) -> CodeView {
    let dn = correlation(response, target);
    match PulseBudget::spec_from_frame_bits(rate.spec_bits() as usize) {
        None => {
            let sign = signs(dn, reference, Word16(8192));
            let best = two_pulse_pick(
                signed_correlation(dn, reference, Word16(8192)),
                sign,
                response,
                1024,
            );
            CodeView {
                code: pulse_pair(sign, best.2, best.3),
                filtered: pair_response(response, sign, best.2, best.3),
                bits: bits_of(pair_index(sign, best.2, best.3), 12),
            }
        },
        Some(budget) => {
            let v = search_view(dn, reference, response, budget);
            let best = search_outcome(
                v,
                budget,
                filtered,
                budget.spec_iterations(rate.spec_bits() as usize) as int,
            );
            let n = budget.spec_pulses() as int;
            let amplitude = shr(Word16(512), impulse_scaling(response, budget));
            let indices = packed_indices(budget, filled_slots(v.sign, best.2, n));
            CodeView {
                code: pulse_code(v.sign, amplitude, best.2, n),
                filtered: q9_response(best.3),
                bits: index_bits(
                    indices,
                    rate.spec_pulse_widths(),
                    rate.spec_pulse_widths().len() as int,
                ),
            }
        },
    }
}

/// A subframe's codebook search.
pub open spec fn code_of(c: CoreView, s: SubframeView, exc: Seq<Word16>) -> CodeView {
    searched_code(
        s.rate,
        winner(c, s, exc).target,
        code_reference(c, s, exc),
        code_response(c, s, exc),
        smooth_candidate(c, s, exc).response,
    )
}

/// The codeword with the filters that the impulse response had.
pub open spec fn shaped_code(c: CoreView, s: SubframeView, exc: Seq<Word16>) -> Seq<Word16> {
    shaped_as_code(code_of(c, s, exc).code, c.tilt_code, sharp_lag(c, s, exc))
}

// ---------------------------------------------------------------------------
// Gains
// ---------------------------------------------------------------------------

/// The width of the gain index.
pub open spec fn gain_width(rate: Rate) -> GainBits {
    if rate.spec_bits() <= 177 {
        GainBits::Six
    } else {
        GainBits::Seven
    }
}

/// What the gain quantiser reads.
pub open spec fn gain_view(c: CoreView, s: SubframeView, exc: Seq<Word16>) -> GainView {
    let w = winner(c, s, exc);
    GainView {
        target: target_of(c, s),
        filtered_adaptive: w.response,
        target_q: add_s(Word16(s.q_new), Word16(s.shift)).0,
        filtered_code: code_of(c, s, exc).filtered,
        code: shaped_code(c, s, exc),
        correlations: PitchCorrelations {
            energy: w.correlations.energy,
            energy_exp: w.correlations.energy_exp,
            correlation: w.correlations.correlation,
            correlation_exp: w.correlations.correlation_exp,
        },
        bits: gain_width(s.rate),
        pitch_gain: w.gain,
        clip_pitch_gain: clipping(c.clipping, s.mode),
    }
}

/// The gain index of a subframe.
#[verifier::opaque]
pub open spec fn gain_index(c: CoreView, s: SubframeView, exc: Seq<Word16>) -> int {
    chosen_index(c.past_energy, gain_view(c, s, exc))
}

/// The quantised pitch gain.
pub open spec fn quantised_pitch_gain(c: CoreView, s: SubframeView, exc: Seq<Word16>) -> Word16 {
    Word16(gain_codebook(gain_width(s.rate))[2 * gain_index(c, s, exc)])
}

/// The code gain's correction out of the table.
pub open spec fn table_gain(c: CoreView, s: SubframeView, exc: Seq<Word16>) -> Word16 {
    Word16(gain_codebook(gain_width(s.rate))[2 * gain_index(c, s, exc) + 1])
}

/// The quantised code gain, Q16.
pub open spec fn quantised_code_gain(c: CoreView, s: SubframeView, exc: Seq<Word16>) -> Word32 {
    let (gcode0, exp_gcode0) = prediction(c.past_energy, shaped_code(c, s, exc));
    l_shl(l_mult(table_gain(c, s, exc), gcode0), add_s(exp_gcode0, Word16(4)).0)
}

/// The code gain in the frame's scaling.
pub open spec fn frame_code_gain(c: CoreView, s: SubframeView, exc: Seq<Word16>) -> Word16 {
    round(l_shl(quantised_code_gain(c, s, exc), s.q_new))
}

// ---------------------------------------------------------------------------
// Excitation and memories
// ---------------------------------------------------------------------------

/// The voicing of a subframe.
#[verifier::opaque]
pub open spec fn subframe_voicing(c: CoreView, s: SubframeView, exc: Seq<Word16>) -> Word16 {
    voicing(
        scaled_seq(chosen_vector(c, s, exc), s.shift),
        s.shift,
        quantised_pitch_gain(c, s, exc),
        shaped_code(c, s, exc),
        frame_code_gain(c, s, exc),
    )
}

/// The weighting filter's memory for the next subframe.
#[verifier::opaque]
pub open spec fn weighting_memory(
    gain_code: Word16,
    filtered: Word16,
    target: Word16,
    response: Word16,
    gain_pit: Word16,
    shift: i16,
) -> Word16 {
    let code = l_negate(l_shl(l_mult(gain_code, filtered), (5 + shift) as i16));
    let rest = l_msu(l_mac(code, target, Word16(16384)), response, gain_pit);
    round(l_shl(rest, (1 - shift) as i16))
}

/// The total excitation of a subframe.
pub open spec fn total_excitation(c: CoreView, s: SubframeView, exc: Seq<Word16>) -> Seq<Word16> {
    excitation_of(
        shaped_code(c, s, exc),
        frame_code_gain(c, s, exc),
        chosen_vector(c, s, exc),
        quantised_pitch_gain(c, s, exc),
    )
}

/// The excitation buffer after a subframe: the total excitation, and behind it
/// the one predicted sample that the next subframe overwrites.
#[verifier::opaque]
pub open spec fn exc_after(c: CoreView, s: SubframeView, exc: Seq<Word16>) -> Seq<Word16> {
    with_block(adaptive_exc(c, s, exc), base_of(s), total_excitation(c, s, exc))
}

/// What the high band's excitation is built from.
pub open spec fn enhancement_view(c: CoreView, s: SubframeView, exc: Seq<Word16>) -> EnhancementView {
    EnhancementView {
        adaptive: chosen_vector(c, s, exc),
        code: shaped_code(c, s, exc),
        l_gain_code: quantised_code_gain(c, s, exc),
        gain_pit: quantised_pitch_gain(c, s, exc),
        voice_fac: subframe_voicing(c, s, exc),
        stab_fac: s.stab_fac,
        q_new: s.q_new,
    }
}

/// The high band after its excitation has been built.
pub open spec fn enhanced_band(c: CoreView, s: SubframeView, exc: Seq<Word16>) -> HighBandView {
    HighBandView {
        threshold: moved_threshold(quantised_code_gain(c, s, exc), c.high_band.threshold),
        ..c.high_band
    }
}

/// The high band's excitation.
pub open spec fn band_excitation(c: CoreView, s: SubframeView, exc: Seq<Word16>) -> Seq<Word16> {
    enhanced(enhancement_view(c, s, exc), enhanced_band(c, s, exc).threshold)
}

/// The 16 kHz input of a subframe.
pub open spec fn subframe_pcm(s: SubframeView) -> Seq<Word16> {
    s.pcm.subrange(80 * s.index, 80 * s.index + 80)
}

/// Whether the rate has a high band.
pub open spec fn has_band(s: SubframeView) -> bool {
    s.rate.spec_bits() >= NBBITS_24K
}

/// The high band's bits.
pub open spec fn band_bits(c: CoreView, s: SubframeView, exc: Seq<Word16>) -> Seq<u8> {
    if has_band(s) {
        bits_of(
            band_index(
                enhanced_band(c, s, exc),
                s.aq,
                band_excitation(c, s, exc),
                s.q_new,
                subframe_pcm(s),
                s.vad_hist,
                s.hangover,
            ),
            4,
        )
    } else {
        Seq::empty()
    }
}

/// Everything that a subframe writes, in transmission order.
#[verifier::opaque]
pub open spec fn subframe_bits(c: CoreView, s: SubframeView, exc: Seq<Word16>) -> Seq<u8> {
    lag_bits(c, s, exc) + ltp_bits(c, s, exc) + code_of(c, s, exc).bits + bits_of(
        gain_index(c, s, exc),
        if gain_width(s.rate) == GainBits::Six {
            6
        } else {
            7
        },
    ) + band_bits(c, s, exc)
}

/// What a subframe owns, afterwards.
#[verifier::opaque]
pub open spec fn core_after(c: CoreView, s: SubframeView, exc: Seq<Word16>) -> CoreView {
    CoreView {
        mem_syn: synthesised_memory(s.aq, c.mem_syn, total_excitation(c, s, exc)),
        mem_w0: weighting_memory(
            frame_code_gain(c, s, exc),
            code_of(c, s, exc).filtered[63],
            target_of(c, s)[63],
            winner(c, s, exc).response[63],
            quantised_pitch_gain(c, s, exc),
            s.shift,
        ),
        tilt_code: add_s(shr(subframe_voicing(c, s, exc), 2), Word16(8192)),
        clipping: GainClipping {
            mean_gain: next_mean_gain(
                c.clipping.mean_gain,
                s.mode,
                quantised_pitch_gain(c, s, exc),
            ),
            ..c.clipping
        },
        past_energy: remembered(c.past_energy, table_energy(table_gain(c, s, exc))),
        high_band: if has_band(s) {
            analysed_band(
                enhanced_band(c, s, exc),
                s.aq,
                band_excitation(c, s, exc),
                s.q_new,
                subframe_pcm(s),
                s.hangover,
            )
        } else {
            c.high_band
        },
    }
}

// ---------------------------------------------------------------------------
// Widths
// ---------------------------------------------------------------------------

/// The sum of the first `n` widths.
pub open spec fn total_width(widths: Seq<usize>, n: int) -> int
    decreases n,
{
    if n <= 0 {
        0
    } else {
        total_width(widths, n - 1) + widths[n - 1]
    }
}

/// The bits of a subframe's codebook indices.
pub open spec fn pulse_width(rate: Rate) -> int {
    let bits = rate.spec_bits();
    if bits <= 132 {
        12
    } else if bits <= 177 {
        20
    } else if bits <= 253 {
        36
    } else if bits <= 285 {
        44
    } else if bits <= 317 {
        52
    } else if bits <= 365 {
        64
    } else if bits <= 397 {
        72
    } else {
        88
    }
}

/// How many bits a subframe writes.
pub open spec fn subframe_width(rate: Rate, mode: PitchMode, absolute: bool) -> int {
    let quarter = mode.frame_bits() > BITS_8K85;
    lag_index_width(absolute, quarter) + (if quarter {
        1int
    } else {
        0
    }) + pulse_width(rate) + (if rate.spec_bits() <= 177 {
        6int
    } else {
        7
    }) + (if rate.spec_bits() >= NBBITS_24K {
        4int
    } else {
        0
    })
}

/// Indices take the sum of their widths.
pub proof fn lemma_index_bits(indices: Seq<u16>, widths: Seq<usize>, n: int)
    requires
        0 <= n <= widths.len(),
    ensures
        index_bits(indices, widths, n).len() == total_width(widths, n),
        total_width(widths, n) >= 0,
    decreases n,
{
    if n > 0 {
        lemma_index_bits(indices, widths, n - 1);
        lemma_bits_length(indices[n - 1] as int, widths[n - 1] as int);
    }
}

/// The codebook's widths add up.
pub proof fn lemma_pulse_width(rate: Rate)
    requires
        rate.wf(),
        rate.spec_index() != 9,
    ensures
        total_width(rate.spec_pulse_widths(), rate.spec_pulse_widths().len() as int)
            == pulse_width(rate),
        forall|k: int|
            0 <= k < rate.spec_pulse_widths().len() ==> 1 <= #[trigger] rate.spec_pulse_widths()[k]
                <= 14,
        1 <= rate.spec_pulse_widths().len() <= 8,
{
    reveal_with_fuel(total_width, 9);
}

/// A prefix of the widths is no wider than all of them.
proof fn lemma_width_prefix(widths: Seq<usize>, k: int, n: int)
    requires
        0 <= k <= n <= widths.len(),
    ensures
        total_width(widths, k) <= total_width(widths, n),
    decreases n,
{
    if k < n {
        lemma_width_prefix(widths, k, n - 1);
    }
}

// ---------------------------------------------------------------------------
// Stages
// ---------------------------------------------------------------------------

/// Everything one subframe reads that it does not own.
pub struct SubframeInputs<'a> {
    pub rate: Rate,
    pub mode: PitchMode,
    pub index: usize,
    pub window: &'a [Word16; L_TOTAL],
    pub a: &'a [Word16; 17],
    pub aq: &'a [Word16; 17],
    pub q_new: i16,
    pub shift: i16,
    pub stab_fac: Word16,
    pub lag_window: LagWindow,
    pub absolute: bool,
    pub pcm: &'a [Word16; L_FRAME16K],
    pub vad_hist: i16,
    pub hangover: Word16,
}

impl<'a> SubframeInputs<'a> {
    /// The inputs as plain values.
    pub open spec fn view(self) -> SubframeView {
        SubframeView {
            rate: self.rate,
            mode: self.mode,
            index: self.index as int,
            window: self.window@,
            a: self.a@,
            aq: self.aq@,
            q_new: self.q_new,
            shift: self.shift,
            stab_fac: self.stab_fac,
            lag_window: self.lag_window,
            absolute: self.absolute,
            pcm: self.pcm@,
            vad_hist: self.vad_hist,
            hangover: self.hangover,
        }
    }

    /// What a frame hands to its subframes.
    pub open spec fn wf(self) -> bool {
        &&& self.rate.wf()
        &&& self.rate.spec_index() != 9
        &&& self.index < 4
        &&& -3 <= self.shift <= 0
        &&& 0 <= self.q_new <= 8
        &&& PIT_MIN <= self.lag_window.min
        &&& self.lag_window.max <= PIT_MAX
        &&& self.lag_window.max - self.lag_window.min == 15
    }
}

/// What a subframe owns.
#[derive(Clone, Copy, Debug)]
pub struct SubframeCore {
    /// The local synthesis filter's memory.
    pub mem_syn: [Word16; LP_ORDER],
    /// The weighting filter's memory.
    pub mem_w0: Word16,
    /// The previous subframe's voicing, as a tilt.
    pub tilt_code: Word16,
    pub clipping: GainClipping,
    pub gains: GainPredictor,
    pub high_band: HighBand,
}

/// The target of a subframe before scaling, and what it was made of.
struct TargetStage {
    ap: [Word16; 17],
    residual: [Word16; L_SUBFR],
    xn: [Word16; L_SUBFR],
    cn: [Word16; L_SUBFR],
}

impl SubframeCore {
    /// The state as plain values.
    pub open spec fn view(&self) -> CoreView {
        CoreView {
            mem_syn: self.mem_syn@,
            mem_w0: self.mem_w0,
            tilt_code: self.tilt_code,
            clipping: self.clipping,
            past_energy: self.gains.past_energy@,
            high_band: self.high_band.view(),
        }
    }

    /// The invariant.
    pub open spec fn wf(&self) -> bool {
        self.high_band.wf()
    }

    /// The target for the pitch search, and the same target in the residual
    /// domain for the sign decision.
    ///
    /// The zero-input response is removed by filtering the residual from the
    /// local synthesis' own error.
    fn build_target(&self, s: &SubframeInputs<'_>) -> (t: TargetStage)
        requires
            s.wf(),
        ensures
            t.ap@ == numerator(s@),
            t.residual@ == subframe_residual(s@),
            t.xn@ == raw_target(self@, s@),
            t.cn@ == raw_reference(self@, s@),
    {
        let ghost c = self@;
        let ghost v = s@;
        let at: usize = 64 + s.index * L_SUBFR;
        let speech = slice_subrange(s.window, at - LP_ORDER, at + L_SUBFR);
        let mut residual: [Word16; L_SUBFR] = [Word16(0); L_SUBFR];
        residu(s.aq, speech, &mut residual);
        let mut memory: [Word16; LP_ORDER] = [Word16(0); LP_ORDER];
        for i in 0..LP_ORDER
            invariant
                v == s@,
                c == self@,
                s.wf(),
                at == 64 + 64 * s.index,
                forall|j: int| 0 <= j < i ==> #[trigger] memory@[j] == error_memory(c, v)[j],
        {
            memory[i] = sub_s(s.window[at - LP_ORDER + i], self.mem_syn[i]);
        }
        assert(memory@ =~= error_memory(c, v));
        let mut filtered: [Word16; L_SUBFR] = [Word16(0); L_SUBFR];
        let mut scratch = memory;
        syn_filt(s.aq, &residual, &mut filtered, &mut scratch, false);
        let mut error: [Word16; 80] = [Word16(0); 80];
        for i in 0..80usize
            invariant
                forall|j: int|
                    0 <= j < i ==> #[trigger] error@[j] == (memory@ + filtered@)[j],
        {
            error[i] = if i < LP_ORDER {
                memory[i]
            } else {
                filtered[i - LP_ORDER]
            };
        }
        assert(error@ =~= memory@ + filtered@);
        let ap = weight_a(s.a, Word16(GAMMA1));
        let mut xn: [Word16; L_SUBFR] = [Word16(0); L_SUBFR];
        residu(&ap, &error, &mut xn);
        let mut w0 = self.mem_w0;
        deemph2(&mut xn, Word16(TILT_FAC), &mut w0);
        proof {
            reveal(raw_target);
            assert(xn@ == raw_target(c, v));
        }
        let cn = residual_target(&ap, s.aq, &xn, &residual);
        proof {
            reveal(raw_reference);
            assert(cn@ == raw_reference(c, v));
        }
        TargetStage { ap, residual, xn, cn }
    }
}

/// The target in the residual domain: its first half exactly, its second half
/// approximated by the residual.
fn residual_target(
    ap: &[Word16; 17],
    aq: &[Word16; 17],
    xn: &[Word16; L_SUBFR],
    residual_block: &[Word16; L_SUBFR],
) -> (cn: [Word16; L_SUBFR])
    ensures
        ({
            let zeros = Seq::new(16, |i: int| Word16(0));
            let lifted = preemph2_of(xn@.take(32), Word16(TILT_FAC), Word16(0));
            let filtered = synthesised_signal(ap@, zeros, lifted);
            cn@ == residual(aq@, zeros + filtered) + residual_block@.skip(32)
        }),
{
    let ghost zeros = Seq::new(16, |i: int| Word16(0));
    let mut half: [Word16; 32] = [Word16(0); 32];
    for i in 0..32usize
        invariant
            forall|j: int| 0 <= j < i ==> #[trigger] half@[j] == xn@[j],
    {
        half[i] = xn[i];
    }
    assert(half@ =~= xn@.take(32));
    let mut memory = Word16(0);
    preemph2(&mut half, Word16(TILT_FAC), &mut memory);
    let mut filtered: [Word16; 32] = [Word16(0); 32];
    let mut rest: [Word16; LP_ORDER] = [Word16(0); LP_ORDER];
    assert(rest@ =~= zeros);
    syn_filt(ap, &half, &mut filtered, &mut rest, false);
    let mut scratch: [Word16; 48] = [Word16(0); 48];
    for i in 0..32usize
        invariant
            forall|j: int| 0 <= j < 16 ==> #[trigger] scratch@[j] == Word16(0),
            forall|j: int| 16 <= j < 16 + i ==> #[trigger] scratch@[j] == filtered@[j - 16],
    {
        scratch[LP_ORDER + i] = filtered[i];
    }
    assert(scratch@ =~= zeros + filtered@);
    let mut front: [Word16; 32] = [Word16(0); 32];
    residu(aq, &scratch, &mut front);
    let mut cn: [Word16; L_SUBFR] = [Word16(0); L_SUBFR];
    for i in 0..L_SUBFR
        invariant
            forall|j: int|
                0 <= j < i ==> #[trigger] cn@[j] == if j < 32 {
                    front@[j]
                } else {
                    residual_block@[j]
                },
    {
        cn[i] = if i < 32 {
            front[i]
        } else {
            residual_block[i]
        };
    }
    assert(cn@ =~= front@ + residual_block@.skip(32));
    cn
}

/// The impulse responses of the pitch search and of the codebook search.
fn build_responses(ap: &[Word16; 17], s: &SubframeInputs<'_>) -> (r: (
    [Word16; L_SUBFR],
    [Word16; L_SUBFR],
))
    requires
        s.wf(),
        ap@ == numerator(s@),
    ensures
        r.0@ == pitch_response(s@),
        r.1@ == scaled_seq(raw_response(s@), -2i16),
{
    let mut h1 = impulse_response(ap, s.aq);
    let mut memory = Word16(0);
    deemph2(&mut h1, Word16(TILT_FAC), &mut memory);
    proof {
        reveal(raw_response);
        assert(h1@ == raw_response(s@));
    }
    let mut h2 = h1;
    scale_sig(&mut h2, -2);
    scale_sig(&mut h1, 1 + s.shift);
    (h1, h2)
}

/// Write a block into the excitation buffer.
fn write_block(exc: &mut [Word16; EXC_LEN], base: usize, block: &[Word16; L_SUBFR])
    requires
        base + 64 <= 505,
    ensures
        final(exc)@ == with_block(old(exc)@, base as int, block@),
{
    for i in 0..L_SUBFR
        invariant
            base + 64 <= 505,
            forall|j: int|
                0 <= j < 505 ==> #[trigger] exc@[j] == if base <= j < base + i {
                    block@[j - base]
                } else {
                    old(exc)@[j]
                },
    {
        exc[base + i] = block[i];
    }
    assert(exc@ =~= with_block(old(exc)@, base as int, block@));
}

/// Read a block out of the excitation buffer.
fn read_block(exc: &[Word16; EXC_LEN], base: usize) -> (block: [Word16; L_SUBFR])
    requires
        base + 64 <= 505,
    ensures
        block@ == exc@.subrange(base as int, base + 64),
{
    let mut block: [Word16; L_SUBFR] = [Word16(0); L_SUBFR];
    for i in 0..L_SUBFR
        invariant
            base + 64 <= 505,
            forall|j: int| 0 <= j < i ==> #[trigger] block@[j] == exc@[base + j],
    {
        block[i] = exc[base + i];
    }
    assert(block@ =~= exc@.subrange(base as int, base + 64));
    block
}

/// What the pitch stage decided.
struct PitchStage {
    t0: i16,
    t0_frac: i16,
    clip: bool,
    decision: LtpDecision,
    adaptive: [Word16; L_SUBFR],
    chosen: [Word16; L_SUBFR],
}

/// The pitch stage and the signals that later stages read.
struct SearchedPitch {
    p: PitchStage,
    xn: [Word16; L_SUBFR],
    h1: [Word16; L_SUBFR],
    cn: [Word16; L_SUBFR],
    h2: [Word16; L_SUBFR],
    window: LagWindow,
}

/// What the codebook stage found, and what it searched.
struct SearchedCode {
    code: [Word16; L_SUBFR],
    y2: [Word16; L_SUBFR],
    cn: [Word16; L_SUBFR],
    h2: [Word16; L_SUBFR],
    dn: [Word16; L_SUBFR],
}

/// The excitation stage's signals.
struct ExcitedSubframe {
    voice_fac: Word16,
    total: [Word16; L_SUBFR],
    synth: [Word16; L_SUBFR],
}

/// The intermediates of one subframe.
#[derive(Clone, Copy, Debug)]
pub struct SubframeTrace {
    /// The pitch target and the response that it is searched with.
    pub xn: [Word16; L_SUBFR],
    pub h1: [Word16; L_SUBFR],
    /// The lag and its fraction, and the window of the next subframe.
    pub t0: i16,
    pub t0_frac: i16,
    pub window: LagWindow,
    /// Gains of the unfiltered and of the filtered candidate.
    pub gain1: Word16,
    pub gain2: Word16,
    /// The adaptive vector, and its response where the unfiltered candidate
    /// exists.
    pub adapt: [Word16; L_SUBFR],
    pub y1: [Word16; L_SUBFR],
    /// What the codebook searches.
    pub xn2: [Word16; L_SUBFR],
    pub cn: [Word16; L_SUBFR],
    pub h2: [Word16; L_SUBFR],
    pub dn: [Word16; L_SUBFR],
    /// Whether the unfiltered candidate won.
    pub select: bool,
    /// The codeword and its response.
    pub code: [Word16; L_SUBFR],
    pub y2: [Word16; L_SUBFR],
    /// The quantised gains, the code gain also in the frame's scaling.
    pub gain_pit: Word16,
    pub gain_code: Word16,
    pub l_gain_code: Word32,
    pub voice_fac: Word16,
    /// The total excitation and what it synthesises to.
    pub total: [Word16; L_SUBFR],
    pub synth: [Word16; L_SUBFR],
}

/// The unfiltered candidate's gain, zero where there is none.
pub open spec fn tried_gain(c: CoreView, s: SubframeView, exc: Seq<Word16>) -> Word16 {
    if s.mode.frame_bits() > BITS_8K85 {
        sharp_candidate(c, s, exc).gain
    } else {
        Word16(0)
    }
}

/// The unfiltered candidate's response, silent where there is none.
pub open spec fn tried_response(c: CoreView, s: SubframeView, exc: Seq<Word16>) -> Seq<Word16> {
    if s.mode.frame_bits() > BITS_8K85 {
        sharp_candidate(c, s, exc).response
    } else {
        Seq::new(64, |i: int| Word16(0))
    }
}

/// The adaptive vector before a candidate is chosen.
pub open spec fn adaptive_vector(c: CoreView, s: SubframeView, exc: Seq<Word16>) -> Seq<Word16> {
    adaptive_exc(c, s, exc).subrange(base_of(s), base_of(s) + 64)
}

/// The signal that a subframe synthesises to.
pub open spec fn subframe_synthesis(c: CoreView, s: SubframeView, exc: Seq<Word16>) -> Seq<Word16> {
    synthesised_signal(s.aq, c.mem_syn, total_excitation(c, s, exc))
}

/// The intermediates of one subframe, as plain values.
pub struct TraceView {
    pub xn: Seq<Word16>,
    pub h1: Seq<Word16>,
    pub t0: int,
    pub t0_frac: int,
    pub window: LagWindow,
    pub gain1: Word16,
    pub gain2: Word16,
    pub adapt: Seq<Word16>,
    pub y1: Seq<Word16>,
    pub xn2: Seq<Word16>,
    pub cn: Seq<Word16>,
    pub h2: Seq<Word16>,
    pub dn: Seq<Word16>,
    pub select: bool,
    pub code: Seq<Word16>,
    pub y2: Seq<Word16>,
    pub gain_pit: Word16,
    pub gain_code: Word16,
    pub l_gain_code: Word32,
    pub voice_fac: Word16,
    pub total: Seq<Word16>,
    pub synth: Seq<Word16>,
}

impl SubframeTrace {
    /// The intermediates as plain values.
    pub open spec fn view(self) -> TraceView {
        TraceView {
            xn: self.xn@,
            h1: self.h1@,
            t0: self.t0 as int,
            t0_frac: self.t0_frac as int,
            window: self.window,
            gain1: self.gain1,
            gain2: self.gain2,
            adapt: self.adapt@,
            y1: self.y1@,
            xn2: self.xn2@,
            cn: self.cn@,
            h2: self.h2@,
            dn: self.dn@,
            select: self.select,
            code: self.code@,
            y2: self.y2@,
            gain_pit: self.gain_pit,
            gain_code: self.gain_code,
            l_gain_code: self.l_gain_code,
            voice_fac: self.voice_fac,
            total: self.total@,
            synth: self.synth@,
        }
    }
}

/// What a subframe's intermediates are.
#[verifier::opaque]
pub open spec fn subframe_trace(c: CoreView, s: SubframeView, exc: Seq<Word16>) -> TraceView {
    TraceView {
        xn: target_of(c, s),
        h1: pitch_response(s),
        t0: lag_of(c, s, exc).0,
        t0_frac: lag_of(c, s, exc).1,
        window: next_window(c, s, exc),
        gain1: tried_gain(c, s, exc),
        gain2: smooth_candidate(c, s, exc).gain,
        adapt: adaptive_vector(c, s, exc),
        y1: tried_response(c, s, exc),
        xn2: winner(c, s, exc).target,
        cn: code_reference(c, s, exc),
        h2: code_response(c, s, exc),
        dn: correlation(code_response(c, s, exc), winner(c, s, exc).target),
        select: prefers_sharp(c, s, exc),
        code: shaped_code(c, s, exc),
        y2: code_of(c, s, exc).filtered,
        gain_pit: quantised_pitch_gain(c, s, exc),
        gain_code: frame_code_gain(c, s, exc),
        l_gain_code: quantised_code_gain(c, s, exc),
        voice_fac: subframe_voicing(c, s, exc),
        total: total_excitation(c, s, exc),
        synth: subframe_synthesis(c, s, exc),
    }
}

/// The pitch stage's result in terms of the specification.
spec fn pitch_stage_is(p: PitchStage, c: CoreView, s: SubframeView, exc: Seq<Word16>) -> bool {
    &&& (p.t0 as int, p.t0_frac as int) == lag_of(c, s, exc)
    &&& PIT_MIN <= p.t0 <= PIT_MAX
    &&& 0 <= p.t0_frac <= 3
    &&& p.clip == clipping(c.clipping, s.mode)
    &&& p.decision.prefer_sharp == prefers_sharp(c, s, exc)
    &&& p.decision.smooth_response@ == smooth_candidate(c, s, exc).response
    &&& p.decision.codebook_target@ == winner(c, s, exc).target
    &&& p.decision.correlations == winner(c, s, exc).correlations
    &&& (if p.decision.prefer_sharp {
        p.decision.sharp_gain == winner(c, s, exc).gain && p.decision.sharp_response@ == winner(
            c,
            s,
            exc,
        ).response
    } else {
        p.decision.smooth_gain == winner(c, s, exc).gain
    })
    &&& p.decision.sharp_gain == tried_gain(c, s, exc)
    &&& p.decision.smooth_gain == smooth_candidate(c, s, exc).gain
    &&& p.decision.sharp_response@ == tried_response(c, s, exc)
    &&& p.adaptive@ == adaptive_vector(c, s, exc)
    &&& p.chosen@ == chosen_vector(c, s, exc)
}

impl SubframeCore {
    /// Search the lag, build the adaptive vector, and choose between its two
    /// candidates.
    fn pitch_stage(
        &self,
        ctx: &mut DspContext,
        s: &SubframeInputs<'_>,
        exc: &mut [Word16; EXC_LEN],
        xn: &[Word16; L_SUBFR],
        h1: &[Word16; L_SUBFR],
        Ghost(start): Ghost<Seq<Word16>>,
    ) -> (p: PitchStage)
        requires
            s.wf(),
            start.len() == 505,
            old(exc)@ == searched_exc(s@, start),
            xn@ == target_of(self@, s@),
            h1@ == pitch_response(s@),
        ensures
            pitch_stage_is(p, self@, s@, start),
            final(exc)@ == with_block(
                adaptive_exc(self@, s@, start),
                base_of(s@),
                chosen_vector(self@, s@, start),
            ),
    {
        let ghost c = self@;
        let ghost v = s@;
        let base: usize = EXC_HISTORY + s.index * L_SUBFR;
        let resolution = s.mode.lag_resolution();
        let limits = SearchLimits { window: s.lag_window, absolute: s.absolute, resolution };
        let (t0, t0_frac) = closed_loop_lag(ctx, &*exc, base, xn, h1, limits);
        proof {
            reveal(lag_of);
            assert(limits == limits_of(v));
            assert((t0 as int, t0_frac as int) == lag_of(c, v, start));
        }
        let clip: bool = self.clipping.clips(ctx, s.mode);
        predict_adaptive(exc, base, t0, t0_frac, L_SUBFR + 1);
        let ghost adapted = exc@;
        assert(adapted == adaptive_exc(c, v, start));
        let adaptive = read_block(exc, base);
        let decision = choose_ltp(ctx, exc, base, xn, h1, clip, s.mode);
        let chosen = read_block(exc, base);
        proof {
            reveal(smooth_candidate);
            reveal(sharp_candidate);
            assert(h1@.len() == 64 && xn@.len() == 64);
            assert(decision.prefer_sharp == prefers_sharp(c, v, start));
            assert(chosen@ =~= chosen_vector(c, v, start));
            assert(exc@ =~= with_block(adapted, base_of(v), chosen_vector(c, v, start)));
        }
        PitchStage { t0, t0_frac, clip, decision, adaptive, chosen }
    }
}

/// Shape a vector as the excitation will be.
fn shape_as_code(ctx: &mut DspContext, x: &mut [Word16; L_SUBFR], tilt: Word16, lag: usize)
    ensures
        final(x)@ == shaped_as_code(old(x)@, tilt, lag as int),
{
    let mut memory = Word16(0);
    preemph(x, tilt, &mut memory);
    pitch_sharpen(ctx, x, lag, Word16(PITCH_SHARP));
}

/// Write indices at their widths.
fn push_indices(prms: &mut Parameters, indices: &[u16; 8], widths: &Vec<usize>)
    requires
        old(prms).wf(),
        widths@.len() <= 8,
        forall|k: int| 0 <= k < widths@.len() ==> 1 <= #[trigger] widths@[k] <= 14,
        old(prms)@.len() + total_width(widths@, widths@.len() as int) <= 477,
    ensures
        final(prms).wf(),
        final(prms)@ == old(prms)@ + index_bits(indices@, widths@, widths@.len() as int),
{
    let ghost start = prms@;
    assert(start =~= start + index_bits(indices@, widths@, 0));
    for k in 0..widths.len()
        invariant
            prms.wf(),
            widths@.len() <= 8,
            forall|j: int| 0 <= j < widths@.len() ==> 1 <= #[trigger] widths@[j] <= 14,
            start.len() + total_width(widths@, widths@.len() as int) <= 477,
            prms@ == start + index_bits(indices@, widths@, k as int),
    {
        proof {
            lemma_index_bits(indices@, widths@, k as int);
            lemma_width_prefix(widths@, k + 1, widths@.len() as int);
        }
        prms.push(indices[k], widths[k]);
        assert(prms@ =~= start + index_bits(indices@, widths@, k + 1));
    }
}

/// Search the codebook and write its indices.
fn code_stage(
    ctx: &mut DspContext,
    rate: Rate,
    target: &[Word16; L_SUBFR],
    reference: &[Word16; L_SUBFR],
    response: &[Word16; L_SUBFR],
    filtered: &[Word16; L_SUBFR],
    prms: &mut Parameters,
) -> (r: ([Word16; L_SUBFR], [Word16; L_SUBFR], [Word16; L_SUBFR]))
    requires
        rate.wf(),
        rate.spec_index() != 9,
        old(prms).wf(),
        old(prms)@.len() + pulse_width(rate) <= 477,
    ensures
        ({
            let v = searched_code(rate, target@, reference@, response@, filtered@);
            &&& r.0@ == v.code
            &&& r.1@ == v.filtered
            &&& r.2@ == correlation(response@, target@)
            &&& final(prms).wf()
            &&& final(prms)@ == old(prms)@ + v.bits
            &&& v.bits.len() == pulse_width(rate)
        }),
{
    proof {
        reveal(searched_code);
        lemma_pulse_width(rate);
    }
    let bits: usize = rate.bits();
    let correlated = correlate_target(ctx, response, target);
    let mut dn = correlated;
    match PulseBudget::from_frame_bits(bits) {
        None => {
            let innovation = search_two_pulse(ctx, &mut dn, reference, response);
            proof {
                lemma_bits_length(innovation.index as int, 12);
            }
            prms.push(innovation.index, 12);
            (innovation.code, innovation.filtered, correlated)
        },
        Some(budget) => {
            let mut y2 = *filtered;
            let innovation = search_multi_pulse(
                ctx,
                &mut dn,
                reference,
                response,
                &mut y2,
                budget,
                bits,
            );
            let widths = rate.pulse_index_widths();
            proof {
                lemma_index_bits(innovation.indices@, widths@, widths@.len() as int);
            }
            push_indices(prms, &innovation.indices, &widths);
            (innovation.code, y2, correlated)
        },
    }
}

/// The exponents of a candidate's correlations are small.
proof fn lemma_candidate_exponents(c: CoreView, s: SubframeView, exc: Seq<Word16>)
    ensures
        -1 <= winner(c, s, exc).correlations.energy_exp <= 30,
        -1 <= winner(c, s, exc).correlations.correlation_exp <= 30,
{
    reveal(smooth_candidate);
    reveal(sharp_candidate);
    lemma_correlation_exponents(
        target_of(c, s),
        crate::enc::pitch::convolved(
            smooth_vector(adaptive_exc(c, s, exc), base_of(s)),
            pitch_response(s),
        ),
    );
    lemma_correlation_exponents(
        target_of(c, s),
        crate::enc::pitch::convolved(
            adaptive_exc(c, s, exc).subrange(base_of(s), base_of(s) + 64),
            pitch_response(s),
        ),
    );
}

/// The exponents of two signals' correlations are small.
proof fn lemma_correlation_exponents(target: Seq<Word16>, filtered: Seq<Word16>)
    ensures
        -1 <= crate::enc::pitch::correlations_of(target, filtered).energy_exp <= 30,
        -1 <= crate::enc::pitch::correlations_of(target, filtered).correlation_exp <= 30,
{
    crate::math::lemma_dot_exponent(filtered, filtered);
    crate::math::lemma_dot_exponent(target, filtered);
}

/// What the gain stage decided.
struct GainStage {
    index: u16,
    pitch: Word16,
    code: Word32,
    scaled: Word16,
}

spec fn gain_stage_is(g: GainStage, c: CoreView, s: SubframeView, exc: Seq<Word16>) -> bool {
    &&& g.index == gain_index(c, s, exc)
    &&& g.pitch == quantised_pitch_gain(c, s, exc)
    &&& g.code == quantised_code_gain(c, s, exc)
    &&& g.scaled == frame_code_gain(c, s, exc)
}

impl SubframeCore {
    /// Quantise the gains and remember them.
    fn gain_stage(
        &mut self,
        ctx: &mut DspContext,
        s: &SubframeInputs<'_>,
        xn: &[Word16; L_SUBFR],
        p: &PitchStage,
        y2: &[Word16; L_SUBFR],
        code: &[Word16; L_SUBFR],
        Ghost(start): Ghost<Seq<Word16>>,
    ) -> (g: GainStage)
        requires
            s.wf(),
            old(self).wf(),
            pitch_stage_is(*p, old(self)@, s@, start),
            xn@ == target_of(old(self)@, s@),
            y2@ == code_of(old(self)@, s@, start).filtered,
            code@ == shaped_code(old(self)@, s@, start),
        ensures
            final(self).wf(),
            gain_stage_is(g, old(self)@, s@, start),
            ({
                let n = core_after(old(self)@, s@, start);
                final(self)@ == (CoreView {
                    clipping: n.clipping,
                    past_energy: n.past_energy,
                    ..old(self)@
                })
            }),
    {
        let ghost c = self@;
        let ghost v = s@;
        proof {
            lemma_candidate_exponents(c, v, start);
            reveal(crate::fixed_point::spec_add_s);
            reveal(gain_index);
            reveal(core_after);
        }
        let correlations = PitchCorrelations {
            energy: p.decision.correlations.energy,
            energy_exp: p.decision.correlations.energy_exp,
            correlation: p.decision.correlations.correlation,
            correlation_exp: p.decision.correlations.correlation_exp,
        };
        let bits = GainBits::from_frame_bits(s.rate.bits());
        let target_q: i16 = add_s(Word16(s.q_new), Word16(s.shift)).0;
        let inputs = GainInputs {
            target: xn,
            filtered_adaptive: p.decision.response(),
            target_q,
            filtered_code: y2,
            code,
            correlations,
            bits,
            pitch_gain: p.decision.gain(),
            clip_pitch_gain: p.clip,
        };
        assert(inputs@ == gain_view(c, v, start));
        proof {
            crate::enc::gain_quant::lemma_small_exponents_fit(c.past_energy, inputs@);
        }
        let quantised = self.gains.quantise(ctx, &inputs);
        self.clipping.observe_gain(ctx, s.mode, quantised.pitch_gain);
        let scaled = scale_code_gain(ctx, quantised.code_gain, s.q_new);
        GainStage {
            index: quantised.index,
            pitch: quantised.pitch_gain,
            code: quantised.code_gain,
            scaled,
        }
    }

    /// Build the excitation and synthesise it.
    fn excite_stage(
        &mut self,
        s: &SubframeInputs<'_>,
        exc: &mut [Word16; EXC_LEN],
        xn: &[Word16; L_SUBFR],
        p: &PitchStage,
        y2: &[Word16; L_SUBFR],
        code: &[Word16; L_SUBFR],
        g: &GainStage,
        Ghost(c): Ghost<CoreView>,
        Ghost(start): Ghost<Seq<Word16>>,
    ) -> (r: ExcitedSubframe)
        requires
            s.wf(),
            old(self).wf(),
            start.len() == 505,
            old(self)@ == (CoreView {
                clipping: core_after(c, s@, start).clipping,
                past_energy: core_after(c, s@, start).past_energy,
                ..c
            }),
            pitch_stage_is(*p, c, s@, start),
            gain_stage_is(*g, c, s@, start),
            xn@ == target_of(c, s@),
            y2@ == code_of(c, s@, start).filtered,
            code@ == shaped_code(c, s@, start),
            old(exc)@ == with_block(
                adaptive_exc(c, s@, start),
                base_of(s@),
                chosen_vector(c, s@, start),
            ),
        ensures
            final(self).wf(),
            r.voice_fac == subframe_voicing(c, s@, start),
            r.total@ == total_excitation(c, s@, start),
            r.synth@ == subframe_synthesis(c, s@, start),
            final(exc)@ == exc_after(c, s@, start),
            final(self)@ == (CoreView {
                high_band: c.high_band,
                ..core_after(c, s@, start)
            }),
    {
        let ghost v = s@;
        let base: usize = EXC_HISTORY + s.index * L_SUBFR;
        proof {
            reveal(core_after);
            reveal(exc_after);
        }
        let mut scaled_adaptive = p.chosen;
        scale_sig(&mut scaled_adaptive, s.shift);
        proof {
            lemma_levels_fit(scaled_adaptive@, s.shift, g.pitch, code@, g.scaled);
        }
        let voice_fac = voice_factor(&scaled_adaptive, s.shift, g.pitch, code, g.scaled);
        proof {
            reveal(subframe_voicing);
            assert(voice_fac == subframe_voicing(c, v, start));
        }
        self.tilt_code = add_s(shr(voice_fac, 2), Word16(8192));
        proof {
            reveal(weighting_memory);
        }
        let response = p.decision.response();
        let coded = l_negate(l_shl(l_mult(g.scaled, y2[L_SUBFR - 1]), 5 + s.shift));
        let rest = l_msu(
            l_mac(coded, xn[L_SUBFR - 1], Word16(16384)),
            response[L_SUBFR - 1],
            g.pitch,
        );
        self.mem_w0 = round(l_shl(rest, 1 - s.shift));
        let mut total: [Word16; L_SUBFR] = [Word16(0); L_SUBFR];
        for i in 0..L_SUBFR
            invariant
                forall|j: int|
                    0 <= j < i ==> #[trigger] total@[j] == excited(
                        code@[j],
                        g.scaled,
                        p.chosen@[j],
                        g.pitch,
                    ),
        {
            let acc = l_mac(l_shl(l_mult(code[i], g.scaled), 5), p.chosen[i], g.pitch);
            total[i] = round(l_shl(acc, 1));
        }
        assert(total@ =~= total_excitation(c, v, start));
        write_block(exc, base, &total);
        assert(exc@ =~= exc_after(c, v, start));
        let mut synth: [Word16; L_SUBFR] = [Word16(0); L_SUBFR];
        syn_filt(s.aq, &total, &mut synth, &mut self.mem_syn, true);
        ExcitedSubframe { voice_fac, total, synth }
    }

    /// Analyse the high band and write its gain, at the rate that has one.
    fn band_stage(
        &mut self,
        ctx: &mut DspContext,
        s: &SubframeInputs<'_>,
        p: &PitchStage,
        code: &[Word16; L_SUBFR],
        g: &GainStage,
        voice_fac: Word16,
        prms: &mut Parameters,
        Ghost(c): Ghost<CoreView>,
        Ghost(start): Ghost<Seq<Word16>>,
    )
        requires
            s.wf(),
            old(self).wf(),
            old(self)@ == (CoreView {
                high_band: c.high_band,
                ..core_after(c, s@, start)
            }),
            pitch_stage_is(*p, c, s@, start),
            gain_stage_is(*g, c, s@, start),
            code@ == shaped_code(c, s@, start),
            voice_fac == subframe_voicing(c, s@, start),
            old(prms).wf(),
            has_band(s@) ==> old(prms)@.len() + 4 <= 477,
        ensures
            final(self).wf(),
            final(self)@ == core_after(c, s@, start),
            final(prms).wf(),
            final(prms)@ == old(prms)@ + band_bits(c, s@, start),
    {
        proof {
            reveal(core_after);
        }
        let ghost v = s@;
        if s.rate.has_high_band() {
            let inputs = EnhancementInputs {
                adaptive: &p.chosen,
                code,
                l_gain_code: g.code,
                gain_pit: g.pitch,
                voice_fac,
                stab_fac: s.stab_fac,
                q_new: s.q_new,
            };
            assert(inputs@ == enhancement_view(c, v, start));
            let excitation = self.high_band.enhanced_excitation(&inputs);
            assert(self.high_band.view() == enhanced_band(c, v, start));
            let mut reference: [Word16; L_SUBFR16K] = [Word16(0); L_SUBFR16K];
            for i in 0..L_SUBFR16K
                invariant
                    s.index < 4,
                    forall|j: int| 0 <= j < i ==> #[trigger] reference@[j] == s.pcm@[80 * s.index + j],
            {
                reference[i] = s.pcm[s.index * L_SUBFR16K + i];
            }
            assert(reference@ =~= subframe_pcm(v));
            let index: u16 = self.high_band.analyse(
                ctx,
                s.aq,
                &excitation,
                s.q_new,
                &reference,
                s.vad_hist,
                s.hangover,
            );
            prms.push(index, 4);
        } else {
            assert(prms@ =~= prms@ + band_bits(c, v, start));
        }
    }

    /// The target, the pitch and its bits: the first part of a subframe.
    fn search_pitch(
        &self,
        ctx: &mut DspContext,
        s: &SubframeInputs<'_>,
        exc: &mut [Word16; EXC_LEN],
        prms: &mut Parameters,
    ) -> (f: SearchedPitch)
        requires
            s.wf(),
            old(prms).wf(),
            old(prms)@.len() + 10 <= 477,
        ensures
            pitch_stage_is(f.p, self@, s@, old(exc)@),
            f.xn@ == target_of(self@, s@),
            f.h1@ == pitch_response(s@),
            f.cn@ == raw_reference(self@, s@),
            f.h2@ == scaled_seq(raw_response(s@), -2i16),
            f.window == next_window(self@, s@, old(exc)@),
            PIT_MIN <= f.window.min,
            f.window.max <= PIT_MAX,
            f.window.max - f.window.min == 15,
            final(exc)@ == with_block(
                adaptive_exc(self@, s@, old(exc)@),
                base_of(s@),
                chosen_vector(self@, s@, old(exc)@),
            ),
            final(prms).wf(),
            final(prms)@ == old(prms)@ + lag_bits(self@, s@, old(exc)@) + ltp_bits(
                self@,
                s@,
                old(exc)@,
            ),
            lag_bits(self@, s@, old(exc)@).len() == lag_index_width(s.absolute, quarter_of(s@)),
            ltp_bits(self@, s@, old(exc)@).len() == if quarter_of(s@) {
                1int
            } else {
                0
            },
    {
        let ghost c = self@;
        let ghost v = s@;
        let ghost start = exc@;
        let ghost before = prms@;
        let base: usize = EXC_HISTORY + s.index * L_SUBFR;
        proof {
            reveal(next_window);
        }
        let t = self.build_target(s);
        write_block(exc, base, &t.residual);
        assert(exc@ == searched_exc(v, start));
        let (h1, h2) = build_responses(&t.ap, s);
        let mut xn = t.xn;
        scale_sig(&mut xn, s.shift);
        let p = self.pitch_stage(ctx, s, exc, &xn, &h1, Ghost(start));
        let window = if s.absolute {
            LagWindow::around(ctx, p.t0)
        } else {
            s.lag_window
        };
        let quarter: bool = s.mode.has_sharp_candidate();
        let index: u16 = encode_lag(ctx, p.t0, p.t0_frac, s.lag_window.min, s.absolute, quarter);
        proof {
            lemma_bits_length(index as int, lag_index_width(s.absolute, quarter) as int);
        }
        prms.push(index, lag_index_width(s.absolute, quarter));
        let ghost after_lag = prms@;
        assert(after_lag == before + lag_bits(c, v, start));
        if quarter {
            let flag: u16 = if p.decision.prefer_sharp {
                1
            } else {
                0
            };
            proof {
                lemma_bits_length(flag as int, 1);
            }
            prms.push(flag, 1);
        }
        assert(prms@ =~= after_lag + ltp_bits(c, v, start));
        SearchedPitch { p, xn, h1, cn: t.cn, h2, window }
    }

    /// The codeword, its response and its bits: the second part of a subframe.
    fn search_code(
        &self,
        ctx: &mut DspContext,
        s: &SubframeInputs<'_>,
        f: &SearchedPitch,
        prms: &mut Parameters,
        Ghost(start): Ghost<Seq<Word16>>,
    ) -> (r: SearchedCode)
        requires
            s.wf(),
            old(prms).wf(),
            old(prms)@.len() + pulse_width(s.rate) <= 477,
            pitch_stage_is(f.p, self@, s@, start),
            f.cn@ == raw_reference(self@, s@),
            f.h2@ == scaled_seq(raw_response(s@), -2i16),
        ensures
            r.code@ == shaped_code(self@, s@, start),
            r.y2@ == code_of(self@, s@, start).filtered,
            r.cn@ == code_reference(self@, s@, start),
            r.h2@ == code_response(self@, s@, start),
            r.dn@ == correlation(
                code_response(self@, s@, start),
                winner(self@, s@, start).target,
            ),
            final(prms).wf(),
            final(prms)@ == old(prms)@ + code_of(self@, s@, start).bits,
            code_of(self@, s@, start).bits.len() == pulse_width(s.rate),
    {
        let ghost c = self@;
        let ghost v = s@;
        let p = &f.p;
        let gain = p.decision.gain();
        let mut cn = update_target(ctx, &f.cn, &p.chosen, gain);
        scale_sig(&mut cn, s.shift);
        assert(cn@ == code_reference(c, v, start));
        let lag: usize = if p.t0_frac > 2 {
            (p.t0 + 1) as usize
        } else {
            p.t0 as usize
        };
        assert(lag == sharp_lag(c, v, start));
        let mut h2 = f.h2;
        shape_as_code(ctx, &mut h2, self.tilt_code, lag);
        assert(h2@ == code_response(c, v, start));
        let (mut code, y2, dn) = code_stage(
            ctx,
            s.rate,
            &p.decision.codebook_target,
            &cn,
            &h2,
            &p.decision.smooth_response,
            prms,
        );
        // The codeword gets the filters that the impulse response got; its
        // response is deliberately not filtered again.
        shape_as_code(ctx, &mut code, self.tilt_code, lag);
        SearchedCode { code, y2, cn, h2, dn }
    }

    /// Code one subframe.
    ///
    /// Returns its intermediates, among them the lag window that the next
    /// subframe searches, which an absolute subframe narrows around its own
    /// choice.
    pub fn subframe(
        &mut self,
        ctx: &mut DspContext,
        s: &SubframeInputs<'_>,
        exc: &mut [Word16; EXC_LEN],
        prms: &mut Parameters,
    ) -> (trace: SubframeTrace)
        requires
            s.wf(),
            old(self).wf(),
            old(prms).wf(),
            old(prms)@.len() + subframe_width(s.rate, s.mode, s.absolute) <= 477,
        ensures
            final(self).wf(),
            final(self)@ == core_after(old(self)@, s@, old(exc)@),
            final(exc)@ == exc_after(old(self)@, s@, old(exc)@),
            final(prms).wf(),
            final(prms)@ == old(prms)@ + subframe_bits(old(self)@, s@, old(exc)@),
            final(prms)@.len() == old(prms)@.len() + subframe_width(s.rate, s.mode, s.absolute),
            trace@ == subframe_trace(old(self)@, s@, old(exc)@),
            trace.window == next_window(old(self)@, s@, old(exc)@),
            PIT_MIN <= trace.window.min,
            trace.window.max <= PIT_MAX,
            trace.window.max - trace.window.min == 15,
    {
        let ghost c = self@;
        let ghost v = s@;
        let ghost start = exc@;
        let ghost before = prms@;
        proof {
            reveal(subframe_bits);
        }
        let f = self.search_pitch(ctx, s, exc, prms);
        let found = self.search_code(ctx, s, &f, prms, Ghost(start));
        let g = self.gain_stage(ctx, s, &f.xn, &f.p, &found.y2, &found.code, Ghost(start));
        let bits = GainBits::from_frame_bits(s.rate.bits());
        proof {
            lemma_bits_length(
                g.index as int,
                if gain_width(v.rate) == GainBits::Six {
                    6
                } else {
                    7
                },
            );
        }
        prms.push(g.index, bits.bits());
        let e = self.excite_stage(
            s,
            exc,
            &f.xn,
            &f.p,
            &found.y2,
            &found.code,
            &g,
            Ghost(c),
            Ghost(start),
        );
        self.band_stage(
            ctx,
            s,
            &f.p,
            &found.code,
            &g,
            e.voice_fac,
            prms,
            Ghost(c),
            Ghost(start),
        );
        proof {
            assert(prms@ =~= before + subframe_bits(c, v, start));
            if has_band(v) {
                lemma_bits_length(
                    band_index(
                        enhanced_band(c, v, start),
                        v.aq,
                        band_excitation(c, v, start),
                        v.q_new,
                        subframe_pcm(v),
                        v.vad_hist,
                        v.hangover,
                    ),
                    4,
                );
            }
        }
        proof {
            reveal(subframe_trace);
        }
        SubframeTrace {
            xn: f.xn,
            h1: f.h1,
            t0: f.p.t0,
            t0_frac: f.p.t0_frac,
            window: f.window,
            gain1: f.p.decision.sharp_gain,
            gain2: f.p.decision.smooth_gain,
            adapt: f.p.adaptive,
            y1: f.p.decision.sharp_response,
            xn2: f.p.decision.codebook_target,
            cn: found.cn,
            h2: found.h2,
            dn: found.dn,
            select: f.p.decision.prefer_sharp,
            code: found.code,
            y2: found.y2,
            gain_pit: g.pitch,
            gain_code: g.scaled,
            l_gain_code: g.code,
            voice_fac: e.voice_fac,
            total: e.total,
            synth: e.synth,
        }
    }
}

/// A subframe's pitch index reads back as the lag that was searched: the index
/// fits its width, and names that lag.
pub proof fn law_subframe_lag_is_codable(c: CoreView, s: SubframeView, exc: Seq<Word16>)
    requires
        PIT_MIN <= s.lag_window.min,
        s.lag_window.max <= PIT_MAX,
        s.lag_window.max - s.lag_window.min == 15,
    ensures
        codable(
            lag_of(c, s, exc).0,
            lag_of(c, s, exc).1,
            s.lag_window.min as int,
            s.absolute,
            quarter_of(s),
        ),
{
    reveal(lag_of);
    crate::lag::law_search_finds_codable_lags(
        window_correlations(
            searched_exc(s, exc),
            base_of(s),
            target_of(c, s),
            pitch_response(s),
            s.lag_window,
        ),
        s.lag_window,
        s.absolute,
        quarter_of(s),
    );
}

/// Whether two subframes differ in the hangover alone.
pub open spec fn alike_but_hangover(s: SubframeView, t: SubframeView) -> bool {
    t == (SubframeView { hangover: t.hangover, ..s })
}

/// The pitch does not see the hangover.
proof fn lemma_hangover_spares_the_pitch(
    c: CoreView,
    s: SubframeView,
    t: SubframeView,
    exc: Seq<Word16>,
)
    requires
        alike_but_hangover(s, t),
    ensures
        raw_reference(c, s) == raw_reference(c, t),
        raw_response(s) == raw_response(t),
        target_of(c, s) == target_of(c, t),
        lag_of(c, s, exc) == lag_of(c, t, exc),
        next_window(c, s, exc) == next_window(c, t, exc),
        smooth_candidate(c, s, exc) == smooth_candidate(c, t, exc),
        sharp_candidate(c, s, exc) == sharp_candidate(c, t, exc),
{
    assert(raw_target(c, s) == raw_target(c, t)) by {
        reveal(raw_target);
        assert(error_memory(c, s) =~= error_memory(c, t));
    }
    assert(raw_reference(c, s) == raw_reference(c, t)) by {
        reveal(raw_reference);
    }
    assert(raw_response(s) == raw_response(t)) by {
        reveal(raw_response);
    }
    assert(lag_of(c, s, exc) == lag_of(c, t, exc)) by {
        reveal(lag_of);
    }
    assert(next_window(c, s, exc) == next_window(c, t, exc)) by {
        reveal(next_window);
    }
    assert(smooth_candidate(c, s, exc) == smooth_candidate(c, t, exc)) by {
        reveal(smooth_candidate);
    }
    assert(sharp_candidate(c, s, exc) == sharp_candidate(c, t, exc)) by {
        reveal(sharp_candidate);
    }
}

/// At a rate that sends no high band, the hangover moves nothing: a subframe
/// writes the same bits and leaves the same state whatever it is.
pub proof fn law_hangover_moves_only_the_high_band(
    c: CoreView,
    s: SubframeView,
    t: SubframeView,
    exc: Seq<Word16>,
)
    requires
        alike_but_hangover(s, t),
        s.rate.spec_bits() < NBBITS_24K,
    ensures
        subframe_bits(c, s, exc) == subframe_bits(c, t, exc),
        core_after(c, s, exc) == core_after(c, t, exc),
        exc_after(c, s, exc) == exc_after(c, t, exc),
        next_window(c, s, exc) == next_window(c, t, exc),
{
    lemma_hangover_spares_the_pitch(c, s, t, exc);
    assert(code_reference(c, s, exc) == code_reference(c, t, exc));
    assert(code_response(c, s, exc) == code_response(c, t, exc));
    assert(code_of(c, s, exc) == code_of(c, t, exc));
    assert(shaped_code(c, s, exc) == shaped_code(c, t, exc));
    assert(gain_view(c, s, exc) == gain_view(c, t, exc));
    assert(gain_index(c, s, exc) == gain_index(c, t, exc)) by {
        reveal(gain_index);
    }
    assert(subframe_voicing(c, s, exc) == subframe_voicing(c, t, exc)) by {
        reveal(subframe_voicing);
    }
    assert(total_excitation(c, s, exc) == total_excitation(c, t, exc));
    assert(exc_after(c, s, exc) == exc_after(c, t, exc)) by {
        reveal(exc_after);
    }
    assert(subframe_bits(c, s, exc) == subframe_bits(c, t, exc)) by {
        reveal(subframe_bits);
    }
    assert(core_after(c, s, exc) == core_after(c, t, exc)) by {
        reveal(core_after);
    }
}

/// A subframe writes its total excitation where it stands, and leaves what
/// came before it.
pub proof fn law_excitation_is_written_in_place(
    c: CoreView,
    s: SubframeView,
    exc: Seq<Word16>,
    i: int,
)
    requires
        exc.len() == EXC_LEN,
        0 <= s.index < 4,
        0 <= i < 312 + 64 * s.index,
    ensures
        exc_after(c, s, exc).len() == EXC_LEN,
        i < 248 + 64 * s.index ==> exc_after(c, s, exc)[i] == exc[i],
        i >= 248 + 64 * s.index ==> exc_after(c, s, exc)[i] == total_excitation(c, s, exc)[i - 248
            - 64 * s.index],
{
    reveal(exc_after);
    let (t0, frac) = lag_of(c, s, exc);
    let x = searched_exc(s, exc);
    law_prediction_leaves_the_past(x, base_of(s), t0, frac, 65, 0);
    if i < base_of(s) {
        law_prediction_leaves_the_past(x, base_of(s), t0, frac, 65, i);
    }
}

/// The target starts from what the local synthesis still lacks of the speech.
pub proof fn law_error_is_what_synthesis_lacks(c: CoreView, s: SubframeView, i: int)
    requires
        0 <= i < 16,
        -16384 <= c.mem_syn[i].0 <= 16383,
        -16384 <= s.window[48 + 64 * s.index + i].0 <= 16383,
    ensures
        c.mem_syn[i].0 + error_memory(c, s)[i].0 == s.window[48 + 64 * s.index + i].0,
{
    reveal(crate::fixed_point::spec_sub_s);
}

/// What weighting carries on is the target less the two contributions at their
/// gains.
pub proof fn law_weighting_carries_the_rest(
    gain_code: Word16,
    filtered: Word16,
    target: Word16,
    response: Word16,
    gain_pit: Word16,
)
    requires
        -8192 <= target.0 <= 8192,
        -0x40_0000 <= gain_code.0 * filtered.0 <= 0x40_0000,
        -0x0400_0000 <= response.0 * gain_pit.0 <= 0x0400_0000,
    ensures
        ({
            let rest = 32768 * target.0 - 64 * (gain_code.0 * filtered.0) - 2 * (response.0
                * gain_pit.0);
            let memory = weighting_memory(gain_code, filtered, target, response, gain_pit, 0).0;
            -16384 <= 32768 * memory - rest <= 16384
        }),
{
    reveal(weighting_memory);
    vstd::arithmetic::power2::lemma2_to64();
    let a = gain_code.0 * filtered.0;
    let b = response.0 * gain_pit.0;
    lemma_l_mac(Word32(0), gain_code, filtered);
    let product = l_mult(gain_code, filtered);
    lemma_l_shl(product, 5, 32);
    let up = l_shl(product, 5);
    assert(up.0 == 64 * a);
    reveal(crate::fixed_point::spec_l_negate);
    let code = l_negate(up);
    lemma_l_mac(code, target, Word16(16384));
    let sum = l_mac(code, target, Word16(16384));
    lemma_l_mac(sum, response, gain_pit);
    let rest = l_msu(sum, response, gain_pit);
    lemma_l_shl(rest, 1, 2);
    lemma_round(l_shl(rest, 1));
}

/// The next codeword's tilt is a quarter of full scale and a quarter of the
/// voicing.
pub proof fn law_tilt_is_carried_on(c: CoreView, s: SubframeView, exc: Seq<Word16>)
    ensures
        ({
            let tilt = core_after(c, s, exc).tilt_code.0;
            4 * tilt <= subframe_voicing(c, s, exc).0 + 32768 < 4 * tilt + 4
        }),
{
    reveal(core_after);
    reveal(crate::fixed_point::spec_add_s);
    vstd::arithmetic::power2::lemma2_to64();
    lemma_shr(subframe_voicing(c, s, exc), 2, 4);
}

/// The low rates always filter the adaptive vector; the others send the
/// candidate that leaves the smaller error.
pub proof fn law_better_candidate_is_sent(c: CoreView, s: SubframeView, exc: Seq<Word16>)
    requires
        error_of(sharp_candidate(c, s, exc).target, 64) <= 0x7fff_ffff,
    ensures
        ({
            let sharp = error_of(sharp_candidate(c, s, exc).target, 64);
            let smooth = error_of(smooth_candidate(c, s, exc).target, 64);
            let sent = error_of(winner(c, s, exc).target, 64);
            &&& s.mode.frame_bits() <= BITS_8K85 ==> sent == smooth
            &&& s.mode.frame_bits() > BITS_8K85 ==> sent <= sharp && sent <= smooth
            &&& s.mode.frame_bits() > BITS_8K85 && sharp < smooth ==> sent == sharp
        }),
{
    law_smaller_error_wins(
        sharp_candidate(c, s, exc).target,
        smooth_candidate(c, s, exc).target,
    );
}

} // verus!
