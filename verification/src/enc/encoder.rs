//! The encoder: one frame of speech in, one packed frame out.

use vstd::prelude::*;
use vstd::slice::slice_subrange;
use crate::dtx::ISF_INIT;
use crate::enc::analysis::{
    frame_isp, frame_predictor, frame_reflections, frame_scaling, frame_window, frame_wsp,
    frame_wsp_shift, front_end_inv, front_end_next, front_end_reset, residu, residual, FrontEnd,
    FrontEndFrame, FrontEndView,
};
use crate::enc::dtx::{
    buffered, classified, enc_dtx_inv, enc_dtx_reset, energy_index, index_level, needs_dither,
    sid_built, sid_isf, tx_decision, DtxEncoder, EncDtxView, TxDecision,
};
use crate::enc::gain_quant::{reset_energies, GainPredictor};
use crate::enc::high_band::{analysed_band, high_band_reset, HighBand, HighBandView};
use crate::enc::pitch::{
    analysed, analysed_lags, high_pass_after, high_pass_at_rest, measure_gain, moved_down, next_gap,
    normalised_gain, open_loop_inv, open_loop_lag, open_loop_reset, part_of, rescaled_high_pass,
    rescaled_open_loop, scaled_head, scanned, window_around, with_part, GainClipping, LagWindow,
    OpenLoopLags, OpenLoopPitch, OpenLoopView, PitchMode, WeightedSpeechHighPass, BITS_6K60,
    PIT_MAX, PIT_MIN,
};
use crate::enc::preproc::{fourteen_bits, restrict_to_14_bit, L_FRAME, L_FRAME16K, NEW_SPEECH};
use crate::enc::rate::{bits_of, lemma_bits_length, packed, Parameters, Rate, NBBITS_24K, NBBITS_7K};
use crate::enc::roots::ISP_INIT;
use crate::enc::shaping::{stability, stability_of};
use crate::enc::subframe::{
    alike_but_hangover, core_after, exc_after, index_bits, law_excitation_is_written_in_place,
    law_hangover_moves_only_the_high_band, lemma_index_bits, next_window, subframe_bits,
    subframe_trace, subframe_width, total_excitation, total_width, CoreView, EXC_HISTORY, EXC_LEN,
    SubframeCore, SubframeInputs, SubframeTrace, SubframeView, TraceView,
};
use crate::enc::vad::{processed, toned, vad_inv, vad_reset, VadView, VoiceActivityDetector};
use crate::enc::trace::{
    analysis_rows, analysis_view, end_to_end, record_analysis, record_spectrum, record_subframe,
    spectrum_rows, subframe_rows, AnalysisView, EncoderTrace, RowView, SpectrumView,
};
use crate::fixed_point::{
    add_s, l_deposit_h, l_shl, l_shr, round, shr, sub_s, DspContext, Word16, Word32,
};
use crate::highband::L_SUBFR16K;
use crate::isf_noise::{dequantised, quantised_index, NoiseCodebooks, LP_ORDER, SPLIT_BITS};
use crate::isf_quant::{
    chosen_indices, decoded_isf, residual_of, search_target, IsfCodebooks, IsfEncoder,
};
use crate::lp::{
    interpolate_isp, isf_of, isf_to_isp, isp_of, isp_to_lp, lag_high, lag_low, lp_of, raw_pair,
    subframe_lp, NB_SUBFR,
};
use crate::math::{scale_sig, scaled, scaled_seq};
use crate::noise::{drawn, levelled};
use crate::sort_tables::order_of;
use crate::synthesis::L_SUBFR;

verus! {

/// Every codebook that the encoder quantises with.
pub struct Codebooks {
    /// The speech spectrum's.
    pub isf: IsfCodebooks,
    /// The comfort-noise spectrum's.
    pub noise: NoiseCodebooks,
}

// ---------------------------------------------------------------------------
// The open-loop pitch gain, for the tone detector
// ---------------------------------------------------------------------------

/// The probe's state as plain values.
pub struct ProbeView {
    pub high_pass: WeightedSpeechHighPass,
    /// History, then the current part.
    pub high_passed: Seq<Word16>,
    pub history_shift: i16,
}

/// The probe out of reset.
pub open spec fn probe_reset() -> ProbeView {
    ProbeView {
        high_pass: high_pass_at_rest(),
        high_passed: Seq::new(243, |i: int| Word16(0)),
        history_shift: 0,
    }
}

/// The probe brought onto a new frame's scale.
pub open spec fn rescaled_probe(v: ProbeView, q_exp: i16, shift: i16) -> ProbeView {
    let exp = add_s(Word16(q_exp), sub_s(Word16(shift), Word16(v.history_shift))).0;
    ProbeView {
        history_shift: shift,
        high_passed: scaled_head(v.high_passed, exp),
        high_pass: rescaled_high_pass(v.high_pass, exp),
    }
}

/// The gain of a part at a lag.
pub open spec fn probed_gain(v: ProbeView, part: Seq<Word16>, lag: int) -> Word16 {
    normalised_gain(with_part(v.high_passed, v.high_pass, part), part.len() as int, lag)
}

/// The probe after a part.
pub open spec fn probed(v: ProbeView, part: Seq<Word16>) -> ProbeView {
    ProbeView {
        high_pass: high_pass_after(v.high_pass, part, part.len() as int),
        high_passed: moved_down(
            with_part(v.high_passed, v.high_pass, part),
            part.len() as int,
        ),
        ..v
    }
}

/// The open-loop gain measured a second time, for the tone detector.
#[derive(Clone, Debug)]
pub struct OpenLoopGainProbe {
    high_pass: WeightedSpeechHighPass,
    high_passed: [Word16; 243],
    history_shift: i16,
}

impl OpenLoopGainProbe {
    /// The state as plain values.
    pub closed spec fn view(&self) -> ProbeView {
        ProbeView {
            high_pass: self.high_pass,
            high_passed: self.high_passed@,
            history_shift: self.history_shift,
        }
    }

    /// The reset state.
    #[must_use]
    pub fn new() -> (p: Self)
        ensures
            p@ == probe_reset(),
    {
        let p = OpenLoopGainProbe {
            high_pass: WeightedSpeechHighPass::default(),
            high_passed: [Word16(0); 243],
            history_shift: 0,
        };
        assert(p@.high_passed =~= probe_reset().high_passed);
        p
    }

    /// Follow the frame's change of scaling.
    pub fn rescale(&mut self, ctx: &mut DspContext, q_exp: i16, shift: i16)
        ensures
            final(self)@ == rescaled_probe(old(self)@, q_exp, shift),
    {
        let ghost v = self@;
        let exp: i16 = add_s(
            Word16(q_exp),
            sub_s(Word16(shift), Word16(self.history_shift)),
        ).0;
        self.history_shift = shift;
        for i in 0..115usize
            invariant
                v.high_passed.len() == 243,
                self@ == (ProbeView {
                    history_shift: shift,
                    high_passed: self.high_passed@,
                    ..v
                }),
                forall|j: int|
                    0 <= j < 243 ==> #[trigger] self.high_passed@[j] == if j < i {
                        scaled(v.high_passed[j], exp)
                    } else {
                        v.high_passed[j]
                    },
        {
            self.high_passed[i] = round(l_shl(l_deposit_h(self.high_passed[i]), exp));
        }
        assert(self.high_passed@ =~= scaled_head(v.high_passed, exp));
        self.high_pass.rescale(ctx, exp);
    }

    /// The normalised correlation of the high-passed weighted speech at `lag`,
    /// Q15, advancing the filter over `input`.
    pub fn measure(&mut self, ctx: &mut DspContext, input: &[Word16], lag: i16) -> (gain: Word16)
        requires
            input.len() <= 128,
            0 <= lag <= 115,
        ensures
            gain == probed_gain(old(self)@, input@, lag as int),
            final(self)@ == probed(old(self)@, input@),
    {
        let ghost v = self@;
        let span: usize = input.len();
        let mut filtered: [Word16; 128] = [Word16(0); 128];
        self.high_pass.filter(ctx, input, &mut filtered);
        let ghost hp = with_part(v.high_passed, v.high_pass, input@);
        for i in 0..span
            invariant
                span <= 128,
                span == input@.len(),
                v.high_passed.len() == 243,
                hp == with_part(v.high_passed, v.high_pass, input@),
                forall|j: int|
                    0 <= j < span ==> #[trigger] filtered@[j]
                        == crate::enc::pitch::high_passed_at(v.high_pass, input@, j),
                forall|j: int|
                    0 <= j < 243 ==> #[trigger] self.high_passed@[j] == if j < 115 + i {
                        hp[j]
                    } else {
                        v.high_passed[j]
                    },
                self@ == (ProbeView {
                    high_passed: self.high_passed@,
                    high_pass: high_pass_after(v.high_pass, input@, span as int),
                    ..v
                }),
        {
            self.high_passed[115 + i] = filtered[i];
        }
        assert(self.high_passed@ =~= hp);
        let gain = measure_gain(&self.high_passed, span, lag as usize);
        for i in 0..115usize
            invariant
                span <= 128,
                hp.len() == 243,
                forall|j: int|
                    0 <= j < 243 ==> #[trigger] self.high_passed@[j] == if j < i {
                        hp[j + span]
                    } else {
                        hp[j]
                    },
                self@ == (ProbeView {
                    high_passed: self.high_passed@,
                    high_pass: high_pass_after(v.high_pass, input@, span as int),
                    ..v
                }),
        {
            self.high_passed[i] = self.high_passed[i + span];
        }
        assert(self.high_passed@ =~= moved_down(hp, span as int));
        gain
    }
}

// ---------------------------------------------------------------------------
// The encoder's state
// ---------------------------------------------------------------------------

/// The encoder's state as plain values.
pub struct EncoderView {
    pub front: FrontEndView,
    /// The spectrum quantiser's prediction.
    pub isf_past: Seq<Word16>,
    pub open_loop: OpenLoopView,
    pub probe: ProbeView,
    pub vad: VadView,
    pub dtx: EncDtxView,
    /// Whether a quiet frame may become comfort noise.
    pub allow_dtx: bool,
    pub core: CoreView,
    /// Excitation history, in the previous frame's scaling.
    pub old_exc: Seq<Word16>,
    /// The previous frame's quantised pairs and frequencies.
    pub isp_old_q: Seq<Word16>,
    pub isf_old: Seq<Word16>,
    /// Whether the quantised pairs still hold their reset value.
    pub first_frame: bool,
    /// Consecutive frames without speech.
    pub vad_hist: i16,
}

/// The invariant.
pub open spec fn encoder_inv(v: EncoderView) -> bool {
    &&& front_end_inv(v.front)
    &&& open_loop_inv(v.open_loop)
    &&& vad_inv(v.vad)
    &&& enc_dtx_inv(v.dtx)
}

/// `n` zeros.
pub open spec fn zeros(n: nat) -> Seq<Word16> {
    Seq::new(n, |i: int| Word16(0))
}

/// The state of the subframe loop out of reset.
pub open spec fn core_reset() -> CoreView {
    CoreView {
        mem_syn: zeros(16),
        mem_w0: Word16(0),
        tilt_code: Word16(0),
        clipping: GainClipping { isf_gap: Word16(307), mean_gain: Word16(9830) },
        past_energy: reset_energies(),
        high_band: high_band_reset(),
    }
}

/// The state out of reset.
pub open spec fn encoder_reset() -> EncoderView {
    EncoderView {
        front: front_end_reset(),
        isf_past: zeros(16),
        open_loop: open_loop_reset(),
        probe: probe_reset(),
        vad: vad_reset(),
        dtx: enc_dtx_reset(),
        allow_dtx: false,
        core: core_reset(),
        old_exc: zeros(248),
        isp_old_q: Seq::new(16, |i: int| Word16(ISP_INIT@[i])),
        isf_old: Seq::new(16, |i: int| Word16(ISF_INIT@[i])),
        first_frame: true,
        vad_hist: 0,
    }
}

// ---------------------------------------------------------------------------
// Analysis: what every frame runs
// ---------------------------------------------------------------------------

/// The 14-bit input of a frame.
pub open spec fn frame_input(pcm: Seq<i16>) -> Seq<Word16> {
    Seq::new(320, |i: int| fourteen_bits(Word16(pcm[i])))
}

/// What the detector sees: the pre-emphasised frame brought to Q1.
pub open spec fn vad_input(v: EncoderView, input: Seq<Word16>) -> Seq<Word16> {
    scaled_seq(
        frame_window(v.front, input).subrange(116, 372),
        (1 - frame_scaling(v.front, input).q_new) as i16,
    )
}

/// Whether a frame carries speech.
pub open spec fn voice_active(v: EncoderView, input: Seq<Word16>) -> bool {
    processed(v.vad, vad_input(v, input)).1
}

/// Whether a frame becomes comfort noise.
pub open spec fn is_comfort_noise(v: EncoderView, input: Seq<Word16>) -> bool {
    v.allow_dtx && tx_decision(v.dtx, voice_active(v, input)) == TxDecision::ComfortNoise
}

/// The state of discontinuous transmission after `n` quiet frames.
pub open spec fn quieted(v: EncDtxView, n: int) -> EncDtxView
    decreases n,
{
    if n <= 0 {
        v
    } else {
        classified(quieted(v, n - 1), false)
    }
}

/// The bit budget that a frame's decisions key on.
pub open spec fn frame_mode(v: EncoderView, input: Seq<Word16>, rate: Rate) -> PitchMode {
    PitchMode {
        bits: if is_comfort_noise(v, input) {
            35
        } else {
            rate.spec_bits() as u16
        },
    }
}

/// The frequencies of a frame.
pub open spec fn raw_isf(v: EncoderView, input: Seq<Word16>) -> Seq<Word16> {
    isf_of(frame_isp(v.front, input))
}

/// The open-loop state that a frame's weighted speech meets.
pub open spec fn open_loop_before(v: EncoderView, input: Seq<Word16>) -> OpenLoopView {
    rescaled_open_loop(
        v.open_loop,
        frame_scaling(v.front, input).exp,
        frame_wsp_shift(v.front, input),
    )
}

/// The open-loop lags of a frame.
#[verifier::opaque]
pub open spec fn frame_lags(v: EncoderView, input: Seq<Word16>, rate: Rate) -> OpenLoopLags {
    analysed_lags(
        open_loop_before(v, input),
        frame_wsp(v.front, input),
        frame_mode(v, input, rate),
    )
}

/// The probe that a frame's weighted speech meets.
pub open spec fn probe_before(v: EncoderView, input: Seq<Word16>) -> ProbeView {
    rescaled_probe(
        v.probe,
        frame_scaling(v.front, input).exp,
        frame_wsp_shift(v.front, input),
    )
}

/// The first part of the weighted speech: all of it at the lowest rate.
pub open spec fn first_part(v: EncoderView, input: Seq<Word16>, rate: Rate) -> Seq<Word16> {
    frame_wsp(v.front, input).take(part_of(frame_mode(v, input, rate)))
}

/// The second part of the weighted speech.
pub open spec fn second_part(v: EncoderView, input: Seq<Word16>) -> Seq<Word16> {
    frame_wsp(v.front, input).skip(64)
}

/// The probe after a frame.
#[verifier::opaque]
pub open spec fn probe_after(v: EncoderView, input: Seq<Word16>, rate: Rate) -> ProbeView {
    let first = probed(probe_before(v, input), first_part(v, input, rate));
    if frame_mode(v, input, rate).frame_bits() == BITS_6K60 {
        first
    } else {
        probed(first, second_part(v, input))
    }
}

/// The detector after a frame: its decision, then the tone flags of the parts.
#[verifier::opaque]
pub open spec fn vad_after(v: EncoderView, input: Seq<Word16>, rate: Rate) -> VadView {
    let lags = frame_lags(v, input, rate);
    let before = probe_before(v, input);
    let part = first_part(v, input, rate);
    let first = toned(
        processed(v.vad, vad_input(v, input)).0,
        probed_gain(before, part, lags.first_half as int / 2),
    );
    if frame_mode(v, input, rate).frame_bits() == BITS_6K60 {
        first
    } else {
        toned(
            first,
            probed_gain(
                probed(before, part),
                second_part(v, input),
                lags.second_half as int / 2,
            ),
        )
    }
}

/// The state after everything that every frame runs.
#[verifier::opaque]
pub open spec fn after_analysis(v: EncoderView, input: Seq<Word16>, rate: Rate) -> EncoderView {
    let exp = frame_scaling(v.front, input).exp;
    let active = voice_active(v, input);
    EncoderView {
        front: front_end_next(v.front, input),
        open_loop: analysed(
            open_loop_before(v, input),
            frame_wsp(v.front, input),
            frame_mode(v, input, rate),
        ),
        probe: probe_after(v, input, rate),
        vad: vad_after(v, input, rate),
        dtx: if v.allow_dtx {
            classified(v.dtx, active)
        } else {
            v.dtx
        },
        core: CoreView {
            mem_syn: scaled_seq(v.core.mem_syn, exp),
            mem_w0: scaled(v.core.mem_w0, exp),
            clipping: GainClipping {
                isf_gap: next_gap(
                    v.core.clipping.isf_gap,
                    frame_mode(v, input, rate),
                    raw_isf(v, input),
                ),
                ..v.core.clipping
            },
            ..v.core
        },
        old_exc: scaled_seq(v.old_exc, exp),
        vad_hist: if active {
            0
        } else {
            add_s(Word16(v.vad_hist), Word16(1)).0
        },
        ..v
    }
}

/// What the analysis leaves alone.
proof fn lemma_analysis_keeps(v: EncoderView, input: Seq<Word16>, rate: Rate)
    ensures
        after_analysis(v, input, rate).isf_past == v.isf_past,
        after_analysis(v, input, rate).isp_old_q == v.isp_old_q,
        after_analysis(v, input, rate).isf_old == v.isf_old,
        after_analysis(v, input, rate).first_frame == v.first_frame,
{
    reveal(after_analysis);
}

// ---------------------------------------------------------------------------
// Comfort noise
// ---------------------------------------------------------------------------

/// A signal taken out of the frame's scaling.
pub open spec fn unscaled(x: Seq<Word16>, q_new: i16) -> Seq<Word16> {
    Seq::new(x.len(), |i: int| shr(x[i], q_new))
}

/// The energy that is buffered of a residual.
pub open spec fn residual_energy(x: Seq<Word16>, q_new: i16) -> Word32 {
    let y = unscaled(x, q_new);
    l_shr(crate::math::mac_run(Word32(0), y, 0, y, 0, x.len() as int), 1)
}

/// The residual of a comfort-noise frame: all of it through the unquantised
/// predictor of its last subframe.
pub open spec fn quiet_residual(v: EncoderView, input: Seq<Word16>) -> Seq<Word16> {
    residual(
        subframe_lp(v.front.isp_old, frame_isp(v.front, input), 3),
        frame_window(v.front, input).subrange(48, 320),
    )
}

/// The DTX state once a comfort-noise frame has been buffered.
pub open spec fn quiet_dtx(v: EncoderView, input: Seq<Word16>, rate: Rate) -> EncDtxView {
    buffered(
        after_analysis(v, input, rate).dtx,
        raw_isf(v, input),
        residual_energy(quiet_residual(v, input), frame_scaling(v.front, input).q_new),
        rate.spec_index() as int,
    )
}

/// The comfort-noise spectrum indices of a frame.
pub open spec fn sid_indices(
    v: EncoderView,
    books: Codebooks,
    input: Seq<Word16>,
    rate: Rate,
) -> Seq<u16> {
    Seq::new(
        5,
        |k: int| quantised_index(books.noise, sid_isf(quiet_dtx(v, input, rate)), k) as u16,
    )
}

/// The spectrum that a comfort-noise frame describes.
pub open spec fn sid_spectrum(
    v: EncoderView,
    books: Codebooks,
    input: Seq<Word16>,
    rate: Rate,
) -> Seq<Word16> {
    dequantised(books.noise, sid_indices(v, books, input, rate))
}

/// Widths of the comfort-noise spectrum indices.
pub open spec fn sid_widths() -> Seq<usize> {
    seq![6, 6, 6, 5, 5]
}

/// The bits of a comfort-noise frame.
pub open spec fn sid_frame_bits(
    v: EncoderView,
    books: Codebooks,
    input: Seq<Word16>,
    rate: Rate,
) -> Seq<u8> {
    let dtx = quiet_dtx(v, input, rate);
    index_bits(sid_indices(v, books, input, rate), sid_widths(), 5) + bits_of(
        energy_index(dtx.log_en_hist).0 as int,
        6,
    ) + bits_of(
        if needs_dither(sid_built(dtx)) {
            1
        } else {
            0
        },
        1,
    )
}

/// The high band after the first `n` subframes of comfort noise.
pub open spec fn quiet_band(
    band: HighBandView,
    aq: Seq<Word16>,
    excitation: Seq<Word16>,
    input: Seq<Word16>,
    hangover: Word16,
    n: int,
) -> HighBandView
    decreases n,
{
    if n <= 0 {
        band
    } else {
        analysed_band(
            quiet_band(band, aq, excitation, input, hangover, n - 1),
            aq,
            excitation.subrange(64 * (n - 1), 64 * n),
            0,
            input.subrange(80 * (n - 1), 80 * n),
            hangover,
        )
    }
}

/// What a comfort-noise frame clears: everything of the subframe loop but the
/// gain predictor and the high band's filters.
pub open spec fn cleared(v: EncoderView) -> EncoderView {
    EncoderView {
        old_exc: zeros(248),
        core: CoreView {
            mem_syn: zeros(16),
            mem_w0: Word16(0),
            tilt_code: Word16(0),
            clipping: GainClipping { isf_gap: Word16(307), mean_gain: Word16(9830) },
            high_band: HighBandView { threshold: Word32(0), ..v.core.high_band },
            ..v.core
        },
        first_frame: true,
        isf_past: zeros(16),
        ..v
    }
}

/// The state after a comfort-noise frame.
pub open spec fn after_comfort_noise(
    v: EncoderView,
    books: Codebooks,
    input: Seq<Word16>,
    rate: Rate,
) -> EncoderView {
    let w = after_analysis(v, input, rate);
    let dtx = sid_built(quiet_dtx(v, input, rate));
    let excitation = levelled(dtx.cng_seed, index_level(dtx.log_en_index));
    let spectrum = sid_spectrum(v, books, input, rate);
    let aq = lp_of(isp_of(spectrum), false);
    cleared(
        EncoderView {
            dtx: EncDtxView { cng_seed: drawn(dtx.cng_seed, 256), ..dtx },
            core: CoreView {
                high_band: if rate.spec_bits() >= NBBITS_24K {
                    quiet_band(w.core.high_band, aq, excitation, input, dtx.hangover, 4)
                } else {
                    w.core.high_band
                },
                ..w.core
            },
            isf_old: spectrum,
            ..w
        },
    )
}

// ---------------------------------------------------------------------------
// Speech
// ---------------------------------------------------------------------------

/// The spectrum indices of a speech frame.
pub open spec fn speech_indices(
    v: EncoderView,
    books: Codebooks,
    input: Seq<Word16>,
    rate: Rate,
) -> Seq<u16> {
    chosen_indices(
        books.isf,
        rate.spec_isf_quantiser(),
        search_target(books.isf, raw_isf(v, input), v.isf_past),
    )
}

/// The quantised spectrum of a speech frame.
pub open spec fn speech_isf(
    v: EncoderView,
    books: Codebooks,
    input: Seq<Word16>,
    rate: Rate,
) -> Seq<Word16> {
    decoded_isf(
        books.isf,
        rate.spec_isf_quantiser(),
        speech_indices(v, books, input, rate),
        v.isf_past,
    )
}

/// The quantised pairs that a frame interpolates from: its own where there is
/// nothing before it.
pub open spec fn interpolated_from(
    v: EncoderView,
    books: Codebooks,
    input: Seq<Word16>,
    rate: Rate,
) -> Seq<Word16> {
    if v.first_frame {
        isp_of(speech_isf(v, books, input, rate))
    } else {
        v.isp_old_q
    }
}

/// The quantised predictor of subframe `k`.
pub open spec fn quantised_lp(
    v: EncoderView,
    books: Codebooks,
    input: Seq<Word16>,
    rate: Rate,
    k: int,
) -> Seq<Word16> {
    subframe_lp(
        interpolated_from(v, books, input, rate),
        isp_of(speech_isf(v, books, input, rate)),
        k,
    )
}

/// The residual of subframe `k` through its quantised predictor.
pub open spec fn quantised_residual(
    v: EncoderView,
    books: Codebooks,
    input: Seq<Word16>,
    rate: Rate,
    k: int,
) -> Seq<Word16> {
    residual(
        quantised_lp(v, books, input, rate, k),
        frame_window(v.front, input).subrange(48 + 64 * k, 128 + 64 * k),
    )
}

/// The excitation buffer before the subframe loop: history, then the frame's
/// residual.
#[verifier::opaque]
pub open spec fn exc_start(
    v: EncoderView,
    books: Codebooks,
    input: Seq<Word16>,
    rate: Rate,
) -> Seq<Word16> {
    Seq::new(
        505,
        |i: int|
            if i < 248 {
                after_analysis(v, input, rate).old_exc[i]
            } else if i < 504 {
                quantised_residual(v, books, input, rate, (i - 248) / 64)[(i - 248) % 64]
            } else {
                Word16(0)
            },
    )
}

/// The DTX state after a speech frame: a quiet one is buffered.
pub open spec fn speech_dtx(
    v: EncoderView,
    books: Codebooks,
    input: Seq<Word16>,
    rate: Rate,
) -> EncDtxView {
    let w = after_analysis(v, input, rate);
    if voice_active(v, input) {
        w.dtx
    } else {
        buffered(
            w.dtx,
            speech_isf(v, books, input, rate),
            residual_energy(
                exc_start(v, books, input, rate).subrange(248, 504),
                frame_scaling(v.front, input).q_new,
            ),
            rate.spec_index() as int,
        )
    }
}

/// The subframe loop after some subframe.
pub struct LoopView {
    pub core: CoreView,
    pub exc: Seq<Word16>,
    pub window: LagWindow,
    pub bits: Seq<u8>,
}

/// Whether subframe `k` carries an absolute pitch index.
pub open spec fn absolute_at(mode: PitchMode, k: int) -> bool {
    k == 0 || (k == 2 && mode.frame_bits() > BITS_6K60)
}

/// The lag window that subframe `k` searches.
pub open spec fn window_at(
    v: EncoderView,
    input: Seq<Word16>,
    rate: Rate,
    before: LagWindow,
    k: int,
) -> LagWindow {
    let lags = frame_lags(v, input, rate);
    if k == 0 {
        window_around(lags.first_half as int)
    } else if k == 2 && frame_mode(v, input, rate).frame_bits() > BITS_6K60 {
        window_around(lags.second_half as int)
    } else {
        before
    }
}

/// What subframe `k` reads.
pub open spec fn subframe_at(
    v: EncoderView,
    books: Codebooks,
    input: Seq<Word16>,
    rate: Rate,
    before: LagWindow,
    k: int,
) -> SubframeView {
    let w = after_analysis(v, input, rate);
    let mode = frame_mode(v, input, rate);
    SubframeView {
        rate,
        mode,
        index: k,
        window: frame_window(v.front, input),
        a: subframe_lp(v.front.isp_old, frame_isp(v.front, input), k),
        aq: quantised_lp(v, books, input, rate, k),
        q_new: frame_scaling(v.front, input).q_new,
        shift: frame_wsp_shift(v.front, input),
        stab_fac: stability_of(speech_isf(v, books, input, rate), v.isf_old),
        lag_window: window_at(v, input, rate, before, k),
        absolute: absolute_at(mode, k),
        pcm: input,
        vad_hist: w.vad_hist,
        hangover: speech_dtx(v, books, input, rate).hangover,
    }
}

/// The subframe loop after `n` subframes.
pub open spec fn loop_run(
    v: EncoderView,
    books: Codebooks,
    input: Seq<Word16>,
    rate: Rate,
    n: int,
) -> LoopView
    decreases n,
{
    if n <= 0 {
        LoopView {
            core: after_analysis(v, input, rate).core,
            exc: exc_start(v, books, input, rate),
            window: window_around(frame_lags(v, input, rate).first_half as int),
            bits: bits_of(
                if voice_active(v, input) {
                    1
                } else {
                    0
                },
                1,
            ) + index_bits(
                speech_indices(v, books, input, rate),
                rate.spec_isf_widths(),
                rate.spec_isf_widths().len() as int,
            ),
        }
    } else {
        let l = loop_run(v, books, input, rate, n - 1);
        let s = subframe_at(v, books, input, rate, l.window, n - 1);
        LoopView {
            core: core_after(l.core, s, l.exc),
            exc: exc_after(l.core, s, l.exc),
            window: next_window(l.core, s, l.exc),
            bits: l.bits + subframe_bits(l.core, s, l.exc),
        }
    }
}

/// The state after a speech frame.
pub open spec fn after_speech(
    v: EncoderView,
    books: Codebooks,
    input: Seq<Word16>,
    rate: Rate,
) -> EncoderView {
    let l = loop_run(v, books, input, rate, 4);
    EncoderView {
        isf_past: residual_of(
            books.isf,
            rate.spec_isf_quantiser(),
            speech_indices(v, books, input, rate),
        ),
        dtx: speech_dtx(v, books, input, rate),
        core: l.core,
        old_exc: l.exc.subrange(256, 504),
        isp_old_q: isp_of(speech_isf(v, books, input, rate)),
        isf_old: speech_isf(v, books, input, rate),
        first_frame: false,
        ..after_analysis(v, input, rate)
    }
}

// ---------------------------------------------------------------------------
// Frames
// ---------------------------------------------------------------------------

/// The codec bits of a frame.
pub open spec fn frame_codec_bits(
    v: EncoderView,
    books: Codebooks,
    input: Seq<Word16>,
    rate: Rate,
) -> Seq<u8> {
    if is_comfort_noise(v, input) {
        sid_frame_bits(v, books, input, rate)
    } else {
        loop_run(v, books, input, rate, 4).bits
    }
}

/// The state after a frame.
pub open spec fn after_frame(
    v: EncoderView,
    books: Codebooks,
    input: Seq<Word16>,
    rate: Rate,
) -> EncoderView {
    if is_comfort_noise(v, input) {
        after_comfort_noise(v, books, input, rate)
    } else {
        after_speech(v, books, input, rate)
    }
}

/// The payload of a frame.
pub open spec fn frame_payload(
    v: EncoderView,
    books: Codebooks,
    input: Seq<Word16>,
    rate: Rate,
) -> Seq<u8> {
    let index: int = if is_comfort_noise(v, input) {
        9
    } else {
        rate.spec_index() as int
    };
    packed(order_of(index), frame_codec_bits(v, books, input, rate))
}

/// The part of the encoder that codes frames.
#[derive(Debug)]
pub struct FrameCoder {
    front: FrontEnd,
    isf_quantiser: IsfEncoder,
    open_loop: OpenLoopPitch,
    tone_probe: OpenLoopGainProbe,
    vad: VoiceActivityDetector,
    dtx: DtxEncoder,
    allow_dtx: bool,
    core: SubframeCore,
    old_exc: [Word16; EXC_HISTORY],
    isp_old_q: [Word16; LP_ORDER],
    isf_old: [Word16; LP_ORDER],
    first_frame: bool,
    vad_hist: i16,
}

/// What the analysis of a frame hands to its coding.
struct AnalysedFrame {
    frame: FrontEndFrame,
    active: bool,
    comfort_noise: bool,
    mode: PitchMode,
    lags: OpenLoopLags,
}

spec fn analysed_frame_is(
    f: AnalysedFrame,
    v: EncoderView,
    input: Seq<Word16>,
    rate: Rate,
) -> bool {
    &&& crate::enc::analysis::frame_is(f.frame, v.front, input)
    &&& 0 <= f.frame.scaling.q_new <= 8
    &&& -3 <= f.frame.wsp_shift <= 0
    &&& f.active == voice_active(v, input)
    &&& f.comfort_noise == is_comfort_noise(v, input)
    &&& f.mode == frame_mode(v, input, rate)
    &&& f.lags == frame_lags(v, input, rate)
    &&& 36 <= f.lags.first_half <= 230
    &&& 36 <= f.lags.second_half <= 230
}

impl Default for FrameCoder {
    fn default() -> (e: Self)
        ensures
            e.wf(),
            e@ == encoder_reset(),
    {
        FrameCoder::new()
    }
}

impl FrameCoder {
    /// The state as plain values.
    pub closed spec fn view(&self) -> EncoderView {
        EncoderView {
            front: self.front.view(),
            isf_past: self.isf_quantiser.past@,
            open_loop: self.open_loop.view(),
            probe: self.tone_probe.view(),
            vad: self.vad.view(),
            dtx: self.dtx.view(),
            allow_dtx: self.allow_dtx,
            core: self.core.view(),
            old_exc: self.old_exc@,
            isp_old_q: self.isp_old_q@,
            isf_old: self.isf_old@,
            first_frame: self.first_frame,
            vad_hist: self.vad_hist,
        }
    }

    /// The invariant.
    pub closed spec fn wf(&self) -> bool {
        &&& encoder_inv(self@)
        &&& self.core.wf()
    }

    /// A cold-start encoder.
    #[must_use]
    pub fn new() -> (e: Self)
        ensures
            e.wf(),
            e@ == encoder_reset(),
    {
        let mut isf_old: [Word16; LP_ORDER] = [Word16(0); LP_ORDER];
        let mut isp_old_q: [Word16; LP_ORDER] = [Word16(0); LP_ORDER];
        for i in 0..LP_ORDER
            invariant
                forall|j: int| 0 <= j < i ==> #[trigger] isf_old@[j] == Word16(ISF_INIT@[j]),
                forall|j: int| 0 <= j < i ==> #[trigger] isp_old_q@[j] == Word16(ISP_INIT@[j]),
        {
            isf_old[i] = Word16(ISF_INIT[i]);
            isp_old_q[i] = Word16(ISP_INIT[i]);
        }
        let core = SubframeCore {
            mem_syn: [Word16(0); LP_ORDER],
            mem_w0: Word16(0),
            tilt_code: Word16(0),
            clipping: GainClipping::new(),
            gains: GainPredictor::new(),
            high_band: HighBand::new(),
        };
        let e = FrameCoder {
            front: FrontEnd::new(),
            isf_quantiser: IsfEncoder::new(),
            open_loop: OpenLoopPitch::new(),
            tone_probe: OpenLoopGainProbe::new(),
            vad: VoiceActivityDetector::new(),
            dtx: DtxEncoder::new(),
            allow_dtx: false,
            core,
            old_exc: [Word16(0); EXC_HISTORY],
            isp_old_q,
            isf_old,
            first_frame: true,
            vad_hist: 0,
        };
        assert(e@.core.mem_syn =~= zeros(16));
        assert(e@.isf_past =~= zeros(16));
        assert(e@.old_exc =~= zeros(248));
        assert(e@.isp_old_q =~= encoder_reset().isp_old_q);
        assert(e@.isf_old =~= encoder_reset().isf_old);
        e
    }

    /// Walk the hangover counter down by `quiet_frames` quiet frames, without
    /// running the detector.
    ///
    /// The highest rate reads this counter on ordinary speech frames, and
    /// without discontinuous transmission nothing else moves it.
    pub fn force_dtx_hangover(&mut self, quiet_frames: usize)
        requires
            old(self).wf(),
        ensures
            final(self).wf(),
            final(self)@ == (EncoderView {
                dtx: quieted(old(self)@.dtx, quiet_frames as int),
                ..old(self)@
            }),
    {
        let mut ctx = DspContext::new();
        for n in 0..quiet_frames
            invariant
                self.wf(),
                self@ == (EncoderView {
                    dtx: quieted(old(self)@.dtx, n as int),
                    ..old(self)@
                }),
        {
            let _decision = self.dtx.classify(&mut ctx, false);
        }
    }

    /// What a comfort-noise frame clears, and what it deliberately does not.
    fn reset_after_comfort_noise(&mut self)
        requires
            old(self).wf(),
        ensures
            final(self).wf(),
            final(self)@ == cleared(old(self)@),
    {
        self.old_exc = [Word16(0); EXC_HISTORY];
        self.core.mem_syn = [Word16(0); LP_ORDER];
        self.core.mem_w0 = Word16(0);
        self.core.tilt_code = Word16(0);
        self.first_frame = true;
        self.isf_quantiser.reset();
        self.core.clipping = GainClipping::new();
        self.core.high_band.reset_gain_threshold();
        assert(self@.old_exc =~= zeros(248));
        assert(self@.core.mem_syn =~= zeros(16));
        assert(self@.isf_past =~= zeros(16));
    }

    /// Everything that every frame runs: the front end, the detector, the
    /// comfort-noise decision, the clipping observation and both open-loop
    /// halves with their tone detection.
    fn analyse(&mut self, ctx: &mut DspContext, input: &[Word16; L_FRAME16K], rate: Rate) -> (f:
        AnalysedFrame)
        requires
            old(self).wf(),
            rate.wf(),
        ensures
            final(self).wf(),
            analysed_frame_is(f, old(self)@, input@, rate),
            final(self)@ == after_analysis(old(self)@, input@, rate),
    {
        proof {
            reveal(after_analysis);
            reveal(vad_after);
            reveal(probe_after);
            reveal(frame_lags);
        }
        let ghost v = self@;
        let frame = self.front.process_frame(input);
        let q_new: i16 = frame.scaling.q_new;
        let q_exp: i16 = frame.scaling.exp;
        let shift: i16 = frame.wsp_shift;
        scale_sig(&mut self.old_exc, q_exp);
        scale_sig(&mut self.core.mem_syn, q_exp);
        self.core.mem_w0 = round(l_shl(l_deposit_h(self.core.mem_w0), q_exp));
        // The detector sees the pre-emphasised frame brought back to Q1.
        let mut vad_frame: [Word16; L_FRAME] = [Word16(0); L_FRAME];
        for i in 0..L_FRAME
            invariant
                forall|j: int| 0 <= j < i ==> #[trigger] vad_frame@[j] == frame.window@[116 + j],
        {
            vad_frame[i] = frame.window[NEW_SPEECH + i];
        }
        assert(vad_frame@ =~= frame.window@.subrange(116, 372));
        scale_sig(&mut vad_frame, 1 - q_new);
        assert(vad_frame@ == vad_input(v, input@));
        let active: bool = self.vad.process(ctx, &vad_frame);
        self.vad_hist = if active {
            0
        } else {
            add_s(Word16(self.vad_hist), Word16(1)).0
        };
        // Without DTX the handler does not run at all, so its hangover counter
        // keeps its reset value.
        let comfort_noise: bool = if self.allow_dtx {
            match self.dtx.classify(ctx, active) {
                TxDecision::ComfortNoise => true,
                TxDecision::Speech => false,
            }
        } else {
            false
        };
        let bits: u16 = if comfort_noise {
            35
        } else {
            rate.bits() as u16
        };
        let mode = PitchMode::from_frame_bits(bits);
        assert(mode == frame_mode(v, input@, rate));
        self.core.clipping.observe_isf(ctx, mode, &frame.isf);
        self.open_loop.rescale(ctx, q_exp, shift);
        self.tone_probe.rescale(ctx, q_exp, shift);
        let lags = self.open_loop.analyse(ctx, &frame.wsp, mode);
        let whole: bool = mode.open_loop_spans_frame();
        let half: usize = if whole {
            128
        } else {
            64
        };
        let first = slice_subrange(&frame.wsp, 0, half);
        assert(first@ =~= first_part(v, input@, rate));
        let gain = self.tone_probe.measure(ctx, first, lags.first_half / 2);
        self.vad.tone_detection(ctx, gain);
        if !whole {
            let second = slice_subrange(&frame.wsp, 64, 128);
            assert(second@ =~= second_part(v, input@));
            let gain = self.tone_probe.measure(ctx, second, lags.second_half / 2);
            self.vad.tone_detection(ctx, gain);
        }
        AnalysedFrame { frame, active, comfort_noise, mode, lags }
    }
}

/// The energy that is buffered of a residual.
fn measure_residual(x: &[Word16; L_FRAME], q_new: i16) -> (energy: Word32)
    ensures
        energy == residual_energy(x@, q_new),
{
    let mut y: [Word16; L_FRAME] = [Word16(0); L_FRAME];
    for i in 0..L_FRAME
        invariant
            forall|j: int| 0 <= j < i ==> #[trigger] y@[j] == shr(x@[j], q_new),
    {
        y[i] = shr(x[i], q_new);
    }
    assert(y@ =~= unscaled(x@, q_new));
    l_shr(crate::math::accumulate(Word32(0), &y, 0, &y, 0, L_FRAME), 1)
}

/// Write comfort-noise spectrum indices.
fn push_sid(prms: &mut Parameters, indices: &[u16; 5])
    requires
        old(prms).wf(),
        old(prms)@.len() + 28 <= 477,
    ensures
        final(prms).wf(),
        final(prms)@ == old(prms)@ + index_bits(indices@, sid_widths(), 5),
        index_bits(indices@, sid_widths(), 5).len() == 28,
{
    let ghost start = prms@;
    proof {
        reveal_with_fuel(total_width, 6);
        lemma_index_bits(indices@, sid_widths(), 5);
    }
    assert(start =~= start + index_bits(indices@, sid_widths(), 0));
    for k in 0..5usize
        invariant
            prms.wf(),
            start.len() + 28 <= 477,
            prms@ == start + index_bits(indices@, sid_widths(), k as int),
    {
        proof {
            reveal_with_fuel(total_width, 6);
            lemma_index_bits(indices@, sid_widths(), k as int);
        }
        let width: usize = SPLIT_BITS[k] as usize;
        assert(width == sid_widths()[k as int]);
        prms.push(indices[k], width);
        assert(prms@ =~= start + index_bits(indices@, sid_widths(), k + 1));
    }
}

impl FrameCoder {
    /// Code a comfort-noise frame.
    fn encode_comfort_noise(
        &mut self,
        ctx: &mut DspContext,
        books: &Codebooks,
        input: &[Word16; L_FRAME16K],
        rate: Rate,
        f: &AnalysedFrame,
        prms: &mut Parameters,
        Ghost(v): Ghost<EncoderView>,
    )
        requires
            old(self).wf(),
            rate.wf(),
            rate.spec_index() != 9,
            analysed_frame_is(*f, v, input@, rate),
            old(self)@ == after_analysis(v, input@, rate),
            old(prms).wf(),
            old(prms)@.len() == 0,
        ensures
            final(self).wf(),
            final(self)@ == after_comfort_noise(v, *books, input@, rate),
            final(prms).wf(),
            final(prms)@ == sid_frame_bits(v, *books, input@, rate),
            final(prms)@.len() == 35,
    {
        let ghost before = prms@;
        let speech = slice_subrange(&f.frame.window, 48, 320);
        assert(speech@ =~= frame_window(v.front, input@).subrange(48, 320));
        let mut residual_block: [Word16; L_FRAME] = [Word16(0); L_FRAME];
        assert(f.frame.a_interp@[3]@ == subframe_lp(
            v.front.isp_old,
            frame_isp(v.front, input@),
            3,
        ));
        residu(&f.frame.a_interp[3], speech, &mut residual_block);
        let energy = measure_residual(&residual_block, f.frame.scaling.q_new);
        self.dtx.buffer(ctx, &f.frame.isf, energy, rate.index() as usize);
        assert(self.dtx@ == quiet_dtx(v, input@, rate));
        let sid = self.dtx.build_sid(ctx, &books.noise);
        assert(sid.isf_indices@ =~= sid_indices(v, *books, input@, rate));
        push_sid(prms, &sid.isf_indices);
        proof {
            crate::enc::dtx::law_building_keeps_the_history(quiet_dtx(v, input@, rate));
            lemma_bits_length(sid.energy_index.0 as int, 6);
        }
        prms.push(sid.energy_index.0 as u16, 6);
        let dither: u16 = if sid.dither {
            1
        } else {
            0
        };
        proof {
            lemma_bits_length(dither as int, 1);
        }
        prms.push(dither, 1);
        assert(prms@ =~= sid_frame_bits(v, *books, input@, rate));
        // The encoder synthesises the noise it just described, so that its
        // filters carry the right memories into the next speech frame.
        let excitation = self.dtx.excitation(ctx, sid.energy_index);
        let isp = isf_to_isp(&sid.spectrum);
        let aq = isp_to_lp(&isp);
        if rate.has_high_band() {
            self.quiet_high_band(ctx, &aq, &excitation, input);
        }
        self.isf_old = sid.spectrum;
        self.reset_after_comfort_noise();
    }

    /// Run the high band over a frame of comfort noise.
    fn quiet_high_band(
        &mut self,
        ctx: &mut DspContext,
        aq: &[Word16; 17],
        excitation: &[Word16; 256],
        input: &[Word16; L_FRAME16K],
    )
        requires
            old(self).wf(),
        ensures
            final(self).wf(),
            final(self)@ == (EncoderView {
                core: CoreView {
                    high_band: quiet_band(
                        old(self)@.core.high_band,
                        aq@,
                        excitation@,
                        input@,
                        old(self)@.dtx.hangover,
                        4,
                    ),
                    ..old(self)@.core
                },
                ..old(self)@
            }),
    {
        let ghost w = self@;
        let hangover = self.dtx.hangover_count();
        for k in 0..NB_SUBFR
            invariant
                self.wf(),
                hangover == w.dtx.hangover,
                self@ == (EncoderView {
                    core: CoreView {
                        high_band: quiet_band(
                            w.core.high_band,
                            aq@,
                            excitation@,
                            input@,
                            hangover,
                            k as int,
                        ),
                        ..w.core
                    },
                    ..w
                }),
        {
            let mut part: [Word16; L_SUBFR] = [Word16(0); L_SUBFR];
            let mut reference: [Word16; L_SUBFR16K] = [Word16(0); L_SUBFR16K];
            for i in 0..L_SUBFR16K
                invariant
                    k < 4,
                    forall|j: int| 0 <= j < i ==> #[trigger] reference@[j] == input@[80 * k + j],
                    forall|j: int|
                        0 <= j < i && j < 64 ==> #[trigger] part@[j] == excitation@[64 * k + j],
            {
                reference[i] = input[k * L_SUBFR16K + i];
                if i < L_SUBFR {
                    part[i] = excitation[k * L_SUBFR + i];
                }
            }
            assert(part@ =~= excitation@.subrange(64 * k as int, 64 * (k + 1)));
            assert(reference@ =~= input@.subrange(80 * k as int, 80 * (k + 1)));
            let _ = self.core.high_band.analyse(
                ctx,
                aq,
                &part,
                0,
                &reference,
                self.vad_hist,
                hangover,
            );
        }
    }
}

// ---------------------------------------------------------------------------
// Speech frames
// ---------------------------------------------------------------------------

/// Write spectrum indices.
fn push_isf(prms: &mut Parameters, indices: &[u16; 7], rate: Rate)
    requires
        old(prms).wf(),
        rate.wf(),
        rate.spec_index() != 9,
        old(prms)@.len() + 46 <= 477,
    ensures
        final(prms).wf(),
        final(prms)@ == old(prms)@ + index_bits(
            indices@,
            rate.spec_isf_widths(),
            rate.spec_isf_widths().len() as int,
        ),
        index_bits(
            indices@,
            rate.spec_isf_widths(),
            rate.spec_isf_widths().len() as int,
        ).len() == isf_width(rate),
{
    let ghost start = prms@;
    let widths = rate.isf_index_widths();
    proof {
        reveal_with_fuel(total_width, 8);
        lemma_index_bits(indices@, widths@, widths@.len() as int);
    }
    assert(start =~= start + index_bits(indices@, widths@, 0));
    for k in 0..widths.len()
        invariant
            prms.wf(),
            widths@ == rate.spec_isf_widths(),
            start.len() + 46 <= 477,
            prms@ == start + index_bits(indices@, widths@, k as int),
    {
        proof {
            reveal_with_fuel(total_width, 8);
            lemma_index_bits(indices@, widths@, k as int);
        }
        prms.push(indices[k], widths[k]);
        assert(prms@ =~= start + index_bits(indices@, widths@, k + 1));
    }
}

/// The bits of a spectrum.
pub open spec fn isf_width(rate: Rate) -> int {
    if rate.spec_bits() <= 132 {
        36
    } else {
        46
    }
}

/// The bits of the first `n` subframes.
pub open spec fn subframes_width(rate: Rate, mode: PitchMode, n: int) -> int
    decreases n,
{
    if n <= 0 {
        0
    } else {
        subframes_width(rate, mode, n - 1) + subframe_width(rate, mode, absolute_at(mode, n - 1))
    }
}

/// A speech frame fills its budget exactly: the activity bit, the spectrum and
/// four subframes.
pub proof fn law_speech_fills_its_frame(rate: Rate, mode: PitchMode)
    requires
        rate.wf(),
        rate.spec_index() != 9,
        mode.frame_bits() == rate.spec_bits(),
    ensures
        1 + isf_width(rate) + subframes_width(rate, mode, 4) == rate.spec_bits(),
{
    reveal_with_fuel(subframes_width, 5);
}

/// Subframes only add bits.
proof fn lemma_subframes_width(rate: Rate, mode: PitchMode, k: int, n: int)
    requires
        0 <= k <= n,
    ensures
        0 <= subframes_width(rate, mode, k) <= subframes_width(rate, mode, n),
    decreases n,
{
    if k < n {
        lemma_subframes_width(rate, mode, k, n - 1);
    } else if k > 0 {
        lemma_subframes_width(rate, mode, k - 1, k - 1);
    }
}

/// What the spectrum of a speech frame hands to its subframes.
struct QuantisedFrame {
    indices: [u16; 7],
    isf: [Word16; LP_ORDER],
    stab_fac: Word16,
    isp: [Word16; LP_ORDER],
    aq: [[Word16; 17]; NB_SUBFR],
}

spec fn quantised_frame_is(
    q: QuantisedFrame,
    v: EncoderView,
    books: Codebooks,
    input: Seq<Word16>,
    rate: Rate,
) -> bool {
    &&& q.indices@ == speech_indices(v, books, input, rate)
    &&& q.isf@ == speech_isf(v, books, input, rate)
    &&& q.isp@ == isp_of(speech_isf(v, books, input, rate))
    &&& q.stab_fac == stability_of(speech_isf(v, books, input, rate), v.isf_old)
    &&& forall|k: int|
        0 <= k < 4 ==> (#[trigger] q.aq@[k])@ == quantised_lp(v, books, input, rate, k)
}

impl FrameCoder {
    /// Quantise the spectrum, write its indices, and interpolate it over the
    /// subframes.
    fn quantise_spectrum(
        &mut self,
        books: &Codebooks,
        rate: Rate,
        f: &AnalysedFrame,
        prms: &mut Parameters,
        Ghost(v): Ghost<EncoderView>,
        Ghost(input): Ghost<Seq<Word16>>,
    ) -> (q: QuantisedFrame)
        requires
            old(self).wf(),
            rate.wf(),
            rate.spec_index() != 9,
            analysed_frame_is(*f, v, input, rate),
            old(self)@ == after_analysis(v, input, rate),
            old(prms).wf(),
            old(prms)@.len() + 46 <= 477,
        ensures
            final(self).wf(),
            quantised_frame_is(q, v, *books, input, rate),
            final(self)@ == (EncoderView {
                isf_past: residual_of(
                    books.isf,
                    rate.spec_isf_quantiser(),
                    speech_indices(v, *books, input, rate),
                ),
                isp_old_q: isp_of(speech_isf(v, *books, input, rate)),
                isf_old: speech_isf(v, *books, input, rate),
                first_frame: false,
                ..old(self)@
            }),
            final(prms).wf(),
            final(prms)@ == old(prms)@ + index_bits(
                speech_indices(v, *books, input, rate),
                rate.spec_isf_widths(),
                rate.spec_isf_widths().len() as int,
            ),
            final(prms)@.len() == old(prms)@.len() + isf_width(rate),
    {
        proof {
            lemma_analysis_keeps(v, input, rate);
        }
        let quantised = self.isf_quantiser.quantize(
            &books.isf,
            &f.frame.isf,
            rate.isf_quantiser(),
        );
        assert(quantised.indices@ == speech_indices(v, *books, input, rate));
        assert(quantised.isf@ == speech_isf(v, *books, input, rate));
        push_isf(prms, &quantised.indices, rate);
        let isf_q = quantised.isf;
        let stab_fac = stability(&isf_q, &self.isf_old);
        self.isf_old = isf_q;
        let isp_q = isf_to_isp(&isf_q);
        if self.first_frame {
            self.first_frame = false;
            self.isp_old_q = isp_q;
        }
        assert(self.isp_old_q@ == interpolated_from(v, *books, input, rate));
        let aq = interpolate_isp(&self.isp_old_q, &isp_q);
        self.isp_old_q = isp_q;
        QuantisedFrame { indices: quantised.indices, isf: isf_q, stab_fac, isp: isp_q, aq }
    }

    /// The excitation buffer: history, then the frame's residual.
    fn fill_excitation(
        &self,
        rate: Rate,
        f: &AnalysedFrame,
        q: &QuantisedFrame,
        Ghost(v): Ghost<EncoderView>,
        Ghost(books): Ghost<Codebooks>,
        Ghost(input): Ghost<Seq<Word16>>,
    ) -> (exc: [Word16; EXC_LEN])
        requires
            analysed_frame_is(*f, v, input, rate),
            quantised_frame_is(*q, v, books, input, rate),
            self@.old_exc == after_analysis(v, input, rate).old_exc,
        ensures
            exc@ == exc_start(v, books, input, rate),
    {
        let mut exc: [Word16; EXC_LEN] = [Word16(0); EXC_LEN];
        let ghost want = exc_start(v, books, input, rate);
        proof {
            reveal(exc_start);
        }
        for i in 0..EXC_HISTORY
            invariant
                self@.old_exc == after_analysis(v, input, rate).old_exc,
                self@.old_exc == self.old_exc@,
                want == exc_start(v, books, input, rate),
                forall|j: int| 0 <= j < i ==> #[trigger] exc@[j] == want[j],
                forall|j: int| i <= j < 505 ==> #[trigger] exc@[j] == Word16(0),
        {
            proof {
                reveal(exc_start);
            }
            exc[i] = self.old_exc[i];
        }
        for k in 0..NB_SUBFR
            invariant
                analysed_frame_is(*f, v, input, rate),
                quantised_frame_is(*q, v, books, input, rate),
                want == exc_start(v, books, input, rate),
                forall|j: int| 0 <= j < 248 + 64 * k ==> #[trigger] exc@[j] == want[j],
                forall|j: int| 248 + 64 * k <= j < 505 ==> #[trigger] exc@[j] == Word16(0),
        {
            assert(q.aq@[k as int]@ == quantised_lp(v, books, input, rate, k as int));
            let start: usize = 48 + k * L_SUBFR;
            let speech = slice_subrange(&f.frame.window, start, start + 80);
            assert(speech@ =~= frame_window(v.front, input).subrange(48 + 64 * k, 128 + 64 * k));
            let mut block: [Word16; L_SUBFR] = [Word16(0); L_SUBFR];
            residu(&q.aq[k], speech, &mut block);
            assert(block@ == quantised_residual(v, books, input, rate, k as int));
            for i in 0..L_SUBFR
                invariant
                    k < 4,
                    want == exc_start(v, books, input, rate),
                    block@ == quantised_residual(v, books, input, rate, k as int),
                    forall|j: int| 0 <= j < 248 + 64 * k + i ==> #[trigger] exc@[j] == want[j],
                    forall|j: int| 248 + 64 * k + i <= j < 505 ==> #[trigger] exc@[j] == Word16(0),
            {
                let at: usize = EXC_HISTORY + k * L_SUBFR + i;
                proof {
                    reveal(exc_start);
                }
                assert((at - 248) / 64 == k && (at - 248) % 64 == i);
                exc[at] = block[i];
            }
        }
        assert(exc@ =~= want);
        exc
    }

    /// Run the four subframes.
    fn code_subframes(
        &mut self,
        ctx: &mut DspContext,
        books: &Codebooks,
        input: &[Word16; L_FRAME16K],
        rate: Rate,
        f: &AnalysedFrame,
        q: &QuantisedFrame,
        exc: &mut [Word16; EXC_LEN],
        prms: &mut Parameters,
        Ghost(v): Ghost<EncoderView>,
    ) -> (traces: Vec<SubframeTrace>)
        requires
            old(self).wf(),
            rate.wf(),
            rate.spec_index() != 9,
            !is_comfort_noise(v, input@),
            analysed_frame_is(*f, v, input@, rate),
            quantised_frame_is(*q, v, *books, input@, rate),
            old(self)@.core == after_analysis(v, input@, rate).core,
            old(self)@.vad_hist == after_analysis(v, input@, rate).vad_hist,
            old(self)@.dtx.hangover == speech_dtx(v, *books, input@, rate).hangover,
            old(exc)@ == exc_start(v, *books, input@, rate),
            old(prms).wf(),
            old(prms)@ == loop_run(v, *books, input@, rate, 0).bits,
            old(prms)@.len() == 1 + isf_width(rate),
        ensures
            final(self).wf(),
            final(self)@ == (EncoderView {
                core: loop_run(v, *books, input@, rate, 4).core,
                ..old(self)@
            }),
            final(exc)@ == loop_run(v, *books, input@, rate, 4).exc,
            traces_are(traces@, v, *books, input@, rate, 4),
            final(prms).wf(),
            final(prms)@ == loop_run(v, *books, input@, rate, 4).bits,
            final(prms)@.len() == rate.spec_bits(),
    {
        let ghost w = self@;
        let mode = f.mode;
        proof {
            law_speech_fills_its_frame(rate, mode);
        }
        let hangover = self.dtx.hangover_count();
        let mut window = LagWindow::around(ctx, f.lags.first_half);
        let mut traces: Vec<SubframeTrace> = Vec::new();
        for k in 0..NB_SUBFR
            invariant
                traces_are(traces@, v, *books, input@, rate, k as int),
                rate.wf(),
                rate.spec_index() != 9,
                mode == f.mode,
                mode.frame_bits() == rate.spec_bits(),
                1 + isf_width(rate) + subframes_width(rate, mode, 4) == rate.spec_bits(),
                analysed_frame_is(*f, v, input@, rate),
                quantised_frame_is(*q, v, *books, input@, rate),
                self.wf(),
                w.vad_hist == after_analysis(v, input@, rate).vad_hist,
                hangover == speech_dtx(v, *books, input@, rate).hangover,
                self@ == (EncoderView {
                    core: loop_run(v, *books, input@, rate, k as int).core,
                    ..w
                }),
                exc@ == loop_run(v, *books, input@, rate, k as int).exc,
                window == loop_run(v, *books, input@, rate, k as int).window,
                PIT_MIN <= window.min,
                window.max <= PIT_MAX,
                window.max - window.min == 15,
                prms.wf(),
                prms@ == loop_run(v, *books, input@, rate, k as int).bits,
                prms@.len() == 1 + isf_width(rate) + subframes_width(rate, mode, k as int),
        {
            let restart: bool = k == 2 && mode.third_subframe_is_absolute();
            let absolute: bool = k == 0 || restart;
            if restart {
                window = LagWindow::around(ctx, f.lags.second_half);
            }
            assert(q.aq@[k as int]@ == quantised_lp(v, *books, input@, rate, k as int));
            assert(f.frame.a_interp@[k as int]@ == subframe_lp(
                v.front.isp_old,
                frame_isp(v.front, input@),
                k as int,
            ));
            let inputs = SubframeInputs {
                rate,
                mode,
                index: k,
                window: &f.frame.window,
                a: &f.frame.a_interp[k],
                aq: &q.aq[k],
                q_new: f.frame.scaling.q_new,
                shift: f.frame.wsp_shift,
                stab_fac: q.stab_fac,
                lag_window: window,
                absolute,
                pcm: input,
                vad_hist: self.vad_hist,
                hangover,
            };
            let ghost l = loop_run(v, *books, input@, rate, k as int);
            proof {
                assert(inputs@ == subframe_at(v, *books, input@, rate, l.window, k as int));
                lemma_subframes_width(rate, mode, k + 1, 4);
            }
            let trace = self.core.subframe(ctx, &inputs, exc, prms);
            window = trace.window;
            traces.push(trace);
        }
        traces
    }

    /// Code a speech frame.
    fn encode_speech(
        &mut self,
        ctx: &mut DspContext,
        books: &Codebooks,
        input: &[Word16; L_FRAME16K],
        rate: Rate,
        f: &AnalysedFrame,
        prms: &mut Parameters,
        Ghost(v): Ghost<EncoderView>,
    ) -> (speech: SpeechTrace)
        requires
            old(self).wf(),
            rate.wf(),
            rate.spec_index() != 9,
            !is_comfort_noise(v, input@),
            analysed_frame_is(*f, v, input@, rate),
            old(self)@ == after_analysis(v, input@, rate),
            old(prms).wf(),
            old(prms)@.len() == 0,
        ensures
            final(self).wf(),
            final(self)@ == after_speech(v, *books, input@, rate),
            quantised_frame_is(speech.q, v, *books, input@, rate),
            traces_are(speech.subframes@, v, *books, input@, rate, 4),
            final(prms).wf(),
            final(prms)@ == loop_run(v, *books, input@, rate, 4).bits,
            final(prms)@.len() == rate.spec_bits(),
    {
        let flag: u16 = if f.active {
            1
        } else {
            0
        };
        proof {
            lemma_bits_length(flag as int, 1);
        }
        prms.push(flag, 1);
        assert(prms@ =~= bits_of(flag as int, 1));
        let q = self.quantise_spectrum(books, rate, f, prms, Ghost(v), Ghost(input@));
        assert(prms@ =~= loop_run(v, *books, input@, rate, 0).bits);
        let mut exc = self.fill_excitation(
            rate,
            f,
            &q,
            Ghost(v),
            Ghost(*books),
            Ghost(input@),
        );
        // A quiet speech frame fills the background history too, measured
        // through the quantised predictors.
        if !f.active {
            let mut quiet: [Word16; L_FRAME] = [Word16(0); L_FRAME];
            for i in 0..L_FRAME
                invariant
                    forall|j: int| 0 <= j < i ==> #[trigger] quiet@[j] == exc@[248 + j],
            {
                quiet[i] = exc[EXC_HISTORY + i];
            }
            assert(quiet@ =~= exc_start(v, *books, input@, rate).subrange(248, 504));
            let energy = measure_residual(&quiet, f.frame.scaling.q_new);
            self.dtx.buffer(ctx, &q.isf, energy, rate.index() as usize);
        }
        assert(self.dtx@ == speech_dtx(v, *books, input@, rate));
        let subframes = self.code_subframes(ctx, books, input, rate, f, &q, &mut exc, prms, Ghost(v));
        for i in 0..EXC_HISTORY
            invariant
                forall|j: int| 0 <= j < i ==> #[trigger] self.old_exc@[j] == exc@[256 + j],
                self.core.wf(),
                self.core@ == loop_run(v, *books, input@, rate, 4).core,
                encoder_inv(self@),
                self@ == (EncoderView {
                    old_exc: self.old_exc@,
                    ..after_speech(v, *books, input@, rate)
                }),
        {
            self.old_exc[i] = exc[L_FRAME + i];
        }
        assert(self.old_exc@ =~= exc@.subrange(256, 504));
        SpeechTrace { q, subframes }
    }

    /// One frame, its codec bits in transmission order, and its
    /// intermediates.
    fn code(
        &mut self,
        books: &Codebooks,
        pcm: &[i16; L_FRAME16K],
        rate: Rate,
        prms: &mut Parameters,
    ) -> (coded: CodedFrame)
        requires
            old(self).wf(),
            rate.wf(),
            rate.spec_index() != 9,
            old(prms).wf(),
            old(prms)@.len() == 0,
        ensures
            final(self).wf(),
            coded_frame_is(coded, old(self)@, *books, frame_input(pcm@), rate),
            final(self)@ == after_frame(old(self)@, *books, frame_input(pcm@), rate),
            final(prms).wf(),
            final(prms)@ == frame_codec_bits(old(self)@, *books, frame_input(pcm@), rate),
            final(prms)@.len() == if coded.analysis.comfort_noise {
                35
            } else {
                rate.spec_bits()
            },
    {
        let ghost v = self@;
        let mut ctx = DspContext::new();
        let mut input: [Word16; L_FRAME16K] = [Word16(0); L_FRAME16K];
        for i in 0..L_FRAME16K
            invariant
                forall|j: int| 0 <= j < i ==> #[trigger] input@[j] == Word16(pcm@[j]),
        {
            input[i] = Word16(pcm[i]);
        }
        restrict_to_14_bit(&mut input);
        assert(input@ =~= frame_input(pcm@));
        let f = self.analyse(&mut ctx, &input, rate);
        let speech = if f.comfort_noise {
            self.encode_comfort_noise(&mut ctx, books, &input, rate, &f, prms, Ghost(v));
            None
        } else {
            Some(self.encode_speech(&mut ctx, books, &input, rate, &f, prms, Ghost(v)))
        };
        CodedFrame { input, analysis: f, speech }
    }
}

// ---------------------------------------------------------------------------
// Recording
// ---------------------------------------------------------------------------

/// The intermediates of a speech frame.
struct SpeechTrace {
    q: QuantisedFrame,
    subframes: Vec<SubframeTrace>,
}

/// A coded frame with its intermediates.
struct CodedFrame {
    input: [Word16; L_FRAME16K],
    analysis: AnalysedFrame,
    speech: Option<SpeechTrace>,
}

/// The intermediates of the first `n` subframes.
spec fn traces_are(
    traces: Seq<SubframeTrace>,
    v: EncoderView,
    books: Codebooks,
    input: Seq<Word16>,
    rate: Rate,
    n: int,
) -> bool {
    &&& traces.len() == n
    &&& forall|k: int|
        0 <= k < n ==> (#[trigger] traces[k])@ == traced_subframe(v, books, input, rate, k)
}

spec fn coded_frame_is(
    f: CodedFrame,
    v: EncoderView,
    books: Codebooks,
    input: Seq<Word16>,
    rate: Rate,
) -> bool {
    &&& f.input@ == input
    &&& analysed_frame_is(f.analysis, v, input, rate)
    &&& f.speech is Some <==> !is_comfort_noise(v, input)
    &&& f.speech is Some ==> {
        &&& quantised_frame_is(f.speech->0.q, v, books, input, rate)
        &&& traces_are(f.speech->0.subframes@, v, books, input, rate, 4)
    }
}

/// The intermediates of subframe `k`.
pub open spec fn traced_subframe(
    v: EncoderView,
    books: Codebooks,
    input: Seq<Word16>,
    rate: Rate,
    k: int,
) -> TraceView {
    let l = loop_run(v, books, input, rate, k);
    subframe_trace(l.core, subframe_at(v, books, input, rate, l.window, k), l.exc)
}

/// What the analysis of a frame records.
pub open spec fn traced_analysis(v: EncoderView, input: Seq<Word16>, rate: Rate) -> AnalysisView {
    let w = frame_window(v.front, input);
    AnalysisView {
        input,
        q_new: frame_scaling(v.front, input).q_new,
        window: w,
        raw_high: Seq::new(17, |i: int| raw_pair(w, i).0),
        raw_low: Seq::new(17, |i: int| raw_pair(w, i).1),
        high: lag_high(w),
        low: lag_low(w),
        a: frame_predictor(v.front, input),
        rc: frame_reflections(v.front, input),
        isp: frame_isp(v.front, input),
        a_interp: Seq::new(
            68,
            |i: int| subframe_lp(v.front.isp_old, frame_isp(v.front, input), i / 17)[i % 17],
        ),
        wsp: frame_wsp(v.front, input),
        wsp_shift: frame_wsp_shift(v.front, input),
        median: frame_lags(v, input, rate).smoothed_after_first_half,
    }
}

/// What the spectrum of a speech frame records.
pub open spec fn traced_spectrum(
    v: EncoderView,
    books: Codebooks,
    input: Seq<Word16>,
    rate: Rate,
) -> SpectrumView {
    SpectrumView {
        narrow: rate.spec_bits() <= NBBITS_7K,
        unquantised: raw_isf(v, input),
        indices: speech_indices(v, books, input, rate),
        isf: speech_isf(v, books, input, rate),
        stab_fac: stability_of(speech_isf(v, books, input, rate), v.isf_old),
        isp: isp_of(speech_isf(v, books, input, rate)),
        aq: Seq::new(68, |i: int| quantised_lp(v, books, input, rate, i / 17)[i % 17]),
    }
}

/// The rows of the first `k` subframes of frame `n`.
pub open spec fn loop_rows(
    v: EncoderView,
    books: Codebooks,
    input: Seq<Word16>,
    rate: Rate,
    n: int,
    k: int,
) -> Seq<RowView>
    decreases k,
{
    if k <= 0 {
        Seq::empty()
    } else {
        loop_rows(v, books, input, rate, n, k - 1) + subframe_rows(
            n,
            k - 1,
            frame_wsp_shift(v.front, input),
            traced_subframe(v, books, input, rate, k - 1),
        )
    }
}

/// The rows that frame `n` records: the analysis, and of a speech frame the
/// spectrum and its subframes.
pub open spec fn frame_rows(
    v: EncoderView,
    books: Codebooks,
    input: Seq<Word16>,
    rate: Rate,
    n: int,
) -> Seq<RowView> {
    let head = analysis_rows(n, traced_analysis(v, input, rate));
    if is_comfort_noise(v, input) {
        head
    } else {
        head + spectrum_rows(n, traced_spectrum(v, books, input, rate)) + loop_rows(
            v,
            books,
            input,
            rate,
            n,
            4,
        )
    }
}

/// Record a frame.
fn record_frame(
    trace: &mut EncoderTrace,
    n: usize,
    rate: Rate,
    f: &CodedFrame,
    Ghost(v): Ghost<EncoderView>,
    Ghost(books): Ghost<Codebooks>,
    Ghost(input): Ghost<Seq<Word16>>,
)
    requires
        rate.wf(),
        coded_frame_is(*f, v, books, input, rate),
    ensures
        final(trace)@ == old(trace)@ + frame_rows(v, books, input, rate, n as int),
{
    let ghost before = trace@;
    let frame = &f.analysis.frame;
    let median = f.analysis.lags.smoothed_after_first_half;
    record_analysis(trace, n, &f.input, frame, median);
    assert(analysis_view(input, *frame, median) == traced_analysis(v, input, rate)) by {
        lemma_traced_analysis(*frame, v, input, rate);
    }
    if let Some(speech) = &f.speech {
        let q = &speech.q;
        let narrow: bool = rate.bits() <= NBBITS_7K;
        record_spectrum(trace, n, narrow, &frame.isf, &q.indices, &q.isf, q.stab_fac, &q.isp, &q.aq);
        assert(end_to_end(q.aq@) =~= traced_spectrum(v, books, input, rate).aq);
        let ghost so_far = trace@;
        assert(so_far =~= so_far + loop_rows(v, books, input, rate, n as int, 0));
        for k in 0..NB_SUBFR
            invariant
                traces_are(speech.subframes@, v, books, input, rate, 4),
                frame.wsp_shift == frame_wsp_shift(v.front, input),
                trace@ == so_far + loop_rows(v, books, input, rate, n as int, k as int),
        {
            record_subframe(trace, n, k as i32, frame.wsp_shift, &speech.subframes[k]);
            assert(trace@ =~= so_far + loop_rows(v, books, input, rate, n as int, k + 1));
        }
        assert(trace@ =~= before + frame_rows(v, books, input, rate, n as int));
    }
}

/// An analysed frame records what the specification says.
proof fn lemma_traced_analysis(
    frame: FrontEndFrame,
    v: EncoderView,
    input: Seq<Word16>,
    rate: Rate,
)
    requires
        crate::enc::analysis::frame_is(frame, v.front, input),
    ensures
        analysis_view(input, frame, frame_lags(v, input, rate).smoothed_after_first_half)
            == traced_analysis(v, input, rate),
{
    let got = analysis_view(input, frame, frame_lags(v, input, rate).smoothed_after_first_half);
    let want = traced_analysis(v, input, rate);
    let w = frame_window(v.front, input);
    assert forall|i: int| 0 <= i < 17 implies #[trigger] frame.autocorr_raw.high@[i] == raw_pair(
        w,
        i,
    ).0 && frame.autocorr_raw.low@[i] == raw_pair(w, i).1 by {
        assert((frame.autocorr_raw.high@[i], frame.autocorr_raw.low@[i]) == raw_pair(w, i));
    }
    assert(got.raw_high =~= want.raw_high);
    assert forall|i: int| 0 <= i < 17 implies #[trigger] got.raw_low[i] == want.raw_low[i] by {
        assert(frame.autocorr_raw.high@[i] == raw_pair(w, i).0);
    }
    assert(got.raw_low =~= want.raw_low);
    assert(got.a_interp =~= want.a_interp);
}

// ---------------------------------------------------------------------------
// The encoder
// ---------------------------------------------------------------------------

/// The encoder.
///
/// One instance encodes one stream; the rate may change from frame to frame,
/// and nothing is reset when it does.
#[derive(Debug)]
pub struct WbEncoder {
    coder: FrameCoder,
    trace: Option<EncoderTrace>,
    frame_index: usize,
}

impl Default for WbEncoder {
    fn default() -> (e: Self)
        ensures
            e.wf(),
            e@ == encoder_reset(),
            e.recorded() is None,
            e.frame_number() == 0,
    {
        WbEncoder::new()
    }
}

impl WbEncoder {
    /// The state as plain values.
    pub closed spec fn view(&self) -> EncoderView {
        self.coder@
    }

    /// The recording, where there is one.
    pub closed spec fn recorded(&self) -> Option<Seq<RowView>> {
        match self.trace {
            Some(trace) => Some(trace@),
            None => None,
        }
    }

    /// How many frames have been encoded.
    pub closed spec fn frame_number(&self) -> usize {
        self.frame_index
    }

    /// The invariant.
    pub closed spec fn wf(&self) -> bool {
        self.coder.wf()
    }

    /// A cold-start encoder, without a recording.
    #[must_use]
    pub fn new() -> (e: Self)
        ensures
            e.wf(),
            e@ == encoder_reset(),
            e.recorded() is None,
            e.frame_number() == 0,
    {
        WbEncoder { coder: FrameCoder::new(), trace: None, frame_index: 0 }
    }

    /// Enable discontinuous transmission.
    ///
    /// With it on, a frame that the detector calls quiet may be coded as
    /// comfort noise, and [`Self::encode_frame_typed`] reports that.
    /// [`Self::encode_frame`] always codes speech regardless, because it has
    /// nowhere to say otherwise.
    pub fn set_allow_dtx(&mut self, allow: bool)
        requires
            old(self).wf(),
        ensures
            final(self).wf(),
            final(self)@ == (EncoderView { allow_dtx: allow, ..old(self)@ }),
            final(self).recorded() == old(self).recorded(),
            final(self).frame_number() == old(self).frame_number(),
    {
        self.coder.allow_dtx = allow;
    }

    /// Walk the hangover counter down by `quiet_frames` quiet frames, without
    /// running the detector.
    ///
    /// The highest rate reads this counter on ordinary speech frames, and
    /// without discontinuous transmission nothing else moves it.
    pub fn force_dtx_hangover(&mut self, quiet_frames: usize)
        requires
            old(self).wf(),
        ensures
            final(self).wf(),
            final(self)@ == (EncoderView {
                dtx: quieted(old(self)@.dtx, quiet_frames as int),
                ..old(self)@
            }),
            final(self).recorded() == old(self).recorded(),
            final(self).frame_number() == old(self).frame_number(),
    {
        self.coder.force_dtx_hangover(quiet_frames);
    }

    /// Start recording per-stage intermediates, from an empty recording.
    ///
    /// A diagnostic rather than part of encoding.
    pub fn record_trace(&mut self)
        requires
            old(self).wf(),
        ensures
            final(self).wf(),
            final(self)@ == old(self)@,
            final(self).recorded() == Some(Seq::<RowView>::empty()),
            final(self).frame_number() == old(self).frame_number(),
    {
        self.trace = Some(EncoderTrace::new());
    }

    /// Take the recording so far, leaving recording enabled but empty.
    #[must_use]
    pub fn take_trace(&mut self) -> (taken: Option<EncoderTrace>)
        requires
            old(self).wf(),
        ensures
            final(self).wf(),
            final(self)@ == old(self)@,
            taken is Some <==> old(self).recorded() is Some,
            taken is Some ==> Some(taken->0@) == old(self).recorded(),
            final(self).recorded() == Some(Seq::<RowView>::empty()),
            final(self).frame_number() == old(self).frame_number(),
    {
        let taken = self.trace.take();
        self.trace = Some(EncoderTrace::new());
        taken
    }

    /// One frame, its codec bits in transmission order. Returns whether it
    /// came out as comfort noise.
    pub fn encode_into(
        &mut self,
        books: &Codebooks,
        pcm: &[i16; L_FRAME16K],
        rate: Rate,
        prms: &mut Parameters,
    ) -> (comfort_noise: bool)
        requires
            old(self).wf(),
            rate.wf(),
            rate.spec_index() != 9,
            old(prms).wf(),
            old(prms)@.len() == 0,
        ensures
            final(self).wf(),
            comfort_noise == is_comfort_noise(old(self)@, frame_input(pcm@)),
            final(self)@ == after_frame(old(self)@, *books, frame_input(pcm@), rate),
            final(self).recorded() == recorded_after(
                old(self).recorded(),
                frame_rows(
                    old(self)@,
                    *books,
                    frame_input(pcm@),
                    rate,
                    old(self).frame_number() as int,
                ),
            ),
            final(self).frame_number() == old(self).frame_number(),
            final(prms).wf(),
            final(prms)@ == frame_codec_bits(old(self)@, *books, frame_input(pcm@), rate),
            final(prms)@.len() == if comfort_noise {
                35
            } else {
                rate.spec_bits()
            },
    {
        let ghost v = self@;
        let coded = self.coder.code(books, pcm, rate, prms);
        let n: usize = self.frame_index;
        let mut recording: Option<EncoderTrace> = self.trace.take();
        if let Some(trace) = &mut recording {
            record_frame(
                trace,
                n,
                rate,
                &coded,
                Ghost(v),
                Ghost(*books),
                Ghost(frame_input(pcm@)),
            );
        }
        self.trace = recording;
        coded.analysis.comfort_noise
    }

    /// One frame, reporting whether it came out as speech or comfort noise.
    ///
    /// The payload of a comfort-noise frame is five octets. Whether it is
    /// sent is a separate decision: the encoder builds one on every
    /// comfort-noise frame, and most are discarded.
    pub fn encode_frame_typed(&mut self, books: &Codebooks, pcm: &[i16; L_FRAME16K], rate: Rate) -> (r: (
        bool,
        Vec<u8>,
    ))
        requires
            old(self).wf(),
            rate.wf(),
            rate.spec_index() != 9,
        ensures
            final(self).wf(),
            final(self)@ == after_frame(old(self)@, *books, frame_input(pcm@), rate),
            final(self).recorded() == recorded_after(
                old(self).recorded(),
                frame_rows(
                    old(self)@,
                    *books,
                    frame_input(pcm@),
                    rate,
                    old(self).frame_number() as int,
                ),
            ),
            final(self).frame_number() == next_number(old(self).frame_number()),
            r.0 == is_comfort_noise(old(self)@, frame_input(pcm@)),
            r.1@ == frame_payload(old(self)@, *books, frame_input(pcm@), rate),
            r.1@.len() == if r.0 {
                5
            } else {
                (rate.spec_bits() + 7) / 8
            },
    {
        let mut prms = Parameters::new();
        let comfort_noise: bool = self.encode_into(books, pcm, rate, &mut prms);
        let sent = if comfort_noise {
            Rate::sid()
        } else {
            rate
        };
        proof {
            crate::sort_tables::lemma_order_length(sent.spec_index() as int);
        }
        let payload = prms.pack(sent);
        self.frame_index = if self.frame_index == usize::MAX {
            0
        } else {
            self.frame_index + 1
        };
        (comfort_noise, payload)
    }

    /// Encode one 20 ms frame of 16 kHz mono PCM into its payload, without a
    /// table-of-contents octet.
    ///
    /// The frame is coded as speech at `rate`, whether or not discontinuous
    /// transmission is allowed; the permission itself stays as it was.
    pub fn encode_frame(&mut self, books: &Codebooks, pcm: &[i16; L_FRAME16K], rate: Rate) -> (payload:
        Vec<u8>)
        requires
            old(self).wf(),
            rate.wf(),
            rate.spec_index() != 9,
        ensures
            final(self).wf(),
            final(self)@ == (EncoderView {
                allow_dtx: old(self)@.allow_dtx,
                ..after_frame(speech_only(old(self)@), *books, frame_input(pcm@), rate)
            }),
            final(self).recorded() == recorded_after(
                old(self).recorded(),
                frame_rows(
                    speech_only(old(self)@),
                    *books,
                    frame_input(pcm@),
                    rate,
                    old(self).frame_number() as int,
                ),
            ),
            final(self).frame_number() == next_number(old(self).frame_number()),
            payload@ == frame_payload(speech_only(old(self)@), *books, frame_input(pcm@), rate),
            payload@.len() == (rate.spec_bits() + 7) / 8,
    {
        let allow_dtx: bool = self.coder.allow_dtx;
        self.set_allow_dtx(false);
        let (_, payload) = self.encode_frame_typed(books, pcm, rate);
        self.set_allow_dtx(allow_dtx);
        payload
    }
}

/// The encoder with discontinuous transmission off.
pub open spec fn speech_only(v: EncoderView) -> EncoderView {
    EncoderView { allow_dtx: false, ..v }
}

/// A recording after more rows; where there is none, none.
pub open spec fn recorded_after(before: Option<Seq<RowView>>, rows: Seq<RowView>) -> Option<
    Seq<RowView>,
> {
    match before {
        Some(recorded) => Some(recorded + rows),
        None => None,
    }
}

/// The number of the next frame; it wraps.
pub open spec fn next_number(n: usize) -> usize {
    if n == usize::MAX {
        0
    } else {
        (n + 1) as usize
    }
}

/// Without discontinuous transmission no frame becomes comfort noise.
pub proof fn law_noise_must_be_allowed(v: EncoderView, input: Seq<Word16>)
    requires
        !v.allow_dtx,
    ensures
        !is_comfort_noise(v, input),
{
}

/// Whether the gain probe holds what the open-loop pitch holds.
pub open spec fn in_step(p: ProbeView, v: OpenLoopView) -> bool {
    &&& p.high_pass == v.high_pass
    &&& p.high_passed == v.high_passed
    &&& p.history_shift == v.history_shift
}

/// The gain probe measures what the open-loop pitch measured: in step before a
/// part, it reports the same gain at the same lag and is in step after it, and
/// a change of scaling keeps it so.
pub proof fn law_probe_stays_in_step(
    p: ProbeView,
    v: OpenLoopView,
    buffer: Seq<Word16>,
    base: int,
    span: int,
    q_exp: i16,
    shift: i16,
)
    requires
        in_step(p, v),
        0 <= base,
        0 <= span,
        base + span <= buffer.len(),
    ensures
        ({
            let part = buffer.subrange(base, base + span);
            let lag = open_loop_lag(v, buffer, base, span);
            &&& probed_gain(p, part, lag as int) == scanned(v, buffer, base, span).gain
            &&& in_step(probed(p, part), scanned(v, buffer, base, span))
        }),
        in_step(rescaled_probe(p, q_exp, shift), rescaled_open_loop(v, q_exp, shift)),
        in_step(probe_reset(), open_loop_reset()),
{
}

/// At a rate that sends no high band, and without discontinuous transmission,
/// the hangover counter moves no bit of any frame.
pub proof fn law_hangover_moves_one_rate(
    v: EncoderView,
    w: EncoderView,
    books: Codebooks,
    input: Seq<Word16>,
    rate: Rate,
)
    requires
        w == (EncoderView { dtx: w.dtx, ..v }),
        !v.allow_dtx,
        rate.spec_bits() < NBBITS_24K,
    ensures
        frame_codec_bits(v, books, input, rate) == frame_codec_bits(w, books, input, rate),
        after_frame(w, books, input, rate) == (EncoderView {
            dtx: after_frame(w, books, input, rate).dtx,
            ..after_frame(v, books, input, rate)
        }),
{
    lemma_hangover_analysis(v, w, books, input, rate);
    lemma_hangover_loop(v, w, books, input, rate, 4);
}

/// The analysis does not see the counter.
proof fn lemma_hangover_analysis(
    v: EncoderView,
    w: EncoderView,
    books: Codebooks,
    input: Seq<Word16>,
    rate: Rate,
)
    requires
        w == (EncoderView { dtx: w.dtx, ..v }),
        !v.allow_dtx,
    ensures
        after_analysis(w, input, rate) == (EncoderView {
            dtx: w.dtx,
            ..after_analysis(v, input, rate)
        }),
        frame_lags(v, input, rate) == frame_lags(w, input, rate),
        frame_mode(v, input, rate) == frame_mode(w, input, rate),
        exc_start(v, books, input, rate) == exc_start(w, books, input, rate),
{
    assert(frame_lags(v, input, rate) == frame_lags(w, input, rate)) by {
        reveal(frame_lags);
    }
    assert(probe_after(v, input, rate) == probe_after(w, input, rate)) by {
        reveal(probe_after);
    }
    assert(vad_after(v, input, rate) == vad_after(w, input, rate)) by {
        reveal(vad_after);
    }
    assert(after_analysis(w, input, rate) == (EncoderView {
        dtx: w.dtx,
        ..after_analysis(v, input, rate)
    })) by {
        reveal(after_analysis);
    }
    assert(exc_start(v, books, input, rate) == exc_start(w, books, input, rate)) by {
        reveal(exc_start);
        assert forall|i: int| 248 <= i < 504 implies #[trigger] quantised_residual(
            v,
            books,
            input,
            rate,
            (i - 248) / 64,
        ) == quantised_residual(w, books, input, rate, (i - 248) / 64) by {
        }
        assert(exc_start(v, books, input, rate) =~= exc_start(w, books, input, rate));
    }
}

/// The subframe loop does not see the counter.
proof fn lemma_hangover_loop(
    v: EncoderView,
    w: EncoderView,
    books: Codebooks,
    input: Seq<Word16>,
    rate: Rate,
    n: int,
)
    requires
        w == (EncoderView { dtx: w.dtx, ..v }),
        !v.allow_dtx,
        rate.spec_bits() < NBBITS_24K,
        0 <= n <= 4,
    ensures
        loop_run(v, books, input, rate, n) == loop_run(w, books, input, rate, n),
    decreases n,
{
    lemma_hangover_analysis(v, w, books, input, rate);
    if n > 0 {
        lemma_hangover_loop(v, w, books, input, rate, n - 1);
        let l = loop_run(v, books, input, rate, n - 1);
        let s = subframe_at(v, books, input, rate, l.window, n - 1);
        let t = subframe_at(w, books, input, rate, l.window, n - 1);
        assert(alike_but_hangover(s, t));
        law_hangover_moves_only_the_high_band(l.core, s, t, l.exc);
    }
}

proof fn lemma_loop_excitation(
    v: EncoderView,
    books: Codebooks,
    input: Seq<Word16>,
    rate: Rate,
    k: int,
    n: int,
    j: int,
)
    requires
        0 <= k < n <= 4,
        0 <= j < 64,
    ensures
        loop_run(v, books, input, rate, n).exc.len() == 505,
        ({
            let l = loop_run(v, books, input, rate, k);
            loop_run(v, books, input, rate, n).exc[248 + 64 * k + j] == total_excitation(
                l.core,
                subframe_at(v, books, input, rate, l.window, k),
                l.exc,
            )[j]
        }),
    decreases n,
{
    reveal(exc_start);
    let m = loop_run(v, books, input, rate, n - 1);
    let s = subframe_at(v, books, input, rate, m.window, n - 1);
    if n > 1 {
        lemma_loop_excitation(v, books, input, rate, if k < n - 1 {
            k
        } else {
            0
        }, n - 1, j);
    }
    assert(m.exc.len() == 505);
    law_excitation_is_written_in_place(m.core, s, m.exc, 248 + 64 * k + j);
}

/// The history that a speech frame leaves ends with what its last three
/// subframes excited, in their order.
pub proof fn law_history_is_what_was_excited(
    v: EncoderView,
    books: Codebooks,
    input: Seq<Word16>,
    rate: Rate,
    k: int,
    j: int,
)
    requires
        1 <= k < 4,
        0 <= j < 64,
    ensures
        after_speech(v, books, input, rate).old_exc.len() == 248,
        ({
            let l = loop_run(v, books, input, rate, k);
            after_speech(v, books, input, rate).old_exc[64 * k - 8 + j] == total_excitation(
                l.core,
                subframe_at(v, books, input, rate, l.window, k),
                l.exc,
            )[j]
        }),
{
    lemma_loop_excitation(v, books, input, rate, k, 4, j);
}

/// A speech frame's quantised spectrum is the past of the next frame, which
/// interpolates from it and measures its stability against it.
pub proof fn law_spectrum_becomes_the_past(
    v: EncoderView,
    books: Codebooks,
    input: Seq<Word16>,
    rate: Rate,
    next: Seq<Word16>,
    next_rate: Rate,
)
    ensures
        ({
            let w = after_speech(v, books, input, rate);
            &&& interpolated_from(w, books, next, next_rate) == isp_of(
                speech_isf(v, books, input, rate),
            )
            &&& w.isf_old == speech_isf(v, books, input, rate)
            &&& !w.first_frame
        }),
{
}

/// A frame without speech counts one on, and speech starts the count over.
pub proof fn law_inactive_frames_are_counted(
    v: EncoderView,
    books: Codebooks,
    input: Seq<Word16>,
    rate: Rate,
)
    requires
        0 <= v.vad_hist < 32767,
    ensures
        ({
            let count = after_frame(v, books, input, rate).vad_hist;
            &&& voice_active(v, input) ==> count == 0
            &&& !voice_active(v, input) ==> count == v.vad_hist + 1
        }),
{
    reveal(after_analysis);
    reveal(crate::fixed_point::spec_add_s);
}

/// After comfort noise nothing of the excitation or the synthesis is left, and
/// the next speech frame interpolates from itself.
pub proof fn law_noise_clears_the_past(
    v: EncoderView,
    books: Codebooks,
    input: Seq<Word16>,
    rate: Rate,
    next: Seq<Word16>,
    next_rate: Rate,
    i: int,
)
    requires
        0 <= i < 248,
    ensures
        ({
            let w = after_comfort_noise(v, books, input, rate);
            &&& w.old_exc.len() == 248 && w.old_exc[i] == Word16(0)
            &&& i < 16 ==> w.core.mem_syn[i] == Word16(0)
            &&& interpolated_from(w, books, next, next_rate) == isp_of(
                speech_isf(w, books, next, next_rate),
            )
            &&& w.isf_old == sid_spectrum(v, books, input, rate)
        }),
{
}

} // verus!
