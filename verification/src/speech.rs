//! One subframe of speech: from its parameters to the excitation that the
//! synthesis filter runs on.
//!
//! There are two excitations. The plain total of the adaptive and the
//! algebraic contribution goes back into the history, because it is what the
//! encoder believes it produced. The enhanced one is for the listener, and
//! never re-enters the history.

use vstd::prelude::*;
use crate::codebook::{self, decodable, four_track_code, pulse_bits, two_pulse_code};
use crate::conceal::{
    begun, draws, erasure_inv, lemma_substitute_range, pushed, reset_history, signed_lag,
    substituted, Erasure, ErasureView, FrameQuality, HistoryView, L_SUBFR,
};
use crate::enc::codebook::{pitch_sharpen, sharpened, PITCH_SHARP};
use crate::enc::gain_quant::GainBits;
use crate::enc::high_band::{enhance, enhanced, moved_threshold, EnhancementInputs, EnhancementView};
use crate::enc::shaping::{lemma_levels_fit, preemph, preemph_of, voice_factor, voicing};
use crate::enhance::{
    blend, blended, dispersed, dispersion_after, dispersion_inv, dispersion_reset, dispersion_state,
    DispersionLevel, DispersionPulses, DispersionView, PhaseDispersion,
};
use crate::excitation::{
    adapted, current, excitation_inv, excitation_reset, moved_on, next_scaling, rescaled,
    scaled_gain, totalled, Excitation, ExcitationView,
};
use crate::fixed_point::{add_s, l_extract, lemma_shr, shr, DspContext, Word16, Word32};
use crate::gain::{
    gains_after, gains_of, gains_reset, DecodedGains, FrameContext, GainDecoder, GainsView,
};
use crate::math::{scale_sig, scaled_seq};
use crate::noise::{drawn, next_seed};
use crate::order::{lemma_ascending, within};
use crate::params::{SubframeFields, SubframeParams};

verus! {

/// What one subframe reads, as plain values.
pub struct SpeechView {
    pub fields: SubframeFields,
    pub quality: FrameQuality,
    pub frame_bits: usize,
    pub stab_fac: Word16,
    pub vad_history: i16,
}

/// What is carried from subframe to subframe, as plain values.
pub struct CoreView {
    pub gains: GainsView,
    pub excitation: ExcitationView,
    pub dispersion: DispersionView,
    /// The slow threshold of the code gain.
    pub threshold: Word32,
    /// Spectral tilt of the innovation.
    pub tilt_code: Word16,
    pub erasure: ErasureView,
}

/// What every state keeps: the pitch history holds lags that can be reached.
pub open spec fn core_inv(c: CoreView) -> bool {
    &&& excitation_inv(c.excitation)
    &&& dispersion_inv(c.dispersion)
    &&& erasure_inv(c.erasure)
    &&& within(c.erasure.history.lags, 34, 231)
}

/// The erasure tracker before anything was decoded.
pub open spec fn erasure_reset() -> ErasureView {
    ErasureView {
        severity: 0,
        previous_bad: false,
        current_bad: false,
        history: reset_history(),
        innovation: Word16(21845),
    }
}

/// The state before anything was decoded.
pub open spec fn core_reset() -> CoreView {
    CoreView {
        gains: gains_reset(),
        excitation: excitation_reset(),
        dispersion: dispersion_reset(),
        threshold: Word32(0),
        tilt_code: Word16(0),
        erasure: erasure_reset(),
    }
}

/// The state after comfort noise: the gains stay, all else starts over.
pub open spec fn core_restarted(c: CoreView) -> CoreView {
    CoreView { gains: c.gains, ..core_reset() }
}

/// Whether nothing of the frame arrived.
pub open spec fn is_lost(s: SpeechView) -> bool {
    s.quality == FrameQuality::Unusable
}

/// The lag and the fraction that the subframe uses.
pub open spec fn used_lag(c: CoreView, s: SpeechView) -> (int, int) {
    if s.quality == FrameQuality::Good {
        (s.fields.pitch_lag, s.fields.pitch_frac)
    } else {
        (
            substituted(
                c.erasure.history,
                signed_lag(s.fields.pitch_lag as u16),
                is_lost(s),
            ) as int,
            0,
        )
    }
}

/// The erasure tracker after the lag was settled.
pub open spec fn lagged_erasure(c: CoreView, s: SpeechView) -> ErasureView {
    let h = c.erasure.history;
    if s.quality == FrameQuality::Good {
        c.erasure
    } else {
        ErasureView {
            history: HistoryView {
                jitter: if draws(h, signed_lag(s.fields.pitch_lag as u16), is_lost(s)) {
                    next_seed(h.jitter)
                } else {
                    h.jitter
                },
                ..h
            },
            ..c.erasure
        }
    }
}

/// The excitation with the adaptive codebook's vector. A lost frame has no
/// filter choice to read, and leaves the filter off.
pub open spec fn predicted_excitation(c: CoreView, s: SpeechView) -> ExcitationView {
    let (lag, frac) = used_lag(c, s);
    ExcitationView {
        buffer: adapted(
            c.excitation.buffer,
            lag,
            frac,
            !is_lost(s) && !s.fields.ltp_filter,
        ),
        ..c.excitation
    }
}

/// The codeword of a set of indices.
pub open spec fn sent_code(pulses: Seq<u16>, frame_bits: usize) -> Seq<Word16> {
    let code = if frame_bits == 132 {
        two_pulse_code(pulses[0] as int)
    } else {
        four_track_code(pulses, pulse_bits(frame_bits) as int)
    };
    Seq::new(64, |i: int| Word16(code[i]))
}

/// Noise in place of a codeword that never arrived.
pub open spec fn noise_code(seed: Word16) -> Seq<Word16> {
    Seq::new(64, |i: int| shr(drawn(seed, i + 1), 3))
}

/// The codeword, shaped by the last subframe's tilt and sharpened at the pitch
/// period.
#[verifier::opaque]
pub open spec fn innovation(c: CoreView, s: SpeechView) -> Seq<Word16> {
    let (lag, frac) = used_lag(c, s);
    let raw = if is_lost(s) {
        noise_code(c.erasure.innovation)
    } else {
        sent_code(s.fields.pulses, s.frame_bits)
    };
    let period = if frac > 2 {
        lag + 1
    } else {
        lag
    };
    sharpened(preemph_of(raw, c.tilt_code, Word16(0)), period, Word16(PITCH_SHARP), 64)
}

/// The width of the gain index.
pub open spec fn gain_bits_of(frame_bits: usize) -> GainBits {
    if frame_bits <= 177 {
        GainBits::Six
    } else {
        GainBits::Seven
    }
}

/// What the gains depend on besides their index.
pub open spec fn gain_context(c: CoreView, s: SpeechView) -> FrameContext {
    FrameContext {
        quality: s.quality,
        erasure_state: c.erasure.severity as usize,
        vad_history: s.vad_history,
        previous_frame_bad: c.erasure.previous_bad,
    }
}

/// The gains.
#[verifier::opaque]
pub open spec fn subframe_gains(c: CoreView, s: SpeechView) -> DecodedGains {
    gains_of(
        c.gains,
        s.fields.gain_index,
        gain_bits_of(s.frame_bits),
        innovation(c, s),
        gain_context(c, s),
    )
}

/// The erasure tracker after the subframe: only one that decoded cleanly is
/// evidence about the pitch.
pub open spec fn erasure_after(c: CoreView, s: SpeechView) -> ErasureView {
    let e = lagged_erasure(c, s);
    let e = if is_lost(s) {
        ErasureView { innovation: drawn(e.innovation, 64), ..e }
    } else {
        e
    };
    if s.quality == FrameQuality::Good {
        ErasureView {
            history: pushed(
                e.history,
                signed_lag(used_lag(c, s).0 as u16),
                subframe_gains(c, s).pitch.0,
            ),
            ..e
        }
    } else {
        e
    }
}

/// The scaling of the subframe.
#[verifier::opaque]
pub open spec fn subframe_scaling(c: CoreView, s: SpeechView) -> i16 {
    next_scaling(predicted_excitation(c, s), subframe_gains(c, s).code)
}

/// The code gain in that scaling.
pub open spec fn code_word(c: CoreView, s: SpeechView) -> Word16 {
    scaled_gain(predicted_excitation(c, s), subframe_gains(c, s).code)
}

/// The adaptive part alone, in that scaling.
#[verifier::opaque]
pub open spec fn adaptive_part(c: CoreView, s: SpeechView) -> Seq<Word16> {
    current(rescaled(predicted_excitation(c, s), subframe_gains(c, s).code).buffer)
}

/// The excitation with the plain total.
#[verifier::opaque]
pub open spec fn total_excitation(c: CoreView, s: SpeechView) -> ExcitationView {
    totalled(
        rescaled(predicted_excitation(c, s), subframe_gains(c, s).code),
        innovation(c, s),
        subframe_gains(c, s).pitch,
        code_word(c, s),
    )
}

/// How voiced the subframe is.
#[verifier::opaque]
pub open spec fn subframe_voicing(c: CoreView, s: SpeechView) -> Word16 {
    voicing(
        scaled_seq(adaptive_part(c, s), -3i16),
        -3i16,
        subframe_gains(c, s).pitch,
        innovation(c, s),
        code_word(c, s),
    )
}

/// The high half of the code gain.
pub open spec fn gain_high(c: CoreView, s: SpeechView) -> Word16 {
    l_extract(subframe_gains(c, s).code).0
}

/// What the enhancement reads.
pub open spec fn enhancement(c: CoreView, pulses: DispersionPulses, s: SpeechView) -> EnhancementView {
    let gains = subframe_gains(c, s);
    EnhancementView {
        adaptive: adaptive_part(c, s),
        code: dispersed(
            innovation(c, s),
            pulses,
            dispersion_state(c.dispersion, gain_high(c, s), gains.pitch),
            DispersionLevel::spec_for_frame_bits(s.frame_bits as int),
        ),
        l_gain_code: gains.code,
        gain_pit: gains.pitch,
        voice_fac: subframe_voicing(c, s),
        stab_fac: s.stab_fac,
        q_new: subframe_scaling(c, s),
    }
}

/// The excitation for the listener.
#[verifier::opaque]
pub open spec fn heard_excitation(c: CoreView, pulses: DispersionPulses, s: SpeechView) -> Seq<
    Word16,
> {
    let gains = subframe_gains(c, s);
    blended(
        enhanced(enhancement(c, pulses, s), moved_threshold(gains.code, c.threshold)),
        scaled_seq(adaptive_part(c, s), -3i16),
        gains.pitch,
        s.frame_bits as int,
    )
}

/// The state after a subframe.
#[verifier::opaque]
pub open spec fn core_after(c: CoreView, s: SpeechView) -> CoreView {
    let gains = subframe_gains(c, s);
    CoreView {
        gains: gains_after(
            c.gains,
            s.fields.gain_index,
            gain_bits_of(s.frame_bits),
            gain_context(c, s),
        ),
        excitation: moved_on(total_excitation(c, s)),
        dispersion: dispersion_after(c.dispersion, gain_high(c, s), gains.pitch),
        threshold: moved_threshold(gains.code, c.threshold),
        tilt_code: add_s(shr(subframe_voicing(c, s), 2), Word16(8192)),
        erasure: erasure_after(c, s),
    }
}

// ---------------------------------------------------------------------------
// Execution
// ---------------------------------------------------------------------------

/// Whether a frame size is that of a speech rate.
pub open spec fn is_speech_size(frame_bits: usize) -> bool {
    frame_bits == 132 || frame_bits == 177 || frame_bits == 253 || frame_bits == 285 || frame_bits
        == 317 || frame_bits == 365 || frame_bits == 397 || frame_bits == 461 || frame_bits == 477
}

/// Whether a subframe can be decoded: its lag is in range, and unless nothing
/// arrived its indices are in range and enough.
pub open spec fn readable(s: SpeechView) -> bool {
    &&& is_speech_size(s.frame_bits)
    &&& 34 <= s.fields.pitch_lag <= 231
    &&& 0 <= s.fields.pitch_frac <= 3
    &&& 0 <= s.fields.gain_index < if s.frame_bits <= 177 {
        64int
    } else {
        128
    }
    &&& !is_lost(s) ==> s.fields.pulses.len() > 0 && (s.frame_bits != 132 ==> decodable(
        s.fields.pulses.len() as int,
        pulse_bits(s.frame_bits) as int,
    ))
}

/// What a decoded subframe hands on.
#[derive(Debug, Clone, Copy)]
pub struct SpeechSubframe {
    /// The excitation for the listener.
    pub heard: [Word16; L_SUBFR],
    /// The plain total that went into the history.
    pub total: [Word16; L_SUBFR],
    /// The scaling of both.
    pub q_new: i16,
}

/// The part of the decoder that turns parameters into excitation.
#[derive(Debug, Clone)]
pub struct SpeechCore {
    gains: GainDecoder,
    excitation: Excitation,
    dispersion: PhaseDispersion,
    threshold: Word32,
    tilt_code: Word16,
    erasure: Erasure,
}

/// The codeword of a set of indices.
fn code_of(pulses: &[u16], frame_bits: usize) -> (code: [Word16; L_SUBFR])
    requires
        pulses.len() > 0,
        frame_bits != 132 ==> decodable(pulses.len() as int, pulse_bits(frame_bits) as int),
    ensures
        code@ == sent_code(pulses@, frame_bits),
{
    let decoded = match codebook::decode(pulses, frame_bits) {
        Some(decoded) => decoded,
        None => [0i16; L_SUBFR],
    };
    let mut code: [Word16; L_SUBFR] = [Word16(0); L_SUBFR];
    for i in 0..L_SUBFR
        invariant
            forall|j: int| 0 <= j < i ==> #[trigger] code@[j] == Word16(decoded@[j]),
    {
        code[i] = Word16(decoded[i]);
    }
    assert(code@ =~= sent_code(pulses@, frame_bits));
    code
}

impl SpeechCore {
    /// The state as plain values.
    pub closed spec fn view(&self) -> CoreView {
        CoreView {
            gains: self.gains@,
            excitation: self.excitation@,
            dispersion: self.dispersion@,
            threshold: self.threshold,
            tilt_code: self.tilt_code,
            erasure: self.erasure.view(),
        }
    }

    /// The invariant.
    pub open spec fn wf(&self) -> bool {
        core_inv(self@)
    }

    /// A core in its reset state.
    #[must_use]
    pub fn new() -> (c: Self)
        ensures
            c.wf(),
            c@ == core_reset(),
    {
        SpeechCore {
            gains: GainDecoder::new(),
            excitation: Excitation::new(),
            dispersion: PhaseDispersion::new(),
            threshold: Word32(0),
            tilt_code: Word16(0),
            erasure: Erasure::new(),
        }
    }

    /// Start over after comfort noise: the excitation history and its scaling,
    /// the pitch-lag history, the innovation tilt, the phase dispersion memory
    /// and the noise enhancer's slow threshold.
    pub fn restart(&mut self)
        ensures
            final(self).wf(),
            final(self)@ == core_restarted(old(self)@),
    {
        self.excitation = Excitation::new();
        self.erasure = Erasure::new();
        self.dispersion = PhaseDispersion::new();
        self.threshold = Word32(0);
        self.tilt_code = Word16(0);
    }

    /// Open a frame.
    pub fn begin_frame(&mut self, quality: FrameQuality)
        requires
            old(self).wf(),
        ensures
            final(self).wf(),
            final(self)@ == (CoreView {
                erasure: begun(old(self)@.erasure, quality),
                ..old(self)@
            }),
    {
        self.erasure.begin_frame(quality);
    }

    /// The lag and fraction to use.
    fn settle_lag(
        &mut self,
        ctx: &mut DspContext,
        p: &SubframeParams,
        Ghost(s): Ghost<SpeechView>,
        quality: FrameQuality,
    ) -> (r: (u16, u8))
        requires
            old(self).wf(),
            s.fields == p@,
            s.quality == quality,
            readable(s),
        ensures
            final(self).wf(),
            (r.0 as int, r.1 as int) == used_lag(old(self)@, s),
            34 <= r.0 <= 231,
            r.1 <= 3,
            final(self)@ == (CoreView { erasure: lagged_erasure(old(self)@, s), ..old(self)@ }),
    {
        let ghost h = self.erasure.view().history;
        proof {
            lemma_substitute_range(h, signed_lag(p.pitch_lag), is_lost(s));
            lemma_ascending(h.lags, 34, 231);
        }
        self.erasure.pitch_lag(ctx, p.pitch_lag, p.pitch_frac, quality)
    }

    /// Decode one subframe.
    pub fn subframe(
        &mut self,
        ctx: &mut DspContext,
        pulses: &DispersionPulses,
        p: &SubframeParams,
        quality: FrameQuality,
        frame_bits: usize,
        stab_fac: Word16,
        vad_history: i16,
    ) -> (r: SpeechSubframe)
        requires
            old(self).wf(),
            readable((SpeechView { fields: p@, quality, frame_bits, stab_fac, vad_history })),
        ensures
            final(self).wf(),
            ({
                let s = SpeechView { fields: p@, quality, frame_bits, stab_fac, vad_history };
                &&& final(self)@ == core_after(old(self)@, s)
                &&& r.heard@ == heard_excitation(old(self)@, *pulses, s)
                &&& r.total@ == current(total_excitation(old(self)@, s).buffer)
                &&& r.q_new == subframe_scaling(old(self)@, s)
            }),
            0 <= r.q_new <= 8,
    {
        let ghost s = SpeechView { fields: p@, quality, frame_bits, stab_fac, vad_history };
        let ghost c = self@;
        let lost = quality == FrameQuality::Unusable;
        let (lag, frac) = self.settle_lag(ctx, p, Ghost(s), quality);
        self.excitation.adapt(lag as usize, frac, !lost && !p.ltp_filter);
        assert(self.excitation@ == predicted_excitation(c, s));
        let mut code = if lost {
            let noise = self.erasure.lost_innovation(ctx);
            assert(noise@ =~= noise_code(c.erasure.innovation));
            noise
        } else {
            code_of(p.pulses.as_slice(), frame_bits)
        };
        let mut discard = Word16(0);
        preemph(&mut code, self.tilt_code, &mut discard);
        let period: usize = if frac > 2 {
            lag as usize + 1
        } else {
            lag as usize
        };
        pitch_sharpen(ctx, &mut code, period, Word16(PITCH_SHARP));
        proof {
            reveal(innovation);
        }
        assert(code@ == innovation(c, s));
        let context = FrameContext {
            quality,
            erasure_state: self.erasure.severity(),
            vad_history,
            previous_frame_bad: self.erasure.previous_frame_was_bad(),
        };
        let bits = GainBits::from_frame_bits(frame_bits);
        let gains = self.gains.decode(p.gain_index, bits, &code, context);
        proof {
            reveal(subframe_gains);
        }
        assert(context == gain_context(c, s));
        assert(gains == subframe_gains(c, s));
        if quality == FrameQuality::Good {
            self.erasure.note_good_subframe(lag, gains.pitch);
        }
        assert(self.erasure.view() == erasure_after(c, s));
        let r = self.excite(pulses, code, gains, frame_bits, stab_fac, Ghost(c), Ghost(s));
        proof {
            reveal(core_after);
            reveal(total_excitation);
        }
        self.excitation.advance();
        r
    }

    /// Build both excitations from the settled codeword and gains.
    fn excite(
        &mut self,
        pulses: &DispersionPulses,
        code: [Word16; L_SUBFR],
        gains: DecodedGains,
        frame_bits: usize,
        stab_fac: Word16,
        Ghost(c): Ghost<CoreView>,
        Ghost(s): Ghost<SpeechView>,
    ) -> (r: SpeechSubframe)
        requires
            old(self).wf(),
            s.frame_bits == frame_bits,
            s.stab_fac == stab_fac,
            old(self)@.excitation == predicted_excitation(c, s),
            old(self)@.dispersion == c.dispersion,
            old(self)@.threshold == c.threshold,
            code@ == innovation(c, s),
            gains == subframe_gains(c, s),
        ensures
            final(self).wf(),
            final(self)@ == (CoreView {
                excitation: total_excitation(c, s),
                dispersion: dispersion_after(c.dispersion, gain_high(c, s), gains.pitch),
                threshold: moved_threshold(gains.code, c.threshold),
                tilt_code: add_s(shr(subframe_voicing(c, s), 2), Word16(8192)),
                ..old(self)@
            }),
            r.heard@ == heard_excitation(c, *pulses, s),
            r.total@ == current(total_excitation(c, s).buffer),
            r.q_new == subframe_scaling(c, s),
            0 <= r.q_new <= 8,
    {
        proof {
            reveal(subframe_scaling);
            reveal(adaptive_part);
            reveal(total_excitation);
            reveal(subframe_voicing);
            reveal(heard_excitation);
        }
        let (q_new, gain_word) = self.excitation.rescale_to(gains.code);
        let adaptive = self.excitation.subframe();
        assert(adaptive@ == adaptive_part(c, s));
        self.excitation.build(&code, gains.pitch, gain_word);
        assert(self.excitation@ == total_excitation(c, s));
        let total = self.excitation.subframe();
        let mut scaled = adaptive;
        scale_sig(&mut scaled, -3);
        proof {
            lemma_levels_fit(scaled@, -3i16, gains.pitch, code@, gain_word);
        }
        let voice_fac = voice_factor(&scaled, -3, gains.pitch, &code, gain_word);
        assert(voice_fac == subframe_voicing(c, s));
        self.tilt_code = add_s(shr(voice_fac, 2), Word16(8192));
        let (gain_code_hi, _low) = l_extract(gains.code);
        let mut spread = code;
        self.dispersion.apply(
            pulses,
            &mut spread,
            gain_code_hi,
            gains.pitch,
            DispersionLevel::for_frame_bits(frame_bits),
        );
        let inputs = EnhancementInputs {
            adaptive: &adaptive,
            code: &spread,
            l_gain_code: gains.code,
            gain_pit: gains.pitch,
            voice_fac,
            stab_fac,
            q_new,
        };
        let enhanced_excitation = enhance(&inputs, &mut self.threshold);
        assert(inputs@ == enhancement(c, *pulses, s));
        let heard = blend(&enhanced_excitation, &scaled, gains.pitch, frame_bits);
        SpeechSubframe { heard, total, q_new }
    }
}

/// Of a lost frame's subframe nothing is read: two sets of parameters give the
/// same excitations and leave the same state.
pub proof fn law_lost_subframe_reads_nothing(
    c: CoreView,
    pulses: DispersionPulses,
    s: SpeechView,
    t: SpeechView,
)
    requires
        is_lost(s),
        t == (SpeechView { fields: t.fields, ..s }),
    ensures
        core_after(c, s) == core_after(c, t),
        heard_excitation(c, pulses, s) == heard_excitation(c, pulses, t),
        total_excitation(c, s) == total_excitation(c, t),
        subframe_scaling(c, s) == subframe_scaling(c, t),
{
    reveal(core_after);
    reveal(heard_excitation);
    reveal(total_excitation);
    reveal(subframe_scaling);
    reveal(subframe_voicing);
    reveal(adaptive_part);
    reveal(innovation);
    reveal(subframe_gains);
}

/// What the listener hears does not feed back: the history is the same
/// whatever the phase dispersion, the noise enhancer and the stability measure
/// hold.
pub proof fn law_history_ignores_the_enhancement(
    c: CoreView,
    d: DispersionView,
    threshold: Word32,
    s: SpeechView,
    stab_fac: Word16,
)
    ensures
        ({
            let e = CoreView { dispersion: d, threshold, ..c };
            let t = SpeechView { stab_fac, ..s };
            &&& core_after(e, t).excitation == core_after(c, s).excitation
            &&& core_after(e, t).gains == core_after(c, s).gains
            &&& core_after(e, t).tilt_code == core_after(c, s).tilt_code
            &&& core_after(e, t).erasure == core_after(c, s).erasure
        }),
{
    reveal(core_after);
    reveal(total_excitation);
    reveal(subframe_voicing);
    reveal(adaptive_part);
    reveal(innovation);
    reveal(subframe_gains);
}

/// An intact subframe uses the lag that was sent, any other a whole one.
pub proof fn law_intact_subframe_uses_its_own_lag(c: CoreView, s: SpeechView)
    ensures
        s.quality == FrameQuality::Good ==> used_lag(c, s) == (
            s.fields.pitch_lag,
            s.fields.pitch_frac,
        ),
        s.quality != FrameQuality::Good ==> used_lag(c, s).1 == 0,
{
}

/// Only intact subframes are evidence about the pitch: of another neither the
/// remembered lags nor the remembered gains change, and of an intact one the
/// newest of each is its own.
pub proof fn law_only_intact_subframes_are_evidence(c: CoreView, s: SpeechView)
    requires
        core_inv(c),
        34 <= s.fields.pitch_lag <= 231,
    ensures
        ({
            let before = c.erasure.history;
            let after = core_after(c, s).erasure.history;
            &&& s.quality != FrameQuality::Good ==> after.lags == before.lags && after.gains
                == before.gains
            &&& s.quality == FrameQuality::Good ==> after.lags[0] == s.fields.pitch_lag
                && after.gains.last() == subframe_gains(c, s).pitch.0
        }),
{
    reveal(core_after);
}

/// The next codeword's tilt is a quarter of full scale and a quarter of the
/// voicing.
pub proof fn law_tilt_follows_the_voicing(c: CoreView, s: SpeechView)
    ensures
        4 * core_after(c, s).tilt_code.0 <= subframe_voicing(c, s).0 + 32768 < 4 * core_after(
            c,
            s,
        ).tilt_code.0 + 4,
{
    reveal(core_after);
    reveal(crate::fixed_point::spec_add_s);
    vstd::arithmetic::power2::lemma2_to64();
    lemma_shr(subframe_voicing(c, s), 2, 4);
}

/// The filter choice is read only of frames that arrived: a lost one leaves
/// the adaptive vector unfiltered, as one that asks for it does.
pub proof fn law_filter_needs_a_frame(c: CoreView, s: SpeechView)
    ensures
        ({
            let (lag, frac) = used_lag(c, s);
            let plain = adapted(c.excitation.buffer, lag, frac, false);
            let smooth = adapted(c.excitation.buffer, lag, frac, true);
            &&& s.quality == FrameQuality::Unusable || s.fields.ltp_filter
                ==> predicted_excitation(c, s).buffer == plain
            &&& s.quality != FrameQuality::Unusable && !s.fields.ltp_filter
                ==> predicted_excitation(c, s).buffer == smooth
        }),
{
}

} // verus!
