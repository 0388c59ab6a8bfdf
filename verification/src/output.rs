//! From an excitation to 16 kHz speech: the synthesis filter, the step up to
//! 16 kHz, and the high band laid over it.

use vstd::prelude::*;
use crate::enc::analysis::weighted_taps;
use crate::excitation::{upsampled, Upsampler};
use crate::extrapolation::{between, extrapolate_isf, interpolate_isf, wide_isf};
use crate::fixed_point::{add_s, mult, shl, DspContext, Word16};
use crate::highband::{
    band_filtered, band_memory, band_noise, fill, gain_from_tilt, high_pass_400, match_energy,
    matched, shaped, shaped_memory, spectral_tilt, tilt_gain, tilt_of, transmitted_gain, BandFilter,
    NoiseShaper, TiltFilter, HP_GAIN, L_SUBFR16K,
};
use crate::isf_noise::LP_ORDER;
use crate::lp::{isp_of, isp_to_lp_order, lp_of};
use crate::math::{scale_sig, scaled_seq};
use crate::noise::{drawn, NoiseGenerator};
use crate::synthesis::{
    deemphasis, deemphasis_of, high_pass_50, section_after, sectioned, silent_section,
    synthesis_run, synthesised_memory, synthesised_signal, HighPass50, Section, SynthesisFilter,
    L_SUBFR, PREEMPH_FAC,
};

verus! {

/// What one subframe's synthesis reads, as plain values.
pub struct SynthesisView {
    pub a: Seq<Word16>,
    pub excitation: Seq<Word16>,
    pub q_new: i16,
    pub subframe: int,
    pub frame_bits: int,
    pub hf_gain: Option<u16>,
    pub isf: Seq<Word16>,
    pub isf_previous: Seq<Word16>,
    pub comfort_noise: bool,
    pub vad_history: i16,
}

/// Everything one subframe's synthesis and high band needs.
#[derive(Debug, Clone, Copy)]
pub struct SynthesisInputs<'a> {
    /// The predictor for this subframe.
    pub a: &'a [Word16; 17],
    /// The excitation to drive it with.
    pub excitation: &'a [Word16; L_SUBFR],
    /// Its scaling.
    pub q_new: i16,
    /// Which subframe, for the interpolation of the spectrum at the lowest
    /// rate.
    pub subframe: usize,
    /// The frame's bit budget, which selects the high-band shaping.
    pub frame_bits: usize,
    /// The transmitted high-band gain index, where there is one to believe.
    pub hf_gain: Option<u16>,
    /// This frame's spectrum.
    pub isf: &'a [Word16; LP_ORDER],
    /// The previous frame's.
    pub isf_previous: &'a [Word16; LP_ORDER],
    /// Whether the excitation is comfort noise, whose high band is shaped by
    /// the order-16 filter at every rate and keeps the wide filter's tail.
    pub comfort_noise: bool,
    /// Frames since the encoder last saw voice activity.
    pub vad_history: i16,
}

impl<'a> SynthesisInputs<'a> {
    /// The inputs as plain values.
    pub open spec fn view(self) -> SynthesisView {
        SynthesisView {
            a: self.a@,
            excitation: self.excitation@,
            q_new: self.q_new,
            subframe: self.subframe as int,
            frame_bits: self.frame_bits as int,
            hf_gain: self.hf_gain,
            isf: self.isf@,
            isf_previous: self.isf_previous@,
            comfort_noise: self.comfort_noise,
            vad_history: self.vad_history,
        }
    }
}

/// What is carried from subframe to subframe, as plain values.
pub struct OutputView {
    /// The synthesis filter's memory, in two words.
    pub syn_high: Seq<Word16>,
    pub syn_low: Seq<Word16>,
    /// The last de-emphasised sample.
    pub deemph: Word16,
    /// The output high-pass.
    pub output: Section,
    /// The interpolator's memory.
    pub upsampler: Seq<Word16>,
    /// The last sample of the high band's generator.
    pub seed: Word16,
    /// The tilt's high-pass.
    pub tilt: Section,
    /// The memory of the high band's shaping filter.
    pub shaper: Seq<Word16>,
    /// The memory of the 6 to 7 kHz band-pass.
    pub band: Seq<Word16>,
    /// The memory of the 7 kHz low-pass.
    pub low: Seq<Word16>,
}

/// The state before anything was decoded.
pub open spec fn output_reset() -> OutputView {
    OutputView {
        syn_high: Seq::new(16, |i: int| Word16(0)),
        syn_low: Seq::new(16, |i: int| Word16(0)),
        deemph: Word16(0),
        output: silent_section(),
        upsampler: Seq::new(24, |i: int| Word16(0)),
        seed: Word16(21845),
        tilt: silent_section(),
        shaper: Seq::new(20, |i: int| Word16(0)),
        band: Seq::new(30, |i: int| Word16(0)),
        low: Seq::new(30, |i: int| Word16(0)),
    }
}

// ---------------------------------------------------------------------------
// The low band
// ---------------------------------------------------------------------------

/// The synthesis filter's run, memory first.
pub open spec fn filter_run(v: OutputView, s: SynthesisView) -> (Seq<Word16>, Seq<Word16>) {
    synthesis_run(v.syn_high, v.syn_low, s.a, s.excitation, s.q_new, 64)
}

/// The de-emphasised speech.
pub open spec fn plain_speech(v: OutputView, s: SynthesisView) -> Seq<Word16> {
    let run = filter_run(v, s);
    deemphasis_of(run.0.subrange(16, 80), run.1.subrange(16, 80), PREEMPH_FAC, v.deemph)
}

/// The speech above 50 Hz.
#[verifier::opaque]
pub open spec fn low_speech(v: OutputView, s: SynthesisView) -> Seq<Word16> {
    sectioned(v.output, high_pass_50(), 1, plain_speech(v, s))
}

/// The tilt of the speech above 400 Hz.
pub open spec fn speech_tilt(v: OutputView, s: SynthesisView) -> Word16 {
    tilt_of(sectioned(v.tilt, high_pass_400(), 0, low_speech(v, s)))
}

/// The filters after the low band.
#[verifier::opaque]
pub open spec fn low_after(v: OutputView, s: SynthesisView) -> OutputView {
    let run = filter_run(v, s);
    OutputView {
        syn_high: run.0.subrange(64, 80),
        syn_low: run.1.subrange(64, 80),
        deemph: plain_speech(v, s)[63],
        output: section_after(v.output, high_pass_50(), plain_speech(v, s), 64),
        upsampler: low_speech(v, s).skip(40),
        tilt: section_after(v.tilt, high_pass_400(), low_speech(v, s), 64),
        ..v
    }
}

// ---------------------------------------------------------------------------
// The high band
// ---------------------------------------------------------------------------

/// The gain on one sample of the noise: what was sent, doubled, or what the
/// tilt suggests.
pub open spec fn weighed(n: Word16, hf_gain: Option<u16>, tilt: Word16, vad_history: i16) -> Word16 {
    match hf_gain {
        Some(index) => shl(mult(n, Word16(HP_GAIN@[index as int])), 1),
        None => mult(n, tilt_gain(tilt, vad_history)),
    }
}

/// Noise at the energy of the excitation, weighed.
#[verifier::opaque]
pub open spec fn band_source(seed: Word16, s: SynthesisView, tilt: Word16) -> Seq<Word16> {
    let noise = matched(scaled_seq(s.excitation, -3i16), band_noise(seed), (s.q_new - 3) as i16);
    Seq::new(80, |i: int| weighed(noise[i], s.hf_gain, tilt, s.vad_history))
}

/// Whether the high band is shaped by the continued spectrum.
pub open spec fn is_wide(s: SynthesisView) -> bool {
    s.frame_bits <= 132 && !s.comfort_noise
}

/// The predictor of the continued spectrum.
pub open spec fn wide_taps(s: SynthesisView) -> Seq<Word16> {
    lp_of(isp_of(wide_isf(between(s.isf_previous, s.isf, s.subframe))), false)
}

/// The shaping filter's memory with the wide filter's tail cleared, unless
/// comfort noise is playing.
pub open spec fn shaper_start(memory: Seq<Word16>, s: SynthesisView) -> Seq<Word16> {
    if s.comfort_noise {
        memory
    } else {
        Seq::new(4, |i: int| Word16(0)) + memory.skip(4)
    }
}

/// The shaped noise.
#[verifier::opaque]
pub open spec fn band_shaped(memory: Seq<Word16>, s: SynthesisView, noise: Seq<Word16>) -> Seq<
    Word16,
> {
    if is_wide(s) {
        synthesised_signal(weighted_taps(wide_taps(s), Word16(29491)), memory, noise)
    } else {
        shaped(shaper_start(memory, s), s.a, noise)
    }
}

/// The shaping filter's memory afterwards.
#[verifier::opaque]
pub open spec fn shaper_after(memory: Seq<Word16>, s: SynthesisView, noise: Seq<Word16>) -> Seq<
    Word16,
> {
    if is_wide(s) {
        synthesised_memory(weighted_taps(wide_taps(s), Word16(29491)), memory, noise)
    } else {
        shaped_memory(shaper_start(memory, s), s.a, noise)
    }
}

/// The high band.
pub open spec fn high_band(v: OutputView, s: SynthesisView) -> Seq<Word16> {
    let noise = band_source(v.seed, s, speech_tilt(v, s));
    let band = band_filtered(v.band, true, band_shaped(v.shaper, s, noise));
    if s.frame_bits >= 477 {
        band_filtered(v.low, false, band)
    } else {
        band
    }
}

/// The state after a subframe.
#[verifier::opaque]
pub open spec fn output_after(v: OutputView, s: SynthesisView) -> OutputView {
    let noise = band_source(v.seed, s, speech_tilt(v, s));
    let shape = band_shaped(v.shaper, s, noise);
    OutputView {
        seed: drawn(v.seed, 80),
        shaper: shaper_after(v.shaper, s, noise),
        band: band_memory(true, shape),
        low: if s.frame_bits >= 477 {
            band_memory(false, band_filtered(v.band, true, shape))
        } else {
            v.low
        },
        ..low_after(v, s)
    }
}

/// A subframe at 16 kHz: the low band and the high band together.
#[verifier::opaque]
pub open spec fn output_of(v: OutputView, up_taps: Seq<i16>, s: SynthesisView) -> Seq<Word16> {
    let low = upsampled(v.upsampler, up_taps, low_speech(v, s));
    let high = high_band(v, s);
    Seq::new(80, |i: int| add_s(low[i], high[i]))
}

// ---------------------------------------------------------------------------
// Execution
// ---------------------------------------------------------------------------

/// The filters and the generator between the excitation and the output.
#[derive(Debug, Clone, Copy)]
pub struct OutputStage {
    synthesis: SynthesisFilter,
    deemph_memory: Word16,
    high_pass: HighPass50,
    upsampler: Upsampler,
    noise: NoiseGenerator,
    tilt_filter: TiltFilter,
    shaper: NoiseShaper,
    band_pass: BandFilter,
    low_pass_7k: BandFilter,
}

impl OutputStage {
    /// The state as plain values.
    pub closed spec fn view(&self) -> OutputView {
        OutputView {
            syn_high: self.synthesis.high@,
            syn_low: self.synthesis.low@,
            deemph: self.deemph_memory,
            output: self.high_pass.memory,
            upsampler: self.upsampler.memory@,
            seed: self.noise.seed,
            tilt: self.tilt_filter.memory,
            shaper: self.shaper.memory@,
            band: self.band_pass.memory@,
            low: self.low_pass_7k.memory@,
        }
    }

    /// The invariant.
    pub closed spec fn wf(&self) -> bool {
        self.band_pass.band && !self.low_pass_7k.band
    }

    /// A stage in its reset state.
    #[must_use]
    pub fn new() -> (o: Self)
        ensures
            o.wf(),
            o@ == output_reset(),
    {
        OutputStage {
            synthesis: SynthesisFilter::new(),
            deemph_memory: Word16(0),
            high_pass: HighPass50::new(),
            upsampler: Upsampler::new(),
            noise: NoiseGenerator::new(),
            tilt_filter: TiltFilter::new(),
            shaper: NoiseShaper::new(),
            band_pass: BandFilter::band_pass(),
            low_pass_7k: BandFilter::low_pass_7k(),
        }
    }

    /// The low band: speech at 16 kHz, and its tilt.
    fn low_band(&mut self, up_taps: &[i16; 120], s: &SynthesisInputs<'_>) -> (r: (
        [Word16; L_SUBFR16K],
        Word16,
    ))
        requires
            old(self).wf(),
        ensures
            final(self).wf(),
            final(self)@ == low_after(old(self)@, s@),
            r.0@ == upsampled(old(self)@.upsampler, up_taps@, low_speech(old(self)@, s@)),
            r.1 == speech_tilt(old(self)@, s@),
    {
        proof {
            reveal(low_speech);
            reveal(low_after);
        }
        let (high, low) = self.synthesis.filter(s.a, s.excitation, s.q_new);
        let mut speech = deemphasis(&high, &low, PREEMPH_FAC, &mut self.deemph_memory);
        self.high_pass.filter(&mut speech);
        let up = self.upsampler.process(up_taps, &speech);
        let tilt = spectral_tilt(&mut self.tilt_filter, &mut speech);
        (up, tilt)
    }

    /// Noise at the energy of the excitation, weighed.
    fn source(&mut self, s: &SynthesisInputs<'_>, tilt: Word16) -> (noise: [Word16; L_SUBFR16K])
        requires
            old(self).wf(),
            s.q_new >= -32765,
            s.hf_gain is Some ==> s.hf_gain->0 < 16,
        ensures
            final(self).wf(),
            final(self)@ == (OutputView { seed: drawn(old(self)@.seed, 80), ..old(self)@ }),
            noise@ == band_source(old(self)@.seed, s@, tilt),
    {
        proof {
            reveal(band_source);
        }
        let mut ctx = DspContext::default();
        let mut noise = fill(&mut ctx, &mut self.noise);
        let mut energy_source = *s.excitation;
        scale_sig(&mut energy_source, -3);
        match_energy(&energy_source, &mut noise, s.q_new - 3);
        let ghost level = noise@;
        let (gain, double) = match s.hf_gain {
            Some(index) => (transmitted_gain(index), true),
            None => (gain_from_tilt(tilt, s.vad_history), false),
        };
        for i in 0..L_SUBFR16K
            invariant
                level.len() == 80,
                s.hf_gain is Some ==> double && gain == Word16(HP_GAIN@[s.hf_gain->0 as int]),
                s.hf_gain is None ==> !double && gain == tilt_gain(tilt, s.vad_history),
                forall|j: int|
                    0 <= j < i ==> #[trigger] noise@[j] == weighed(
                        level[j],
                        s.hf_gain,
                        tilt,
                        s.vad_history,
                    ),
                forall|j: int| i <= j < 80 ==> #[trigger] noise@[j] == level[j],
        {
            let scaled = mult(noise[i], gain);
            noise[i] = if double {
                shl(scaled, 1)
            } else {
                scaled
            };
        }
        assert(noise@ =~= band_source(old(self)@.seed, s@, tilt));
        noise
    }

    /// Shape the noise by this subframe's spectrum.
    fn shape(&mut self, s: &SynthesisInputs<'_>, noise: &mut [Word16; L_SUBFR16K])
        requires
            old(self).wf(),
            s.subframe < 4,
        ensures
            final(self).wf(),
            final(self)@ == (OutputView {
                shaper: shaper_after(old(self)@.shaper, s@, old(noise)@),
                ..old(self)@
            }),
            final(noise)@ == band_shaped(old(self)@.shaper, s@, old(noise)@),
    {
        proof {
            reveal(shaper_after);
            reveal(band_shaped);
        }
        if s.frame_bits <= 132 && !s.comfort_noise {
            let isf = interpolate_isf(s.isf_previous, s.isf, s.subframe);
            let isp = extrapolate_isf(&isf);
            let mut a: [Word16; 21] = [Word16(0); 21];
            isp_to_lp_order(&isp, false, &mut a);
            self.shaper.shape_wide(&a, noise);
        } else {
            if !s.comfort_noise {
                self.shaper.clear_wide_tail();
            }
            self.shaper.shape(s.a, noise);
        }
    }

    /// Synthesise one subframe and add its high band.
    pub fn synthesise(&mut self, up_taps: &[i16; 120], s: &SynthesisInputs<'_>) -> (out: [Word16;
        L_SUBFR16K])
        requires
            old(self).wf(),
            s.subframe < 4,
            s.q_new >= -32765,
            s.hf_gain is Some ==> s.hf_gain->0 < 16,
        ensures
            final(self).wf(),
            final(self)@ == output_after(old(self)@, s@),
            out@ == output_of(old(self)@, up_taps@, s@),
    {
        let ghost start = self@;
        let (low, tilt) = self.low_band(up_taps, s);
        proof {
            reveal(output_after);
            reveal(output_of);
            reveal(low_after);
        }
        let mut high = self.source(s, tilt);
        self.shape(s, &mut high);
        self.band_pass.filter(&mut high);
        if s.frame_bits >= 477 {
            self.low_pass_7k.filter(&mut high);
        }
        assert(high@ == high_band(start, s@));
        let mut out: [Word16; L_SUBFR16K] = [Word16(0); L_SUBFR16K];
        for i in 0..L_SUBFR16K
            invariant
                forall|j: int| 0 <= j < i ==> #[trigger] out@[j] == add_s(low@[j], high@[j]),
        {
            out[i] = add_s(low[i], high[i]);
        }
        assert(out@ =~= output_of(start, up_taps@, s@));
        out
    }
}

/// Every subframe draws the same amount of noise, so speech and comfort noise
/// share one sequence.
pub proof fn law_high_band_draws_alike(v: OutputView, s: SynthesisView)
    ensures
        output_after(v, s).seed == drawn(v.seed, 80),
{
    reveal(output_after);
}

/// Comfort noise takes the same output at the lowest rate as at the next: it
/// is never shaped by the continued spectrum.
pub proof fn law_comfort_noise_is_never_wide(
    v: OutputView,
    up_taps: Seq<i16>,
    s: SynthesisView,
    frame_bits: int,
)
    requires
        s.comfort_noise,
        s.frame_bits < 477,
        frame_bits < 477,
    ensures
        output_of(v, up_taps, s) == output_of(v, up_taps, SynthesisView { frame_bits, ..s }),
        output_after(v, s) == output_after(v, SynthesisView { frame_bits, ..s }),
{
    reveal(output_of);
    reveal(output_after);
    reveal(low_after);
    reveal(low_speech);
    reveal(band_source);
    reveal(band_shaped);
    reveal(shaper_after);
}

/// The output is the sum of the two bands: what is left when the low band is
/// taken out of it is the high band, wherever the sum fits a word, and a sum
/// that does not fit stops at the end it passed. A silent band leaves the other
/// one as it is.
pub proof fn law_output_adds_the_two_bands(
    v: OutputView,
    up_taps: Seq<i16>,
    s: SynthesisView,
    i: int,
)
    requires
        0 <= i < 80,
    ensures
        ({
            let low = upsampled(v.upsampler, up_taps, low_speech(v, s))[i].0;
            let high = high_band(v, s)[i].0;
            let out = output_of(v, up_taps, s)[i].0;
            &&& -32768 <= low + high <= 32767 ==> out - low == high
            &&& low + high > 32767 ==> out == 32767
            &&& low + high < -32768 ==> out == -32768
            &&& high == 0 ==> out == low
            &&& low == 0 ==> out == high
        }),
{
    reveal(output_of);
    reveal(crate::fixed_point::spec_add_s);
}

/// Every filter carries the newest of its signal into the next subframe.
pub proof fn law_filters_carry_the_newest(v: OutputView, s: SynthesisView, i: int)
    requires
        v.syn_high.len() == 16,
        v.syn_low.len() == 16,
        0 <= i < 16,
    ensures
        ({
            let w = output_after(v, s);
            let run = filter_run(v, s);
            &&& w.syn_high[i] == run.0[64 + i]
            &&& w.syn_low[i] == run.1[64 + i]
            &&& w.deemph == plain_speech(v, s)[63]
            &&& w.upsampler[8 + i] == low_speech(v, s)[48 + i]
            &&& w.seed == drawn(v.seed, 80)
        }),
{
    reveal(output_after);
    reveal(low_after);
    reveal(low_speech);
    lemma_run_length(v, s, 64);
}

proof fn lemma_run_length(v: OutputView, s: SynthesisView, n: int)
    requires
        0 <= n,
    ensures
        synthesis_run(v.syn_high, v.syn_low, s.a, s.excitation, s.q_new, n).0.len()
            == v.syn_high.len() + n,
        synthesis_run(v.syn_high, v.syn_low, s.a, s.excitation, s.q_new, n).1.len()
            == v.syn_low.len() + n,
    decreases n,
{
    if n > 0 {
        lemma_run_length(v, s, n - 1);
    }
}

} // verus!
