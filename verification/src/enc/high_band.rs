//! The band that the top rate spends four bits per subframe on.
//!
//! Nothing is transmitted about it but a gain correction: the decoder builds
//! the band from noise shaped by the low band's predictor, and this analysis
//! measures how far that lands from the input. So the encoder runs the
//! decoder's whole chain before it has anything to compare.

use vstd::prelude::*;
use crate::fixed_point::{
    add_s, extract_h, l_add, l_deposit_h, l_extract, l_mac, l_msu, l_mult, l_shl, lemma_l_mac,
    lemma_l_shl, lemma_round, mpy_32_16, mult, round, shr, sub_s, DspContext, Word16, Word32,
};
use crate::highband::{
    band_filtered, band_memory, band_noise, energy_of, energy_ratio, energy_ratio_of, fill,
    gain_from_tilt, high_pass_400, law_ratio_follows_its_target, law_silence_gets_no_gain,
    match_energy, matched, shaped, shaped_memory, spectral_tilt, tilt_gain, tilt_of,
    transmitted_gain, BandFilter, HP_GAIN, L_SUBFR16K, NoiseShaper, TiltFilter,
};
use crate::math::{scale_sig, scaled_seq};
use crate::noise::{drawn, NoiseGenerator};
use crate::synthesis::{
    deemphasis, deemphasis_of, high_pass_50, section_after, sectioned, silent_section,
    synthesis_run, HighPass50, Section, SynthesisFilter, L_SUBFR, PREEMPH_FAC,
};

verus! {

/// Everything the excitation enhancement reads.
pub struct EnhancementInputs<'a> {
    /// The adaptive contribution.
    pub adaptive: &'a [Word16; L_SUBFR],
    /// The codeword.
    pub code: &'a [Word16; L_SUBFR],
    /// The code gain, Q16.
    pub l_gain_code: Word32,
    /// The pitch gain, Q14.
    pub gain_pit: Word16,
    /// The voicing, Q15.
    pub voice_fac: Word16,
    /// The spectrum's stability, Q15.
    pub stab_fac: Word16,
    /// The scaling of the excitation.
    pub q_new: i16,
}

/// What the excitation enhancement reads, as plain values.
pub struct EnhancementView {
    pub adaptive: Seq<Word16>,
    pub code: Seq<Word16>,
    pub l_gain_code: Word32,
    pub gain_pit: Word16,
    pub voice_fac: Word16,
    pub stab_fac: Word16,
    pub q_new: i16,
}

impl<'a> EnhancementInputs<'a> {
    /// The inputs as plain values.
    pub open spec fn view(self) -> EnhancementView {
        EnhancementView {
            adaptive: self.adaptive@,
            code: self.code@,
            l_gain_code: self.l_gain_code,
            gain_pit: self.gain_pit,
            voice_fac: self.voice_fac,
            stab_fac: self.stab_fac,
            q_new: self.q_new,
        }
    }
}

/// The slow threshold after a subframe's gain: 1.5 dB towards it, from
/// whichever side it is on.
#[verifier::opaque]
pub open spec fn moved_threshold(gain: Word32, threshold: Word32) -> Word32 {
    let (hi, lo) = l_extract(gain);
    if gain.0 < threshold.0 {
        let raised = l_add(gain, mpy_32_16(hi, lo, Word16(6226)));
        if raised.0 > threshold.0 {
            threshold
        } else {
            raised
        }
    } else {
        let lowered = mpy_32_16(hi, lo, Word16(27536));
        if lowered.0 < threshold.0 {
            threshold
        } else {
            lowered
        }
    }
}

/// The code gain pulled towards the threshold: the more, the less voiced and
/// the more stable the subframe is.
#[verifier::opaque]
pub open spec fn smoothed_gain(
    gain: Word32,
    threshold: Word32,
    voice_fac: Word16,
    stab_fac: Word16,
) -> Word32 {
    let fac = mult(stab_fac, sub_s(Word16(16384), shr(voice_fac, 1)));
    let (hi, lo) = l_extract(gain);
    let (t_hi, t_lo) = l_extract(threshold);
    l_add(
        mpy_32_16(hi, lo, sub_s(Word16(32767), fac)),
        mpy_32_16(t_hi, t_lo, fac),
    )
}

/// Sample `i` of a codeword through a high-pass as strong as the voicing.
pub open spec fn sharpened_at(code: Seq<Word16>, voice_fac: Word16, i: int) -> Word16 {
    let tap = add_s(shr(voice_fac, 3), Word16(4096));
    if i == 0 {
        round(l_msu(l_deposit_h(code[0]), code[1], tap))
    } else if i == code.len() - 1 {
        round(l_msu(l_deposit_h(code[i]), code[i - 1], tap))
    } else {
        round(l_msu(l_msu(l_deposit_h(code[i]), code[i + 1], tap), code[i - 1], tap))
    }
}

/// A codeword through a high-pass as strong as the voicing.
pub open spec fn sharpened_code(code: Seq<Word16>, voice_fac: Word16) -> Seq<Word16> {
    Seq::new(64, |i: int| sharpened_at(code, voice_fac, i))
}

/// One sample of an excitation: the codeword at its gain over the adaptive
/// contribution at its own.
pub open spec fn excited(code: Word16, gain_code: Word16, adaptive: Word16, gain_pit: Word16) -> Word16 {
    round(l_shl(l_mac(l_shl(l_mult(code, gain_code), 5), adaptive, gain_pit), 1))
}

/// The excitation that a codeword and an adaptive contribution make.
pub open spec fn excitation_of(
    code: Seq<Word16>,
    gain_code: Word16,
    adaptive: Seq<Word16>,
    gain_pit: Word16,
) -> Seq<Word16> {
    Seq::new(64, |i: int| excited(code[i], gain_code, adaptive[i], gain_pit))
}

/// The excitation that the high band is driven from.
pub open spec fn enhanced(inputs: EnhancementView, threshold: Word32) -> Seq<Word16> {
    let gain = smoothed_gain(inputs.l_gain_code, threshold, inputs.voice_fac, inputs.stab_fac);
    excitation_of(
        sharpened_code(inputs.code, inputs.voice_fac),
        round(l_shl(gain, inputs.q_new)),
        inputs.adaptive,
        inputs.gain_pit,
    )
}

/// The high band's state as plain values.
pub struct HighBandView {
    /// The low band's synthesis filter.
    pub syn_high: Seq<Word16>,
    pub syn_low: Seq<Word16>,
    /// Its de-emphasis.
    pub deemph: Word16,
    /// The high-pass on the synthesised low band.
    pub output: Section,
    /// The noise generator.
    pub seed: Word16,
    /// The noise-shaping filter.
    pub shaper: Seq<Word16>,
    /// The band-pass on the noise, and the same on the input.
    pub band_noise: Seq<Word16>,
    pub band_reference: Seq<Word16>,
    /// The filter that the tilt is measured through.
    pub tilt: Section,
    /// The slow threshold of the gain smoothing.
    pub threshold: Word32,
    /// How far to trust the measured gain over the estimated one.
    pub alpha: Word16,
}

/// The state out of reset.
pub open spec fn high_band_reset() -> HighBandView {
    HighBandView {
        syn_high: Seq::new(16, |i: int| Word16(0)),
        syn_low: Seq::new(16, |i: int| Word16(0)),
        deemph: Word16(0),
        output: silent_section(),
        seed: Word16(21845),
        shaper: Seq::new(20, |i: int| Word16(0)),
        band_noise: Seq::new(30, |i: int| Word16(0)),
        band_reference: Seq::new(30, |i: int| Word16(0)),
        tilt: silent_section(),
        threshold: Word32(0),
        alpha: Word16(32767),
    }
}

/// The synthesised low band, de-emphasised.
pub open spec fn low_band(v: HighBandView, aq: Seq<Word16>, x: Seq<Word16>, q_new: i16) -> Seq<
    Word16,
> {
    let run = synthesis_run(v.syn_high, v.syn_low, aq, x, q_new, 64);
    deemphasis_of(run.0.subrange(16, 80), run.1.subrange(16, 80), PREEMPH_FAC, v.deemph)
}

/// The synthesised low band behind its high-pass.
pub open spec fn low_band_output(v: HighBandView, aq: Seq<Word16>, x: Seq<Word16>, q_new: i16) -> Seq<
    Word16,
> {
    sectioned(v.output, high_pass_50(), 1, low_band(v, aq, x, q_new))
}

/// The low band as the tilt is measured on it.
pub open spec fn tilted_band(v: HighBandView, aq: Seq<Word16>, x: Seq<Word16>, q_new: i16) -> Seq<
    Word16,
> {
    sectioned(v.tilt, high_pass_400(), 0, low_band_output(v, aq, x, q_new))
}

/// The noise at the excitation's energy.
pub open spec fn excited_noise(v: HighBandView, x: Seq<Word16>, q_new: i16) -> Seq<Word16> {
    matched(scaled_seq(x, -3i16), band_noise(v.seed), (q_new - 3) as i16)
}

/// The noise as the decoder will shape it.
pub open spec fn decoder_noise(v: HighBandView, aq: Seq<Word16>, x: Seq<Word16>, q_new: i16) -> Seq<
    Word16,
> {
    band_filtered(v.band_noise, true, shaped(v.shaper, aq, excited_noise(v, x, q_new)))
}

/// The gain that would be right, from the input.
pub open spec fn measured_gain(
    v: HighBandView,
    aq: Seq<Word16>,
    x: Seq<Word16>,
    q_new: i16,
    reference: Seq<Word16>,
) -> Word16 {
    energy_ratio_of(
        scaled_seq(band_filtered(v.band_reference, true, reference), -1i16),
        decoder_noise(v, aq, x, q_new),
    )
}

/// The trust in the measurement after a subframe: full outside a hangover,
/// decaying through one.
pub open spec fn next_alpha(alpha: Word16, hangover: Word16) -> Word16 {
    if hangover.0 > 6 {
        Word16(32767)
    } else {
        mult(alpha, extract_h(l_shl(l_mult(hangover, Word16(4681)), 15)))
    }
}

/// The gain correction before it is quantised, Q14.
pub open spec fn corrected_gain(measured: Word16, estimated: Word16, alpha: Word16) -> Word16 {
    add_s(
        mult(measured, alpha),
        mult(sub_s(Word16(32767), alpha), shr(estimated, 1)),
    )
}

/// The nearest of the first `n` transmitted gains, with its distance; a tie
/// keeps the lower index.
pub open spec fn nearest_gain(gain: Word16, n: int) -> (int, Word16)
    decreases n,
{
    if n <= 0 {
        (0, Word16(32767))
    } else {
        let best = nearest_gain(gain, n - 1);
        let delta = sub_s(gain, Word16(HP_GAIN@[n - 1]));
        let distance = mult(delta, delta);
        if best.1.0 > distance.0 {
            (n - 1, distance)
        } else {
            best
        }
    }
}

/// The state after a subframe has been analysed.
#[verifier::opaque]
pub open spec fn analysed_band(
    v: HighBandView,
    aq: Seq<Word16>,
    x: Seq<Word16>,
    q_new: i16,
    reference: Seq<Word16>,
    hangover: Word16,
) -> HighBandView {
    let run = synthesis_run(v.syn_high, v.syn_low, aq, x, q_new, 64);
    let noise = excited_noise(v, x, q_new);
    HighBandView {
        syn_high: run.0.subrange(64, 80),
        syn_low: run.1.subrange(64, 80),
        deemph: low_band(v, aq, x, q_new)[63],
        output: section_after(v.output, high_pass_50(), low_band(v, aq, x, q_new), 64),
        seed: drawn(v.seed, 80),
        shaper: shaped_memory(v.shaper, aq, noise),
        band_noise: band_memory(true, shaped(v.shaper, aq, noise)),
        band_reference: band_memory(true, reference),
        tilt: section_after(v.tilt, high_pass_400(), low_band_output(v, aq, x, q_new), 64),
        threshold: v.threshold,
        alpha: next_alpha(v.alpha, hangover),
    }
}

/// The transmitted index of a subframe.
#[verifier::opaque]
pub open spec fn band_index(
    v: HighBandView,
    aq: Seq<Word16>,
    x: Seq<Word16>,
    q_new: i16,
    reference: Seq<Word16>,
    vad_hist: i16,
    hangover: Word16,
) -> int {
    let estimated = tilt_gain(tilt_of(tilted_band(v, aq, x, q_new)), vad_hist);
    let corrected = corrected_gain(
        measured_gain(v, aq, x, q_new, reference),
        estimated,
        next_alpha(v.alpha, hangover),
    );
    nearest_gain(corrected, 16).0
}

/// The excitation as the listener gets it.
///
/// Two enhancements that the transmitted excitation does not get: the code
/// gain is pulled towards a slow threshold, and the codeword is high-passed in
/// proportion to the voicing.
pub fn enhance(inputs: &EnhancementInputs<'_>, threshold: &mut Word32) -> (out: [Word16; L_SUBFR])
    ensures
        *final(threshold) == moved_threshold(inputs.l_gain_code, *old(threshold)),
        out@ == enhanced(inputs@, *final(threshold)),
{
    proof {
        reveal(moved_threshold);
        reveal(smoothed_gain);
    }
    let gain = inputs.l_gain_code;
    let (gain_hi, gain_lo) = l_extract(gain);
    let unvoiced = sub_s(Word16(16384), shr(inputs.voice_fac, 1));
    let fac = mult(inputs.stab_fac, unvoiced);
    let moved = if gain.0 < threshold.0 {
        let raised = l_add(gain, mpy_32_16(gain_hi, gain_lo, Word16(6226)));
        if raised.0 > threshold.0 {
            *threshold
        } else {
            raised
        }
    } else {
        let lowered = mpy_32_16(gain_hi, gain_lo, Word16(27536));
        if lowered.0 < threshold.0 {
            *threshold
        } else {
            lowered
        }
    };
    *threshold = moved;
    let kept = mpy_32_16(gain_hi, gain_lo, sub_s(Word16(32767), fac));
    let (threshold_hi, threshold_lo) = l_extract(moved);
    let smoothed = l_add(kept, mpy_32_16(threshold_hi, threshold_lo, fac));
    let tap = add_s(shr(inputs.voice_fac, 3), Word16(4096));
    let code = inputs.code;
    let gain_code = round(l_shl(smoothed, inputs.q_new));
    let mut out: [Word16; L_SUBFR] = [Word16(0); L_SUBFR];
    for i in 0..L_SUBFR
        invariant
            code == inputs.code,
            tap == add_s(shr(inputs.voice_fac, 3), Word16(4096)),
            forall|j: int|
                0 <= j < i ==> #[trigger] out@[j] == excited(
                    sharpened_at(inputs.code@, inputs.voice_fac, j),
                    gain_code,
                    inputs.adaptive@[j],
                    inputs.gain_pit,
                ),
    {
        let sharp = if i == 0 {
            round(l_msu(l_deposit_h(code[0]), code[1], tap))
        } else if i == L_SUBFR - 1 {
            round(l_msu(l_deposit_h(code[i]), code[i - 1], tap))
        } else {
            round(l_msu(l_msu(l_deposit_h(code[i]), code[i + 1], tap), code[i - 1], tap))
        };
        let acc = l_mac(l_shl(l_mult(sharp, gain_code), 5), inputs.adaptive[i], inputs.gain_pit);
        out[i] = round(l_shl(acc, 1));
    }
    assert(out@ =~= enhanced(inputs@, moved));
    out
}

/// The high band's own filter memories.
#[derive(Clone, Copy, Debug)]
pub struct HighBand {
    synthesis: SynthesisFilter,
    deemph_memory: Word16,
    output_highpass: HighPass50,
    noise: NoiseGenerator,
    shaper: NoiseShaper,
    band_noise: BandFilter,
    band_reference: BandFilter,
    tilt: TiltFilter,
    gc_threshold: Word32,
    gain_alpha: Word16,
}

impl HighBand {
    /// The state as plain values.
    pub closed spec fn view(&self) -> HighBandView {
        HighBandView {
            syn_high: self.synthesis.high@,
            syn_low: self.synthesis.low@,
            deemph: self.deemph_memory,
            output: self.output_highpass.memory,
            seed: self.noise.seed,
            shaper: self.shaper.memory@,
            band_noise: self.band_noise.memory@,
            band_reference: self.band_reference.memory@,
            tilt: self.tilt.memory,
            threshold: self.gc_threshold,
            alpha: self.gain_alpha,
        }
    }

    /// Both band filters are band-passes.
    pub closed spec fn wf(&self) -> bool {
        self.band_noise.band && self.band_reference.band
    }

    /// The reset state.
    #[must_use]
    pub fn new() -> (h: Self)
        ensures
            h.wf(),
            h.view() == high_band_reset(),
    {
        HighBand {
            synthesis: SynthesisFilter::new(),
            deemph_memory: Word16(0),
            output_highpass: HighPass50::new(),
            noise: NoiseGenerator::new(),
            shaper: NoiseShaper::new(),
            band_noise: BandFilter::band_pass(),
            band_reference: BandFilter::band_pass(),
            tilt: TiltFilter::new(),
            gc_threshold: Word32(0),
            gain_alpha: Word16(32767),
        }
    }

    /// Clear the slow gain threshold: the only part of this state that a
    /// comfort-noise frame resets.
    pub fn reset_gain_threshold(&mut self)
        requires
            old(self).wf(),
        ensures
            final(self).wf(),
            final(self).view() == (HighBandView { threshold: Word32(0), ..old(self).view() }),
    {
        self.gc_threshold = Word32(0);
    }

    /// The excitation that the high band is driven from.
    ///
    /// Two enhancements that the transmitted excitation does not get: the code
    /// gain is pulled towards a slow threshold, and the codeword is high-passed
    /// in proportion to the voicing.
    pub fn enhanced_excitation(&mut self, inputs: &EnhancementInputs<'_>) -> (out: [Word16; L_SUBFR])
        requires
            old(self).wf(),
        ensures
            final(self).wf(),
            ({
                let threshold = moved_threshold(inputs.l_gain_code, old(self).view().threshold);
                &&& out@ == enhanced(inputs@, threshold)
                &&& final(self).view() == (HighBandView { threshold, ..old(self).view() })
            }),
    {
        enhance(inputs, &mut self.gc_threshold)
    }

    /// Synthesise the high band that the decoder will build, and code the gain
    /// correction that brings it onto the input.
    ///
    /// `reference` is the unprocessed 16 kHz input of this subframe.
    pub fn analyse(
        &mut self,
        ctx: &mut DspContext,
        aq: &[Word16; 17],
        excitation: &[Word16; L_SUBFR],
        q_new: i16,
        reference: &[Word16; L_SUBFR16K],
        vad_hist: i16,
        dtx_hangover: Word16,
    ) -> (index: u16)
        requires
            old(self).wf(),
            q_new >= -32765,
        ensures
            final(self).wf(),
            index < 16,
            index == band_index(
                old(self).view(),
                aq@,
                excitation@,
                q_new,
                reference@,
                vad_hist,
                dtx_hangover,
            ),
            final(self).view() == analysed_band(
                old(self).view(),
                aq@,
                excitation@,
                q_new,
                reference@,
                dtx_hangover,
            ),
    {
        proof {
            reveal(analysed_band);
            reveal(band_index);
        }
        let (high, low) = self.synthesis.filter(aq, excitation, q_new);
        let mut synth = deemphasis(&high, &low, PREEMPH_FAC, &mut self.deemph_memory);
        self.output_highpass.filter(&mut synth);
        let mut measured_band = *reference;
        let mut noise = fill(ctx, &mut self.noise);
        let mut scaled_excitation = *excitation;
        scale_sig(&mut scaled_excitation, -3);
        match_energy(&scaled_excitation, &mut noise, q_new - 3);
        let tilt = spectral_tilt(&mut self.tilt, &mut synth);
        let estimated = gain_from_tilt(tilt, vad_hist);
        self.shaper.shape(aq, &mut noise);
        self.band_noise.filter(&mut noise);
        self.band_reference.filter(&mut measured_band);
        scale_sig(&mut measured_band, -1);
        let measured = energy_ratio(&measured_band, &noise);
        // Outside a hangover the measurement is trusted in full; through one
        // the trust decays.
        let decayed = extract_h(l_shl(l_mult(dtx_hangover, Word16(4681)), 15));
        self.gain_alpha = mult(self.gain_alpha, decayed);
        if dtx_hangover.0 > 6 {
            self.gain_alpha = Word16(32767);
        }
        let corrected = add_s(
            mult(measured, self.gain_alpha),
            mult(sub_s(Word16(32767), self.gain_alpha), shr(estimated, 1)),
        );
        quantise_gain(corrected)
    }
}

/// The nearest transmitted gain.
fn quantise_gain(gain: Word16) -> (index: u16)
    ensures
        index == nearest_gain(gain, 16).0,
        index < 16,
{
    let mut best: u16 = 0;
    let mut best_distance = Word16(32767);
    for index in 0..16u16
        invariant
            best < 16,
            (best as int, best_distance) == nearest_gain(gain, index as int),
    {
        let delta = sub_s(gain, transmitted_gain(index));
        let distance = mult(delta, delta);
        if best_distance.0 > distance.0 {
            best_distance = distance;
            best = index;
        }
    }
    best
}

/// With the hangover counter above six the measured gain alone is coded, up to
/// the last bit of the product: the estimate from the tilt has no weight, so
/// that neither the index nor the state that is left depends on how long the
/// detector has been quiet.
pub proof fn law_trust_is_full_outside_a_hangover(
    v: HighBandView,
    aq: Seq<Word16>,
    x: Seq<Word16>,
    q_new: i16,
    reference: Seq<Word16>,
    vad_hist: i16,
    other_vad_hist: i16,
    hangover: Word16,
)
    requires
        hangover.0 > 6,
    ensures
        band_index(v, aq, x, q_new, reference, vad_hist, hangover) == nearest_gain(
            mult(measured_gain(v, aq, x, q_new, reference), Word16(32767)),
            16,
        ).0,
        band_index(v, aq, x, q_new, reference, vad_hist, hangover) == band_index(
            v,
            aq,
            x,
            q_new,
            reference,
            other_vad_hist,
            hangover,
        ),
        0 <= band_index(v, aq, x, q_new, reference, vad_hist, hangover) < 16,
        analysed_band(v, aq, x, q_new, reference, hangover).alpha == Word16(32767),
{
    reveal(band_index);
    reveal(analysed_band);
    reveal(crate::fixed_point::spec_add_s);
    reveal(crate::fixed_point::spec_sub_s);
    reveal(crate::fixed_point::spec_mult);
    law_band_index_fits(v, aq, x, q_new, reference, vad_hist, hangover);
    let measured = measured_gain(v, aq, x, q_new, reference);
    let tilt = tilt_of(tilted_band(v, aq, x, q_new));
    let one = tilt_gain(tilt, vad_hist);
    let other = tilt_gain(tilt, other_vad_hist);
    assert(mult(Word16(0), shr(one, 1)) == Word16(0));
    assert(mult(Word16(0), shr(other, 1)) == Word16(0));
    assert(corrected_gain(measured, one, Word16(32767)) == mult(measured, Word16(32767)));
    assert(corrected_gain(measured, other, Word16(32767)) == mult(measured, Word16(32767)));
}

/// The nearest gain is one of those compared.
proof fn lemma_nearest_gain(gain: Word16, n: int)
    requires
        n >= 1,
    ensures
        0 <= nearest_gain(gain, n).0 < n,
    decreases n,
{
    reveal_with_fuel(nearest_gain, 2);
    if n > 1 {
        lemma_nearest_gain(gain, n - 1);
    }
}

/// Whatever is measured, the gain index fits its four bits.
pub proof fn law_band_index_fits(
    v: HighBandView,
    aq: Seq<Word16>,
    x: Seq<Word16>,
    q_new: i16,
    reference: Seq<Word16>,
    vad_hist: i16,
    hangover: Word16,
)
    ensures
        0 <= band_index(v, aq, x, q_new, reference, vad_hist, hangover) < 16,
{
    reveal(band_index);
    let estimated = tilt_gain(tilt_of(tilted_band(v, aq, x, q_new)), vad_hist);
    lemma_nearest_gain(
        corrected_gain(
            measured_gain(v, aq, x, q_new, reference),
            estimated,
            next_alpha(v.alpha, hangover),
        ),
        16,
    );
}

/// The input's own band from 6 to 7 kHz, as it is measured.
pub open spec fn input_band(v: HighBandView, reference: Seq<Word16>) -> Seq<Word16> {
    scaled_seq(band_filtered(v.band_reference, true, reference), -1i16)
}

/// The measured gain follows the input: against the same noise an input with
/// more energy in the band is never given less gain.
pub proof fn law_measured_gain_follows_the_input(
    v: HighBandView,
    aq: Seq<Word16>,
    x: Seq<Word16>,
    q_new: i16,
    reference: Seq<Word16>,
    louder: Seq<Word16>,
)
    requires
        energy_of(input_band(v, reference)) <= energy_of(input_band(v, louder)),
    ensures
        measured_gain(v, aq, x, q_new, reference).0 <= measured_gain(v, aq, x, q_new, louder).0,
{
    law_ratio_follows_its_target(
        input_band(v, reference),
        input_band(v, louder),
        decoder_noise(v, aq, x, q_new),
    );
}

/// The distance of a gain from a transmitted one, as the search weighs it.
proof fn lemma_gain_distance(gain: Word16, k: int)
    requires
        0 <= gain.0,
        0 <= k < 16,
    ensures
        ({
            let d = gain.0 - HP_GAIN@[k];
            &&& -32768 <= d <= 32767
            &&& mult(sub_s(gain, Word16(HP_GAIN@[k])), sub_s(gain, Word16(HP_GAIN@[k]))).0 == (d * d)
                / 32768
            &&& 0 <= (d * d) / 32768 < 32767
        }),
{
    reveal(crate::fixed_point::spec_sub_s);
    reveal(crate::fixed_point::spec_mult);
    lemma_gains_rise(k);
    let d = gain.0 - HP_GAIN@[k];
    assert(0 <= d * d <= 32728 * 32728) by (nonlinear_arith)
        requires
            -32728 <= d <= 32728,
    ;
}

/// The transmitted gains lie between the first and the last.
proof fn lemma_gains_rise(k: int)
    requires
        0 <= k < 16,
    ensures
        3624 <= HP_GAIN@[k] <= 32728,
{
}

/// The index names the nearest of the transmitted gains: none lies nearer by
/// its squared distance, and none of lower index as near.
pub proof fn law_sent_gain_is_the_nearest(gain: Word16, n: int, k: int)
    requires
        0 <= gain.0,
        1 <= n <= 16,
        0 <= k < n,
    ensures
        ({
            let best = nearest_gain(gain, n).0;
            let d = gain.0 - HP_GAIN@[best];
            let other = gain.0 - HP_GAIN@[k];
            &&& 0 <= best < n
            &&& nearest_gain(gain, n).1.0 == (d * d) / 32768
            &&& (d * d) / 32768 <= (other * other) / 32768
            &&& k < best ==> (d * d) / 32768 < (other * other) / 32768
        }),
    decreases n,
{
    reveal_with_fuel(nearest_gain, 2);
    lemma_gain_distance(gain, n - 1);
    if n > 1 {
        law_sent_gain_is_the_nearest(
            gain,
            n - 1,
            if k < n - 1 {
                k
            } else {
                0
            },
        );
    }
}

/// A silent band sends the smallest gain: where the input has nothing from 6 to
/// 7 kHz and the decoder will have noise there, the index is zero.
pub proof fn law_silent_band_sends_the_smallest_gain(
    v: HighBandView,
    aq: Seq<Word16>,
    x: Seq<Word16>,
    q_new: i16,
    reference: Seq<Word16>,
    vad_hist: i16,
    hangover: Word16,
)
    requires
        hangover.0 > 6,
        energy_of(input_band(v, reference)) == 1,
        energy_of(decoder_noise(v, aq, x, q_new)) >= 128,
    ensures
        band_index(v, aq, x, q_new, reference, vad_hist, hangover) == 0,
{
    law_trust_is_full_outside_a_hangover(
        v,
        aq,
        x,
        q_new,
        reference,
        vad_hist,
        vad_hist,
        hangover,
    );
    law_silence_gets_no_gain(input_band(v, reference), decoder_noise(v, aq, x, q_new));
    let measured = measured_gain(v, aq, x, q_new, reference);
    let gain = mult(measured, Word16(32767));
    reveal(crate::fixed_point::spec_mult);
    assert(0 <= gain.0 <= 4095);
    let best = nearest_gain(gain, 16).0;
    law_sent_gain_is_the_nearest(gain, 16, 0);
    if best > 0 {
        let g = gain.0 as int;
        let h = HP_GAIN@[best] as int;
        lemma_gains_after_the_first(best);
        let d = g - h;
        let e = g - 3624;
        assert((d * d) / 32768 > (e * e) / 32768) by (nonlinear_arith)
            requires
                d == g - h,
                e == g - 3624,
                0 <= g <= 4095,
                4673 <= h <= 32728,
        ;
    }
}

/// Behind the first the gains start higher.
proof fn lemma_gains_after_the_first(k: int)
    requires
        1 <= k < 16,
    ensures
        4673 <= HP_GAIN@[k] <= 32728,
{
}

/// An excitation is the sum of its two parts at their gains, to the nearest
/// unit: the adaptive part at a Q14 gain, the codeword at one that is Q9 with
/// the codeword's own Q9 taken off it.
pub proof fn law_excitation_adds_its_parts(
    code: Word16,
    gain_code: Word16,
    adaptive: Word16,
    gain_pit: Word16,
)
    requires
        -0x2000_0000 <= 64 * (code.0 * gain_code.0) <= 0x1fff_ffff,
        -0x1000_0000 <= adaptive.0 * gain_pit.0 <= 0xfff_0000,
    ensures
        excited(code, gain_code, adaptive, gain_pit).0 == (128 * (code.0 * gain_code.0) + 4 * (
        adaptive.0 * gain_pit.0) + 32768) / 65536,
{
    vstd::arithmetic::power2::lemma2_to64();
    let c = code.0 * gain_code.0;
    let a = adaptive.0 * gain_pit.0;
    lemma_l_mac(Word32(0), code, gain_code);
    lemma_l_shl(l_mult(code, gain_code), 5, 32);
    let first = l_shl(l_mult(code, gain_code), 5);
    lemma_l_mac(first, adaptive, gain_pit);
    let both = l_mac(first, adaptive, gain_pit);
    lemma_l_shl(both, 1, 2);
    lemma_round(l_shl(both, 1));
}

/// A share of an accumulator that is not negative.
proof fn lemma_accumulator_share(x: Word32, share: Word16)
    requires
        x.0 >= 0,
        share.0 >= 0,
    ensures
        ({
            let (hi, lo) = l_extract(x);
            let part = mpy_32_16(hi, lo, share).0;
            &&& 0 <= part <= x.0
            &&& 0 <= x.0 * share.0 - 32768 * part < 98304
        }),
{
    reveal(crate::fixed_point::spec_l_extract);
    reveal(crate::fixed_point::spec_mpy_32_16);
    reveal(crate::fixed_point::spec_l_mac);
    reveal(crate::fixed_point::spec_l_mult);
    reveal(crate::fixed_point::spec_l_add);
    reveal(crate::fixed_point::spec_mult);
    let v = x.0 as int;
    let h = v / 65536;
    let l = (v % 65536) / 2;
    let k = share.0 as int;
    assert(v >= 65536 * h + 2 * l);
    assert(0 <= h * k <= 32767 * 32767 && 0 <= l * k <= 32767 * 32767) by (nonlinear_arith)
        requires
            0 <= h <= 32767,
            0 <= l <= 32767,
            0 <= k <= 32767,
    ;
    let m = (l * k) / 32768;
    assert(32768 * (2 * (h * k) + 2 * m) <= v * k) by (nonlinear_arith)
        requires
            v >= 65536 * h + 2 * l,
            32768 * m <= l * k,
            k >= 0,
    ;
    assert(v * k - 32768 * (2 * (h * k) + 2 * m) < 98304) by (nonlinear_arith)
        requires
            v <= 65536 * h + 2 * l + 1,
            32768 * m > l * k - 32768,
            0 <= k <= 32767,
    ;
    assert(v * k <= v * 32768) by (nonlinear_arith)
        requires
            v >= 0,
            0 <= k <= 32768,
    ;
    let (hi, lo) = l_extract(x);
    assert(hi.0 == h && lo.0 == l);
    assert(l_mult(hi, share).0 == 2 * (h * k));
    assert(mult(lo, share).0 == m);
    assert(mult(lo, share).0 * Word16(1).0 == m) by (nonlinear_arith)
        requires
            mult(lo, share).0 == m,
            Word16(1).0 == 1,
    ;
    assert(mpy_32_16(hi, lo, share).0 == 2 * (h * k) + 2 * m);
}

/// The slow threshold moves towards the gain and never past it: from above it
/// stays between the two, from below it does not fall.
pub proof fn law_threshold_moves_towards_the_gain(gain: Word32, threshold: Word32)
    requires
        gain.0 >= 0,
        threshold.0 >= 0,
    ensures
        gain.0 < threshold.0 ==> gain.0 <= moved_threshold(gain, threshold).0 <= threshold.0,
        gain.0 >= threshold.0 ==> threshold.0 <= moved_threshold(gain, threshold).0 <= gain.0,
{
    reveal(moved_threshold);
    reveal(crate::fixed_point::spec_l_add);
    lemma_accumulator_share(gain, Word16(6226));
    lemma_accumulator_share(gain, Word16(27536));
}

/// The codeword's high-pass takes a share of both neighbours out of each
/// sample, and of the one neighbour at either end: where they are silent the
/// sample stays.
pub proof fn law_lone_pulses_pass_the_high_pass(code: Seq<Word16>, voice_fac: Word16, i: int)
    requires
        code.len() == 64,
        0 <= i < 64,
        i > 0 ==> code[i - 1] == Word16(0),
        i < 63 ==> code[i + 1] == Word16(0),
    ensures
        sharpened_code(code, voice_fac)[i] == code[i],
{
    reveal(crate::fixed_point::spec_l_msu);
    reveal(crate::fixed_point::spec_l_sub);
    reveal(crate::fixed_point::spec_l_mult);
    reveal(crate::fixed_point::spec_l_deposit_h);
    let tap = add_s(shr(voice_fac, 3), Word16(4096));
    assert(0 * tap.0 == 0) by (nonlinear_arith);
    lemma_round(l_deposit_h(code[i]));
}

/// The smoothed gain lies between the gain and the threshold, at the share of
/// the stability times how unvoiced the subframe is, but for a few units of
/// rounding.
pub proof fn law_smoothing_blends_gain_and_threshold(
    gain: Word32,
    threshold: Word32,
    voice_fac: Word16,
    stab_fac: Word16,
)
    requires
        gain.0 >= 0,
        threshold.0 >= 0,
        stab_fac.0 >= 0,
        voice_fac.0 > -32767,
    ensures
        ({
            let share = (stab_fac.0 * (16384 - voice_fac.0 as int / 2)) / 32768;
            let blend = gain.0 * (32767 - share) + threshold.0 * share;
            let out = smoothed_gain(gain, threshold, voice_fac, stab_fac).0;
            &&& 0 <= share <= 32767
            &&& 0 <= blend - 32768 * out < 196608
        }),
{
    reveal(smoothed_gain);
    reveal(crate::fixed_point::spec_sub_s);
    reveal(crate::fixed_point::spec_mult);
    reveal(crate::fixed_point::spec_shr);
    reveal(crate::fixed_point::spec_l_add);
    vstd::arithmetic::power2::lemma2_to64();
    let half = shr(voice_fac, 1);
    assert(half.0 == voice_fac.0 as int / 2);
    let room = sub_s(Word16(16384), half);
    let u = 16384 - voice_fac.0 as int / 2;
    assert(0 < u <= 32768);
    let s = stab_fac.0 as int;
    if u <= 32767 {
        assert(room.0 == u);
    } else {
        assert(room.0 == 32767);
    }
    assert(0 <= s * u <= 32767 * 32768 && 0 <= s * 32767) by (nonlinear_arith)
        requires
            0 <= s <= 32767,
            0 < u <= 32768,
    ;
    assert(voice_fac.0 > -32768 ==> u <= 32767);
    let fac = mult(stab_fac, room);
    let rest = sub_s(Word16(32767), fac);
    lemma_accumulator_share(gain, rest);
    lemma_accumulator_share(threshold, fac);
    let g = gain.0 as int;
    let t = threshold.0 as int;
    let f = fac.0 as int;
    assert(g * (32767 - f) + t * f <= 0x7fff_ffff * 32767) by (nonlinear_arith)
        requires
            0 <= f <= 32767,
            0 <= g <= 0x7fff_ffff,
            0 <= t <= 0x7fff_ffff,
    ;
}

} // verus!
