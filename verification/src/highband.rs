//! The 6 to 7 kHz band: noise at the excitation's energy, shaped by the low
//! band's predictor and weighted by the speech's tilt.

use vstd::prelude::*;
use crate::enc::analysis::{weight_taps, weighted_taps};
use crate::enc::conditioning::lemma_tilt_bounded;
use crate::fixed_point::{
    add_s, div_s, extract_h, l_deposit_h, l_mac, l_shl, lemma_l_mac, lemma_normalised, lemma_shl,
    lemma_shr, mult, norm_l, round, shl, shr, sub_s, DspContext, Word16, Word32,
};
use crate::math::{
    accumulate, dot_product12, isqrt_n, law_roots_of_larger_values_are_smaller,
    lemma_energy_positive, lemma_root_bounds, mac_run, root_word, spec_dot_product12,
};
use crate::noise::{drawn, NoiseGenerator};
use crate::synthesis::{
    law_high_passes_reject_constants, section_after, section_next, section_sum, sectioned,
    silent_section, syn_filt, synthesised_memory, synthesised_signal, L_SUBFR, Section, SectionTaps,
};
use vstd::arithmetic::power2::{
    lemma_pow2_pos, lemma_pow2_strictly_increases, lemma_pow2_unfold, pow2,
};

verus! {

/// Samples per subframe, at 16 kHz.
pub const L_SUBFR16K: usize = 80;

/// The order of the wide shaping filter.
pub const M16K_ORDER: usize = 20;

/// The transmitted gains, Q14.
pub const HP_GAIN: [i16; 16] = [
    3624, 4673, 5597, 6479, 7425, 8378, 9324, 10264, 11210, 12206, 13391, 14844, 16770, 19655,
    24289, 32728,
];

/// Band-pass from 6 to 7 kHz, Q15, with a gain of four.
pub const FIR_6K_7K: [i16; 31] = [
    -32, 47, 32, -27, -369, 1122, -1421, 0, 3798, -8880, 12349, -10984, 3548, 7766, -18001, 22118,
    -18001, 7766, 3548, -10984, 12349, -8880, 3798, 0, -1421, 1122, -369, -27, 32, 47, -32,
];

/// Low-pass at 7 kHz, Q15.
pub const FIR_7K: [i16; 31] = [
    -21, 47, -89, 146, -203, 229, -177, 0, 335, -839, 1485, -2211, 2931, -3542, 3953, 28682, 3953,
    -3542, 2931, -2211, 1485, -839, 335, 0, -177, 229, -203, 146, -89, 47, -21,
];

// ---------------------------------------------------------------------------
// Noise
// ---------------------------------------------------------------------------

/// A subframe of noise at an eighth of full scale.
pub open spec fn band_noise(seed: Word16) -> Seq<Word16> {
    Seq::new(80, |i: int| shr(drawn(seed, i + 1), 3))
}

/// Draw a subframe of noise.
pub fn fill(ctx: &mut DspContext, generator: &mut NoiseGenerator) -> (noise: [Word16; L_SUBFR16K])
    ensures
        noise@ == band_noise(old(generator).seed),
        final(generator).seed == drawn(old(generator).seed, 80),
{
    let ghost seed = generator.seed;
    let mut noise: [Word16; L_SUBFR16K] = [Word16(0); L_SUBFR16K];
    for i in 0..L_SUBFR16K
        invariant
            generator.seed == drawn(seed, i as int),
            forall|j: int| 0 <= j < i ==> #[trigger] noise@[j] == shr(drawn(seed, j + 1), 3),
    {
        let sample = generator.next(ctx);
        noise[i] = shr(sample, 3);
    }
    assert(noise@ =~= band_noise(seed));
    noise
}

/// The root of one energy over another, as a fraction and an exponent, from
/// their normalised values and the exponent of the second less the first's.
pub open spec fn energy_root(source: (Word32, i16), target_energy: Word16, target_exp: Word16) -> (
    Word32,
    i16,
) {
    let raw = extract_h(source.0);
    let tall = raw.0 > target_energy.0;
    let energy = if tall {
        shr(raw, 1)
    } else {
        raw
    };
    let exp = if tall {
        add_s(Word16(source.1), Word16(1))
    } else {
        Word16(source.1)
    };
    isqrt_n((l_deposit_h(div_s(energy, target_energy)), sub_s(exp, target_exp).0))
}

/// The quotient of two normalised energies is normalised.
proof fn lemma_energy_quotient(energy: Word16, target_energy: Word16)
    requires
        0 < energy.0 <= target_energy.0,
        2 * energy.0 >= target_energy.0,
    ensures
        l_deposit_h(div_s(energy, target_energy)).0 >= 0x4000_0000,
{
    reveal(crate::fixed_point::spec_div_s);
    reveal(crate::fixed_point::spec_l_deposit_h);
    let e = energy.0 as int;
    let t = target_energy.0 as int;
    assert((e * 32768) / t >= 16384) by (nonlinear_arith)
        requires
            2 * e >= t,
            t > 0,
    ;
    assert(e < t ==> (e * 32768) / t <= 32767) by (nonlinear_arith)
        requires
            0 < e,
            t > 0,
    ;
}

/// The root of one energy over another.
fn root_of_ratio(source: (Word32, i16), target_energy: Word16, target_exp: Word16) -> (r: (
    Word32,
    i16,
))
    requires
        source.0.0 >= 0x4000_0000,
        target_energy.0 >= 0x4000,
    ensures
        r == energy_root(source, target_energy, target_exp),
{
    proof {
        reveal(crate::fixed_point::spec_extract_h);
        reveal(crate::fixed_point::spec_shr);
        vstd::arithmetic::power2::lemma2_to64();
    }
    let raw = extract_h(source.0);
    let mut energy = raw;
    let mut exp = Word16(source.1);
    // The quotient has to be a proper fraction.
    if raw.0 > target_energy.0 {
        energy = shr(raw, 1);
        exp = add_s(exp, Word16(1));
        assert(energy.0 == raw.0 as int / 2);
    }
    proof {
        lemma_energy_quotient(energy, target_energy);
    }
    let ratio = l_deposit_h(div_s(energy, target_energy));
    isqrt_n((ratio, sub_s(exp, target_exp).0))
}

/// The gain that brings noise to an excitation's energy, doubled.
pub open spec fn matching_gain(excitation: Seq<Word16>, noise: Seq<Word16>, q: i16) -> Word16 {
    let (energy, exp) = spec_dot_product12(excitation, excitation);
    let target_exp = sub_s(Word16(exp), add_s(Word16(q), Word16(q)));
    let (root, root_exp) = energy_root(
        spec_dot_product12(noise, noise),
        extract_h(energy),
        target_exp,
    );
    extract_h(l_shl(root, add_s(Word16(root_exp), Word16(1)).0))
}

/// Noise at an excitation's energy.
pub open spec fn matched(excitation: Seq<Word16>, noise: Seq<Word16>, q: i16) -> Seq<Word16> {
    Seq::new(noise.len(), |i: int| mult(noise[i], matching_gain(excitation, noise, q)))
}

/// Bring noise to the energy of an excitation, which is scaled by `q`.
pub fn match_energy(excitation: &[Word16; L_SUBFR], noise: &mut [Word16; L_SUBFR16K], q: i16)
    ensures
        final(noise)@ == matched(excitation@, old(noise)@, q),
{
    let (energy, exp) = dot_product12(excitation, excitation);
    let target_exp = sub_s(Word16(exp), add_s(Word16(q), Word16(q)));
    let source = dot_product12(&*noise, &*noise);
    assert(extract_h(energy).0 >= 0x4000) by {
        reveal(crate::fixed_point::spec_extract_h);
    }
    let (root, root_exp) = root_of_ratio(source, extract_h(energy), target_exp);
    let gain = extract_h(l_shl(root, add_s(Word16(root_exp), Word16(1)).0));
    for i in 0..L_SUBFR16K
        invariant
            gain == matching_gain(excitation@, old(noise)@, q),
            forall|j: int| 0 <= j < i ==> #[trigger] noise@[j] == mult(old(noise)@[j], gain),
            forall|j: int| i <= j < 80 ==> #[trigger] noise@[j] == old(noise)@[j],
    {
        noise[i] = mult(noise[i], gain);
    }
    assert(noise@ =~= matched(excitation@, old(noise)@, q));
}

/// The root of the ratio of two subframes' energies, Q15.
pub open spec fn energy_ratio_of(target: Seq<Word16>, source: Seq<Word16>) -> Word16 {
    let (energy, exp) = spec_dot_product12(target, target);
    let (root, root_exp) = energy_root(
        spec_dot_product12(source, source),
        extract_h(energy),
        Word16(exp),
    );
    extract_h(l_shl(root, root_exp))
}

/// `sqrt(energy(target) / energy(source))`, Q15: what [`match_energy`] applies,
/// without its doubling.
pub fn energy_ratio(target: &[Word16; L_SUBFR16K], source: &[Word16; L_SUBFR16K]) -> (r: Word16)
    ensures
        r == energy_ratio_of(target@, source@),
{
    let (energy, exp) = dot_product12(target, target);
    assert(extract_h(energy).0 >= 0x4000) by {
        reveal(crate::fixed_point::spec_extract_h);
    }
    let measured = dot_product12(source, source);
    let (root, root_exp) = root_of_ratio(measured, extract_h(energy), Word16(exp));
    extract_h(l_shl(root, root_exp))
}

// ---------------------------------------------------------------------------
// Tilt
// ---------------------------------------------------------------------------

/// The coefficients of the 400 Hz high-pass; its output is a sixteenth.
pub open spec fn high_pass_400() -> SectionTaps {
    SectionTaps { b0: 915, b1: -1830i16, b2: 915, a1: 29280, a2: -14160i16, shift: 1 }
}

/// The 400 Hz high-pass that the tilt is measured through.
#[derive(Clone, Copy, Debug, PartialEq, Eq, Structural)]
pub struct TiltFilter {
    pub memory: Section,
}

impl TiltFilter {
    /// A filter with no history.
    #[must_use]
    pub fn new() -> (f: Self)
        ensures
            f.memory == silent_section(),
    {
        TiltFilter { memory: Section::new() }
    }
}

/// The tilt of a filtered subframe, Q15: its first normalised correlation, or
/// zero.
pub open spec fn tilt_of(x: Seq<Word16>) -> Word16 {
    let energy = mac_run(Word32(1), x, 0, x, 0, 64);
    let exp = norm_l(energy);
    let cross = extract_h(l_shl(mac_run(Word32(1), x, 0, x, 1, 63), exp));
    if cross.0 > 0 {
        div_s(cross, extract_h(l_shl(energy, exp)))
    } else {
        Word16(0)
    }
}

/// Shifting and halving keep the order of two accumulators.
proof fn lemma_ordered(a: Word32, b: Word32, n: i16)
    requires
        a.0 <= b.0,
        0 <= n <= 31,
    ensures
        extract_h(l_shl(a, n)).0 <= extract_h(l_shl(b, n)).0,
{
    reveal(crate::fixed_point::spec_l_shl);
    reveal(crate::fixed_point::spec_extract_h);
    let p = vstd::arithmetic::power2::pow2(n as nat) as int;
    let x = a.0 as int;
    let y = b.0 as int;
    assert(x * p <= y * p) by (nonlinear_arith)
        requires
            x <= y,
            p >= 0,
    ;
}

/// The spectral tilt of synthesised speech, which is left high-passed.
pub fn spectral_tilt(filter: &mut TiltFilter, speech: &mut [Word16; L_SUBFR]) -> (tilt: Word16)
    ensures
        final(speech)@ == sectioned(old(filter).memory, high_pass_400(), 0, old(speech)@),
        final(filter).memory == section_after(
            old(filter).memory,
            high_pass_400(),
            old(speech)@,
            64,
        ),
        tilt == tilt_of(final(speech)@),
        tilt.0 >= 0,
{
    let taps = SectionTaps { b0: 915, b1: -1830, b2: 915, a1: 29280, a2: -14160, shift: 1 };
    filter.memory.filter(taps, 0, speech);
    let energy = accumulate(Word32(1), &*speech, 0, &*speech, 0, L_SUBFR);
    let cross = accumulate(Word32(1), &*speech, 0, &*speech, 1, L_SUBFR - 1);
    let exp: i16 = norm_l(energy);
    let top = extract_h(l_shl(cross, exp));
    proof {
        lemma_tilt_bounded(speech@, 63);
        crate::fixed_point::lemma_norm_l(energy);
        lemma_ordered(cross, energy, exp);
    }
    if top.0 > 0 {
        div_s(top, extract_h(l_shl(energy, exp)))
    } else {
        Word16(0)
    }
}

/// The gain that a tilt suggests, Q15; during background noise the band is
/// attenuated less.
pub open spec fn tilt_gain(tilt: Word16, vad_hist: i16) -> Word16 {
    let plain = sub_s(Word16(32767), tilt);
    let raised = shl(mult(plain, Word16(20480)), 1);
    let (w1, w2) = if vad_hist > 0 {
        (Word16(0), Word16(32767))
    } else {
        (Word16(32767), Word16(0))
    };
    let sum = add_s(mult(w1, plain), mult(w2, raised));
    let gain = if sum.0 != 0 {
        add_s(sum, Word16(1))
    } else {
        sum
    };
    if gain.0 < 3277 {
        Word16(3277)
    } else {
        gain
    }
}

/// The gain that the speech's tilt suggests for the band.
pub fn gain_from_tilt(tilt: Word16, vad_hist: i16) -> (gain: Word16)
    ensures
        gain == tilt_gain(tilt, vad_hist),
{
    let plain = sub_s(Word16(32767), tilt);
    let raised = shl(mult(plain, Word16(20480)), 1);
    let (w1, w2) = if vad_hist > 0 {
        (Word16(0), Word16(32767))
    } else {
        (Word16(32767), Word16(0))
    };
    let sum = add_s(mult(w1, plain), mult(w2, raised));
    let gain = if sum.0 != 0 {
        add_s(sum, Word16(1))
    } else {
        sum
    };
    if gain.0 < 3277 {
        Word16(3277)
    } else {
        gain
    }
}

// ---------------------------------------------------------------------------
// Shaping
// ---------------------------------------------------------------------------

/// The noise-shaping filter's memory: the order-16 filter uses the newest
/// sixteen of its twenty samples.
#[derive(Clone, Copy, Debug, PartialEq, Eq)]
pub struct NoiseShaper {
    pub memory: [Word16; M16K_ORDER],
}

/// Noise shaped by a low-band predictor.
pub open spec fn shaped(memory: Seq<Word16>, a: Seq<Word16>, noise: Seq<Word16>) -> Seq<Word16> {
    synthesised_signal(weighted_taps(a, Word16(19661)), memory.skip(4), noise)
}

/// The memory after noise has been shaped by a low-band predictor.
pub open spec fn shaped_memory(memory: Seq<Word16>, a: Seq<Word16>, noise: Seq<Word16>) -> Seq<
    Word16,
> {
    memory.take(4) + synthesised_memory(
        weighted_taps(a, Word16(19661)),
        memory.skip(4),
        noise,
    )
}

impl NoiseShaper {
    /// A filter with no history.
    #[must_use]
    pub fn new() -> (s: Self)
        ensures
            s.memory@ == Seq::new(20, |i: int| Word16(0)),
    {
        let s = NoiseShaper { memory: [Word16(0); M16K_ORDER] };
        assert(s.memory@ =~= Seq::new(20, |i: int| Word16(0)));
        s
    }

    /// Forget the four oldest samples.
    pub fn clear_wide_tail(&mut self)
        ensures
            final(self).memory@ == Seq::new(4, |i: int| Word16(0)) + old(self).memory@.skip(4),
    {
        self.memory[0] = Word16(0);
        self.memory[1] = Word16(0);
        self.memory[2] = Word16(0);
        self.memory[3] = Word16(0);
        assert(self.memory@ =~= Seq::new(4, |i: int| Word16(0)) + old(self).memory@.skip(4));
    }

    /// Shape noise by the low band's predictor, widened.
    pub fn shape(&mut self, a: &[Word16; 17], noise: &mut [Word16; L_SUBFR16K])
        ensures
            final(noise)@ == shaped(old(self).memory@, a@, old(noise)@),
            final(self).memory@ == shaped_memory(old(self).memory@, a@, old(noise)@),
    {
        let mut ap: [Word16; 17] = [Word16(0); 17];
        weight_taps(a, Word16(19661), &mut ap);
        let mut memory: [Word16; 16] = [Word16(0); 16];
        for i in 0..16usize
            invariant
                self.memory == old(self).memory,
                forall|j: int| 0 <= j < i ==> #[trigger] memory@[j] == self.memory@[4 + j],
        {
            memory[i] = self.memory[4 + i];
        }
        assert(memory@ =~= old(self).memory@.skip(4));
        let input = *noise;
        syn_filt(&ap, &input, noise, &mut memory, true);
        proof {
            crate::synthesis::lemma_synthesised_length(
                ap@,
                old(self).memory@.skip(4),
                input@,
                80,
            );
        }
        for i in 0..16usize
            invariant
                forall|j: int| 0 <= j < 4 ==> #[trigger] self.memory@[j] == old(self).memory@[j],
                forall|j: int| 4 <= j < 4 + i ==> #[trigger] self.memory@[j] == memory@[j - 4],
        {
            self.memory[4 + i] = memory[i];
        }
        assert(self.memory@ =~= shaped_memory(old(self).memory@, a@, old(noise)@));
    }

    /// Shape noise by a wide predictor.
    pub fn shape_wide(&mut self, a: &[Word16; 21], noise: &mut [Word16; L_SUBFR16K])
        ensures
            final(noise)@ == synthesised_signal(
                weighted_taps(a@, Word16(29491)),
                old(self).memory@,
                old(noise)@,
            ),
            final(self).memory@ == synthesised_memory(
                weighted_taps(a@, Word16(29491)),
                old(self).memory@,
                old(noise)@,
            ),
    {
        let mut ap: [Word16; 21] = [Word16(0); 21];
        weight_taps(a, Word16(29491), &mut ap);
        let input = *noise;
        syn_filt(&ap, &input, noise, &mut self.memory, true);
    }
}

// ---------------------------------------------------------------------------
// Band filters
// ---------------------------------------------------------------------------

/// A 31-tap filter at 16 kHz and the thirty samples it carries.
#[derive(Clone, Copy, Debug, PartialEq, Eq)]
pub struct BandFilter {
    pub memory: [Word16; 30],
    /// Whether this is the band-pass, whose gain of four its input is divided
    /// by, or the low-pass.
    pub band: bool,
}

/// The taps of a band filter.
pub open spec fn band_taps(band: bool) -> Seq<i16> {
    if band {
        FIR_6K_7K@
    } else {
        FIR_7K@
    }
}

/// The input of a band filter.
pub open spec fn band_input(band: bool, x: Seq<Word16>) -> Seq<Word16> {
    Seq::new(
        x.len(),
        |i: int|
            if band {
                shr(x[i], 2)
            } else {
                x[i]
            },
    )
}

/// The first `n` products of output sample `i`.
pub open spec fn band_sum(s: Seq<Word16>, taps: Seq<i16>, i: int, n: int) -> Word32
    decreases n,
{
    if n <= 0 {
        Word32(0)
    } else {
        l_mac(band_sum(s, taps, i, n - 1), s[i + n - 1], Word16(taps[n - 1]))
    }
}

/// A subframe through a band filter.
pub open spec fn band_filtered(memory: Seq<Word16>, band: bool, x: Seq<Word16>) -> Seq<Word16> {
    let s = memory + band_input(band, x);
    Seq::new(80, |i: int| round(band_sum(s, band_taps(band), i, 31)))
}

/// What a band filter carries after a subframe.
pub open spec fn band_memory(band: bool, x: Seq<Word16>) -> Seq<Word16> {
    band_input(band, x).skip(50)
}

impl BandFilter {
    /// The band-pass, with no history.
    #[must_use]
    pub fn band_pass() -> (f: Self)
        ensures
            f.band,
            f.memory@ == Seq::new(30, |i: int| Word16(0)),
    {
        let f = BandFilter { memory: [Word16(0); 30], band: true };
        assert(f.memory@ =~= Seq::new(30, |i: int| Word16(0)));
        f
    }

    /// The low-pass, with no history.
    #[must_use]
    pub fn low_pass_7k() -> (f: Self)
        ensures
            !f.band,
            f.memory@ == Seq::new(30, |i: int| Word16(0)),
    {
        let f = BandFilter { memory: [Word16(0); 30], band: false };
        assert(f.memory@ =~= Seq::new(30, |i: int| Word16(0)));
        f
    }

    /// Filter a subframe in place.
    pub fn filter(&mut self, signal: &mut [Word16; L_SUBFR16K])
        ensures
            final(self).band == old(self).band,
            final(signal)@ == band_filtered(old(self).memory@, old(self).band, old(signal)@),
            final(self).memory@ == band_memory(old(self).band, old(signal)@),
    {
        let ghost whole = self.memory@ + band_input(self.band, signal@);
        let mut x: [Word16; 110] = [Word16(0); 110];
        for i in 0..30usize
            invariant
                *self == *old(self),
                forall|j: int| 0 <= j < i ==> #[trigger] x@[j] == self.memory@[j],
        {
            x[i] = self.memory[i];
        }
        for i in 0..L_SUBFR16K
            invariant
                *self == *old(self),
                signal@ == old(signal)@,
                forall|j: int| 0 <= j < 30 ==> #[trigger] x@[j] == self.memory@[j],
                forall|j: int|
                    30 <= j < 30 + i ==> #[trigger] x@[j] == band_input(self.band, signal@)[j - 30],
        {
            x[30 + i] = if self.band {
                shr(signal[i], 2)
            } else {
                signal[i]
            };
        }
        assert(x@ =~= whole);
        for i in 0..L_SUBFR16K
            invariant
                *self == *old(self),
                x@ == whole,
                forall|j: int|
                    0 <= j < i ==> #[trigger] signal@[j] == round(
                        band_sum(whole, band_taps(self.band), j, 31),
                    ),
        {
            let mut sum = Word32(0);
            for n in 0..31usize
                invariant
                    i < 80,
                    x@ == whole,
                    sum == band_sum(whole, band_taps(self.band), i as int, n as int),
            {
                let tap: i16 = if self.band {
                    FIR_6K_7K[n]
                } else {
                    FIR_7K[n]
                };
                sum = l_mac(sum, x[i + n], Word16(tap));
            }
            signal[i] = round(sum);
        }
        assert(signal@ =~= band_filtered(old(self).memory@, old(self).band, old(signal)@));
        for i in 0..30usize
            invariant
                self.band == old(self).band,
                x@ == whole,
                whole.len() == 110,
                forall|j: int| 0 <= j < i ==> #[trigger] self.memory@[j] == whole[80 + j],
        {
            self.memory[i] = x[80 + i];
        }
        assert(self.memory@ =~= band_memory(old(self).band, old(signal)@));
    }
}

/// The gain that a transmitted index stands for, Q14.
pub fn transmitted_gain(index: u16) -> (gain: Word16)
    requires
        index < 16,
    ensures
        gain == Word16(HP_GAIN@[index as int]),
{
    Word16(HP_GAIN[index as usize])
}

// ---------------------------------------------------------------------------
// Laws
// ---------------------------------------------------------------------------

/// The energy of a signal, doubled, and one.
pub open spec fn energy_of(x: Seq<Word16>) -> int {
    mac_run(Word32(1), x, 0, x, 0, x.len() as int).0 as int
}

/// An energy by its normalised word and its exponent.
proof fn lemma_energy_parts(x: Seq<Word16>)
    ensures
        ({
            let (energy, exp) = spec_dot_product12(x, x);
            let e = energy_of(x);
            let p = pow2((30 - exp) as nat) as int;
            &&& e >= 1
            &&& 0 <= exp <= 30
            &&& energy.0 == e * p
            &&& energy.0 >= 0x4000_0000
            &&& 0x4000 <= extract_h(energy).0
            &&& extract_h(energy).0 == (e * p) / 65536
        }),
{
    reveal(crate::fixed_point::spec_extract_h);
    lemma_energy_positive(Word32(1), x, 0, x.len() as int);
    lemma_normalised(mac_run(Word32(1), x, 0, x, 0, x.len() as int));
}

/// A larger energy has a larger exponent, or the same and no smaller a word.
proof fn lemma_energy_order(x: Seq<Word16>, y: Seq<Word16>)
    requires
        energy_of(x) <= energy_of(y),
    ensures
        spec_dot_product12(x, x).1 <= spec_dot_product12(y, y).1,
        spec_dot_product12(x, x).1 == spec_dot_product12(y, y).1 ==> extract_h(
            spec_dot_product12(x, x).0,
        ).0 <= extract_h(spec_dot_product12(y, y).0).0,
{
    lemma_energy_parts(x);
    lemma_energy_parts(y);
    let a = energy_of(x);
    let b = energy_of(y);
    let m = 30 - spec_dot_product12(x, x).1;
    let n = 30 - spec_dot_product12(y, y).1;
    let p = pow2(m as nat) as int;
    let q = pow2(n as nat) as int;
    lemma_pow2_pos(m as nat);
    if m < n {
        lemma_pow2_strictly_increases(m as nat, n as nat);
        lemma_pow2_unfold(n as nat);
        if m < n - 1 {
            lemma_pow2_strictly_increases(m as nat, (n - 1) as nat);
        }
        assert(2 * (a * p) <= b * q) by (nonlinear_arith)
            requires
                1 <= a <= b,
                1 <= p,
                2 * p <= q,
        ;
        assert(false);
    }
    if m == n {
        assert(a * p <= b * p) by (nonlinear_arith)
            requires
                a <= b,
                p >= 1,
        ;
    }
}

/// The quotient of two normalised words.
proof fn lemma_quotient(num: Word16, den: Word16)
    requires
        0 < num.0 <= den.0,
    ensures
        num.0 < den.0 ==> div_s(num, den).0 == (num.0 * 32768) / den.0 as int,
        num.0 == den.0 ==> div_s(num, den).0 == 32767,
        0 <= div_s(num, den).0,
{
    reveal(crate::fixed_point::spec_div_s);
    let e = num.0 as int;
    let t = den.0 as int;
    assert(0 <= (e * 32768) / t && (e < t ==> (e * 32768) / t <= 32767)) by (nonlinear_arith)
        requires
            0 < e <= t,
    ;
}

/// The quotient and the exponent that the root is taken of.
spec fn ratio_parts(raw: Word16, exp: int, target: Word16, target_exp: int) -> (Word16, int) {
    if raw.0 > target.0 {
        (div_s(shr(raw, 1), target), exp + 1 - target_exp)
    } else {
        (div_s(raw, target), exp - target_exp)
    }
}

/// As the target grows the ratio falls.
proof fn lemma_ratio_falls(
    raw: Word16,
    exp: int,
    target: Word16,
    target_exp: int,
    larger: Word16,
    larger_exp: int,
)
    requires
        0x4000 <= raw.0,
        0x4000 <= target.0,
        0x4000 <= larger.0,
        target_exp <= larger_exp,
        target_exp == larger_exp ==> target.0 <= larger.0,
    ensures
        ({
            let (q, e) = ratio_parts(raw, exp, target, target_exp);
            let (r, f) = ratio_parts(raw, exp, larger, larger_exp);
            &&& q.0 >= 0x4000
            &&& r.0 >= 0x4000
            &&& f <= e
            &&& f == e ==> r.0 <= q.0
        }),
{
    reveal(crate::fixed_point::spec_shr);
    vstd::arithmetic::power2::lemma2_to64();
    let half = shr(raw, 1);
    assert(half.0 == raw.0 as int / 2);
    let top = if raw.0 > target.0 {
        half
    } else {
        raw
    };
    let other = if raw.0 > larger.0 {
        half
    } else {
        raw
    };
    lemma_quotient(top, target);
    lemma_quotient(other, larger);
    let a = top.0 as int;
    let b = other.0 as int;
    let t = target.0 as int;
    let u = larger.0 as int;
    assert((a * 32768) / t >= 16384) by (nonlinear_arith)
        requires
            2 * a >= t,
            t > 0,
    ;
    assert((b * 32768) / u >= 16384) by (nonlinear_arith)
        requires
            2 * b >= u,
            u > 0,
    ;
    let (q, e) = ratio_parts(raw, exp, target, target_exp);
    let (r, f) = ratio_parts(raw, exp, larger, larger_exp);
    if f == e {
        if target_exp == larger_exp {
            assert((b * 32768) / u <= (a * 32768) / t) by (nonlinear_arith)
                requires
                    a == b,
                    0 < a,
                    0 < t <= u,
            ;
        } else {
            assert(a == raw.0 && b == raw.0 as int / 2);
            assert((b * 32768) / u <= 2 * b && (a * 32768) / t >= a) by (nonlinear_arith)
                requires
                    0 < a,
                    0 <= b,
                    0 < t <= 32768,
                    16384 <= u,
            ;
        }
    }
}

/// The ratio's word is the root of its parts.
proof fn lemma_ratio_word(target: Seq<Word16>, source: Seq<Word16>)
    ensures
        ({
            let t = spec_dot_product12(target, target);
            let s = spec_dot_product12(source, source);
            let (q, e) = ratio_parts(extract_h(s.0), s.1 as int, extract_h(t.0), t.1 as int);
            energy_ratio_of(target, source) == root_word((l_deposit_h(q), e as i16))
        }),
{
    reveal(crate::fixed_point::spec_add_s);
    reveal(crate::fixed_point::spec_sub_s);
    lemma_energy_parts(target);
    lemma_energy_parts(source);
}

/// The ratio follows its target: against the same source a signal with more
/// energy is never given less gain.
pub proof fn law_ratio_follows_its_target(
    target: Seq<Word16>,
    louder: Seq<Word16>,
    source: Seq<Word16>,
)
    requires
        energy_of(target) <= energy_of(louder),
    ensures
        energy_ratio_of(target, source).0 <= energy_ratio_of(louder, source).0,
{
    reveal(crate::fixed_point::spec_l_deposit_h);
    let t = spec_dot_product12(target, target);
    let u = spec_dot_product12(louder, louder);
    let s = spec_dot_product12(source, source);
    lemma_energy_parts(target);
    lemma_energy_parts(louder);
    lemma_energy_parts(source);
    lemma_energy_order(target, louder);
    lemma_ratio_word(target, source);
    lemma_ratio_word(louder, source);
    let raw = extract_h(s.0);
    lemma_ratio_falls(
        raw,
        s.1 as int,
        extract_h(t.0),
        t.1 as int,
        extract_h(u.0),
        u.1 as int,
    );
    let (q, e) = ratio_parts(raw, s.1 as int, extract_h(t.0), t.1 as int);
    let (r, f) = ratio_parts(raw, s.1 as int, extract_h(u.0), u.1 as int);
    law_roots_of_larger_values_are_smaller(l_deposit_h(r), f as i16, l_deposit_h(q), e as i16);
}

/// Silence gets hardly any gain: against a source with any energy to speak of
/// no more than an eighth.
pub proof fn law_silence_gets_no_gain(target: Seq<Word16>, source: Seq<Word16>)
    requires
        energy_of(target) == 1,
        energy_of(source) >= 128,
    ensures
        0 <= energy_ratio_of(target, source).0 <= 4095,
{
    reveal(crate::fixed_point::spec_l_deposit_h);
    reveal(crate::fixed_point::spec_extract_h);
    lemma_energy_parts(target);
    lemma_energy_parts(source);
    lemma_ratio_word(target, source);
    let t = spec_dot_product12(target, target);
    let s = spec_dot_product12(source, source);
    let raw = extract_h(s.0);
    vstd::arithmetic::power2::lemma2_to64();
    assert(t.1 == 0) by {
        let m = 30 - t.1;
        if m < 30 {
            lemma_pow2_strictly_increases(m as nat, 30);
        }
    }
    assert(s.1 >= 7) by {
        let m = 30 - s.1;
        let p = pow2(m as nat) as int;
        let e = energy_of(source);
        if m > 23 {
            if m > 24 {
                lemma_pow2_strictly_increases(24, m as nat);
            }
            assert(e * p >= 128 * 0x100_0000) by (nonlinear_arith)
                requires
                    e >= 128,
                    p >= 0x100_0000,
            ;
        }
    }
    lemma_ratio_falls(raw, s.1 as int, extract_h(t.0), 0, extract_h(t.0), 0);
    let (q, e) = ratio_parts(raw, s.1 as int, extract_h(t.0), 0);
    let half = Word32(0x4000_0000);
    law_roots_of_larger_values_are_smaller(half, 7, l_deposit_h(q), e as i16);
    lemma_root_bounds(half, 7);
    lemma_root_bounds(l_deposit_h(q), e as i16);
}

/// A product with a share of at most one keeps the order.
proof fn lemma_share_order(a: Word16, b: Word16, share: Word16)
    requires
        0 <= a.0 <= b.0,
        0 <= share.0,
    ensures
        0 <= mult(a, share).0 <= mult(b, share).0 <= b.0,
        mult(a, share) == mult(share, a),
        mult(b, share) == mult(share, b),
{
    reveal(crate::fixed_point::spec_mult);
    let x = a.0 as int;
    let y = b.0 as int;
    let k = share.0 as int;
    assert(0 <= x * k <= y * k && y * k <= y * 32768 && x * k == k * x && y * k == k * y) by (nonlinear_arith)
        requires
            0 <= x <= y,
            0 <= k <= 32767,
    ;
}

/// The tilt's gain falls as the tilt rises, is never less than a tenth, and in
/// background noise never less than in speech.
pub proof fn law_steep_speech_gets_less_band(tilt: Word16, steeper: Word16, vad_hist: i16)
    requires
        0 <= tilt.0 <= steeper.0,
    ensures
        3277 <= tilt_gain(steeper, vad_hist).0 <= tilt_gain(tilt, vad_hist).0,
        vad_hist > 0 ==> tilt_gain(tilt, 0i16).0 <= tilt_gain(tilt, vad_hist).0,
        vad_hist <= 0 ==> tilt_gain(tilt, vad_hist) == tilt_gain(tilt, 0i16),
{
    reveal(crate::fixed_point::spec_sub_s);
    reveal(crate::fixed_point::spec_add_s);
    reveal(crate::fixed_point::spec_mult);
    vstd::arithmetic::power2::lemma2_to64();
    let a = sub_s(Word16(32767), tilt);
    let b = sub_s(Word16(32767), steeper);
    assert(0 <= b.0 <= a.0);
    lemma_share_order(b, a, Word16(20480));
    lemma_shl(mult(a, Word16(20480)), 1, 2);
    lemma_shl(mult(b, Word16(20480)), 1, 2);
    let ra = shl(mult(a, Word16(20480)), 1);
    let rb = shl(mult(b, Word16(20480)), 1);
    assert(0 <= rb.0 <= ra.0);
    assert(a.0 <= ra.0 + 1);
    lemma_share_order(b, a, Word16(32767));
    lemma_share_order(rb, ra, Word16(32767));
    lemma_share_order(b, a, Word16(0));
    lemma_share_order(rb, ra, Word16(0));
    assert(mult(Word16(0), a).0 == 0 && mult(Word16(0), ra).0 == 0);
    assert(mult(Word16(0), b).0 == 0 && mult(Word16(0), rb).0 == 0);
}

/// The band of a good frame carries the gain that was sent: each sample of the
/// noise at the table's entry, which is Q14, to within the two units that
/// halving and doubling lose.
pub proof fn law_sent_gain_is_applied(n: Word16, index: int)
    requires
        0 <= index < 16,
        -32768 <= 2 * ((n.0 * HP_GAIN@[index]) / 32768) <= 32767,
    ensures
        ({
            let out = shl(mult(n, Word16(HP_GAIN@[index])), 1).0;
            0 <= n.0 * HP_GAIN@[index] - 16384 * out < 32768
        }),
{
    reveal(crate::fixed_point::spec_mult);
    vstd::arithmetic::power2::lemma2_to64();
    let g = HP_GAIN@[index] as int;
    let x = n.0 as int;
    assert(-0x4000_0000 <= x * g <= 0x3fff_ffff) by (nonlinear_arith)
        requires
            -32768 <= x <= 32767,
            0 <= g <= 32767,
    ;
    lemma_shl(mult(n, Word16(HP_GAIN@[index])), 1, 2);
}

/// The 400 Hz high-pass gives nothing of a constant either.
pub proof fn law_constant_band_is_removed(x: Word16)
    requires
        -8192 <= x.0 <= 8191,
    ensures
        ({
            let s = Section { x0: x, x1: x, ..silent_section() };
            &&& section_sum(s, high_pass_400(), x) == Word32(0)
            &&& section_next(s, high_pass_400(), x) == s
        }),
{
    law_high_passes_reject_constants(high_pass_400(), x);
}

proof fn lemma_lone_band_sum(s: Seq<Word16>, taps: Seq<i16>, i: int, p: int, n: int)
    requires
        0 <= n <= 31,
        0 <= i,
        i + n <= s.len(),
        forall|j: int| 0 <= j < s.len() && j != p ==> #[trigger] s[j] == Word16(0),
        forall|j: int| 0 <= j < 31 ==> -32768 < #[trigger] taps[j],
    ensures
        band_sum(s, taps, i, n).0 == if i <= p < i + n {
            2 * (s[p].0 * taps[p - i])
        } else {
            0
        },
    decreases n,
{
    if n > 0 {
        lemma_lone_band_sum(s, taps, i, p, n - 1);
        let x = s[i + n - 1].0 as int;
        let w = taps[n - 1] as int;
        assert(-0x3fff_8000 <= x * w <= 0x3fff_8000) by (nonlinear_arith)
            requires
                -32768 <= x <= 32767,
                -32767 <= w <= 32767,
        ;
        assert(x == 0 ==> x * w == 0) by (nonlinear_arith);
        lemma_l_mac(band_sum(s, taps, i, n - 1), s[i + n - 1], Word16(taps[n - 1]));
    }
}

/// A lone sample comes out of a band filter as the filter's taps, newest
/// first.
pub proof fn law_lone_sample_becomes_the_taps(s: Seq<Word16>, taps: Seq<i16>, i: int, p: int)
    requires
        0 <= i <= p < i + 31,
        i + 31 <= s.len(),
        forall|j: int| 0 <= j < s.len() && j != p ==> #[trigger] s[j] == Word16(0),
        forall|j: int| 0 <= j < 31 ==> -32768 < #[trigger] taps[j],
    ensures
        band_sum(s, taps, i, 31).0 == 2 * (s[p].0 * taps[p - i]),
{
    lemma_lone_band_sum(s, taps, i, p, 31);
}

/// What a band filter carries on is the newest thirty of the samples it was
/// given.
pub proof fn law_band_carries_the_newest(band: bool, x: Seq<Word16>, i: int)
    requires
        x.len() == 80,
        0 <= i < 30,
    ensures
        band_memory(band, x).len() == 30,
        !band ==> band_memory(band, x)[i] == x[50 + i],
        band ==> 4 * band_memory(band, x)[i].0 <= x[50 + i].0 < 4 * band_memory(band, x)[i].0 + 4,
{
    vstd::arithmetic::power2::lemma2_to64();
    lemma_shr(x[50 + i], 2, 4);
}

} // verus!
