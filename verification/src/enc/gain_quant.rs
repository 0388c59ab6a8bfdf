//! Joint quantisation of the pitch and code gains.

use vstd::prelude::*;
use crate::fixed_point::{
    add_s, extract_h, extract_l, l_deposit_h, l_deposit_l, l_extract, l_mac, l_mult, l_negate,
    l_shl, l_shr, lemma_l_mac, lemma_l_shl, lemma_l_shr, lemma_larger_l_shifts_less,
    lemma_normalised, mpy_32_16, mult, mult_r, negate, norm_l, round, shr, sub_s, DspContext,
    Word16, Word32,
};
use crate::gain_tables::{QUA_GAIN_6B, QUA_GAIN_7B};
use crate::math::{
    dot_product12, law_logarithm_rises, law_power_rises, lemma_dot_exponent, lemma_energy_positive,
    lemma_logarithm_fraction, log2, mac_run, pow2, spec_dot_product12,
};

verus! {

/// Samples in a subframe.
pub const L_SUBFR: usize = 64;

/// Candidates evaluated by one search, and the size of the 7-bit sliding
/// window.
pub const RANGE: usize = 64;

/// How many bits the mode spends on the gain pair.
#[derive(Clone, Copy, Debug, PartialEq, Eq, Structural, Hash)]
pub enum GainBits {
    /// Six bits, at 6.60 and 8.85 kbit/s.
    Six,
    /// Seven bits, at 12.65 kbit/s and above.
    Seven,
}

impl GainBits {
    /// The width a frame of `frame_bits` bits uses: seven bits from 12.65
    /// kbit/s (253 bits per frame) upward.
    #[must_use]
    pub fn from_frame_bits(frame_bits: usize) -> (b: Self)
        ensures
            b == if frame_bits <= 177 {
                GainBits::Six
            } else {
                GainBits::Seven
            },
    {
        if frame_bits <= 177 {
            GainBits::Six
        } else {
            GainBits::Seven
        }
    }

    /// Bits transmitted.
    #[must_use]
    pub fn bits(self) -> (n: usize)
        ensures
            n == if self == GainBits::Six {
                6int
            } else {
                7
            },
    {
        match self {
            GainBits::Six => 6,
            GainBits::Seven => 7,
        }
    }
}

/// The energy of the filtered adaptive vector and its correlation with the
/// target, which the pitch gain search already produced.
#[derive(Clone, Copy, Debug, PartialEq, Eq, Structural)]
pub struct PitchCorrelations {
    /// Energy mantissa.
    pub energy: Word16,
    /// Exponent of `energy`.
    pub energy_exp: i16,
    /// Correlation mantissa.
    pub correlation: Word16,
    /// Exponent of `correlation`.
    pub correlation_exp: i16,
}

/// Everything one subframe's gain quantisation reads.
pub struct GainInputs<'a> {
    /// Pitch target, in `target_q`.
    pub target: &'a [Word16; L_SUBFR],
    /// Filtered adaptive codebook vector, in `target_q`.
    pub filtered_adaptive: &'a [Word16; L_SUBFR],
    /// The Q of `target` and `filtered_adaptive`.
    pub target_q: i16,
    /// Filtered innovative vector, Q9: the codebook search's output, *not*
    /// re-filtered after the codeword was sharpened.
    pub filtered_code: &'a [Word16; L_SUBFR],
    /// Innovative vector, Q9, after pre-emphasis and pitch sharpening.
    pub code: &'a [Word16; L_SUBFR],
    /// Correlations from the pitch gain computation.
    pub correlations: PitchCorrelations,
    /// Table width for this mode.
    pub bits: GainBits,
    /// The *unquantised* pitch gain, Q14. Only the 7-bit search reads it, to
    /// place its sliding window.
    pub pitch_gain: Word16,
    /// Whether the pitch-gain clipping guard is active this subframe.
    pub clip_pitch_gain: bool,
}

/// What one subframe's gain quantisation reads, as plain values.
pub struct GainView {
    pub target: Seq<Word16>,
    pub filtered_adaptive: Seq<Word16>,
    pub target_q: i16,
    pub filtered_code: Seq<Word16>,
    pub code: Seq<Word16>,
    pub correlations: PitchCorrelations,
    pub bits: GainBits,
    pub pitch_gain: Word16,
    pub clip_pitch_gain: bool,
}

impl<'a> GainInputs<'a> {
    /// The inputs as plain values.
    pub open spec fn view(self) -> GainView {
        GainView {
            target: self.target@,
            filtered_adaptive: self.filtered_adaptive@,
            target_q: self.target_q,
            filtered_code: self.filtered_code@,
            code: self.code@,
            correlations: self.correlations,
            bits: self.bits,
            pitch_gain: self.pitch_gain,
            clip_pitch_gain: self.clip_pitch_gain,
        }
    }
}

/// Whether a sum fits a word.
pub open spec fn fits_word(x: int) -> bool {
    -32768 <= x <= 32767
}

/// Every sum that the alignment of the five coefficients forms out of their
/// exponents fits a word.
pub open spec fn exponents_fit(inputs: GainView, exp_gcode0: int) -> bool {
    let yy2 = spec_dot_product12(inputs.filtered_code, inputs.filtered_code).1;
    let xy2 = spec_dot_product12(inputs.target, inputs.filtered_code).1;
    let y1y2 = spec_dot_product12(inputs.filtered_adaptive, inputs.filtered_code).1;
    let q = inputs.target_q as int;
    let exps = coefficient_exponents(inputs, exp_gcode0);
    &&& fits_word(inputs.correlations.correlation_exp + 1)
    &&& fits_word(2 * q)
    &&& fits_word(yy2 - 18 + 2 * q)
    &&& fits_word(yy2 - 18 + 2 * q + 15)
    &&& fits_word(xy2 - 8 + q)
    &&& fits_word(y1y2 - 8 + q)
    &&& fits_word(y1y2 - 8 + q + 1)
    &&& forall|i: int|
        0 <= i < 5 ==> fits_word(#[trigger] exps[i]) && fits_word(largest(exps) - exps[i] + 2)
}

/// Exponents within a thousand either way, far beyond any that a normalised
/// signal has, leave room for every sum.
pub proof fn lemma_small_exponents_fit(past: Seq<Word16>, inputs: GainView)
    requires
        -1000 <= inputs.target_q <= 1000,
        -1000 <= inputs.correlations.energy_exp <= 1000,
        -1000 <= inputs.correlations.correlation_exp <= 1000,
    ensures
        exponents_fit(inputs, prediction(past, inputs.code).1.0 as int),
{
    lemma_prediction_exponent(predicted_decibels(past, inputs.code));
    lemma_dot_exponent(inputs.filtered_code, inputs.filtered_code);
    lemma_dot_exponent(inputs.target, inputs.filtered_code);
    lemma_dot_exponent(inputs.filtered_adaptive, inputs.filtered_code);
}

/// The chosen gain pair and the index that names it.
#[derive(Clone, Copy, Debug, PartialEq, Eq, Structural)]
pub struct QuantisedGains {
    /// Absolute table index, 0..63 for six bits or 0..127 for seven. This is
    /// what goes into the bitstream.
    pub index: u16,
    /// Quantised pitch gain, Q14.
    pub pitch_gain: Word16,
    /// Quantised code gain, Q16.
    pub code_gain: Word32,
}

// ---------------------------------------------------------------------------
// Prediction
// ---------------------------------------------------------------------------

/// The energy in dB, Q10, of a table's code gain correction.
#[verifier::opaque]
pub open spec fn table_energy(table_gain: Word16) -> Word16 {
    let (exponent, fraction) = log2(l_deposit_l(table_gain));
    let scaled = mpy_32_16(sub_s(Word16(exponent), Word16(11)), fraction, Word16(24660));
    extract_l(l_shr(scaled, 3))
}

/// The predicted gain in dB: the mean energy less the codeword's, plus the
/// moving average of past energies.
#[verifier::opaque]
pub open spec fn predicted_decibels(past: Seq<Word16>, code: Seq<Word16>) -> Word16 {
    let (energy, exponent) = spec_dot_product12(code, code);
    let (log_int, log_frac) = log2(energy);
    let whole = (log_int + exponent - 55) as i16;
    let acc = l_mac(
        mpy_32_16(Word16(whole), log_frac, Word16(-24660i16)),
        Word16(30),
        Word16(8192),
    );
    let p0 = l_mac(l_shl(acc, 10), Word16(4096), past[0]);
    let p1 = l_mac(p0, Word16(3277), past[1]);
    let p2 = l_mac(p1, Word16(2458), past[2]);
    extract_h(l_mac(p2, Word16(1638), past[3]))
}

/// The predicted gain: a mantissa and its exponent.
#[verifier::opaque]
pub open spec fn predicted_gain(decibels: Word16) -> (Word16, Word16) {
    let (exponent, fraction) = l_extract(l_shr(l_mult(decibels, Word16(5443)), 8));
    (extract_l(pow2(14, fraction)), sub_s(exponent, Word16(14)))
}

/// The prediction for a subframe.
pub open spec fn prediction(past: Seq<Word16>, code: Seq<Word16>) -> (Word16, Word16) {
    predicted_gain(predicted_decibels(past, code))
}

/// The exponent of a predicted gain is small.
proof fn lemma_prediction_exponent(decibels: Word16)
    ensures
        -40 <= predicted_gain(decibels).1.0 <= 10,
{
    reveal(predicted_gain);
    reveal(crate::fixed_point::spec_l_mult);
    reveal(crate::fixed_point::spec_l_extract);
    reveal(crate::fixed_point::spec_sub_s);
    vstd::arithmetic::power2::lemma2_to64();
    let x = l_mult(decibels, Word16(5443));
    lemma_l_shr(x, 8, 256);
}

// ---------------------------------------------------------------------------
// The search
// ---------------------------------------------------------------------------

/// How many of the first `n` pairs from 32 upward have a pitch gain strictly
/// below `gain`: where the 64-entry window starts.
pub open spec fn window_start(gain: Word16, n: int) -> int
    decreases n,
{
    if n <= 0 {
        0
    } else {
        window_start(gain, n - 1) + if gain.0 > QUA_GAIN_7B@[64 + 2 * (n - 1)] {
            1int
        } else {
            0
        }
    }
}

/// The codebook of a width.
pub open spec fn gain_codebook(bits: GainBits) -> Seq<i16> {
    if bits == GainBits::Six {
        QUA_GAIN_6B@
    } else {
        QUA_GAIN_7B@
    }
}

/// The first pair that is searched, and how many are. Clipping shortens the
/// six-bit search, and holds back the start of the seven-bit one.
pub open spec fn search_window(bits: GainBits, clip: bool, gain: Word16) -> (int, int) {
    if bits == GainBits::Six {
        (
            0,
            if clip {
                48
            } else {
                64
            },
        )
    } else {
        (
            window_start(
                gain,
                if clip {
                    37
                } else {
                    64
                },
            ),
            64,
        )
    }
}

/// The five coefficients of the distortion, before alignment.
pub open spec fn raw_coefficients(inputs: GainView) -> Seq<Word16> {
    let yy2 = spec_dot_product12(inputs.filtered_code, inputs.filtered_code);
    let xy2 = spec_dot_product12(inputs.target, inputs.filtered_code);
    let y1y2 = spec_dot_product12(inputs.filtered_adaptive, inputs.filtered_code);
    seq![
        inputs.correlations.energy,
        negate(inputs.correlations.correlation),
        extract_h(yy2.0),
        extract_h(l_negate(xy2.0)),
        extract_h(y1y2.0),
    ]
}

/// The exponents that the coefficients carry into the distortion.
pub open spec fn coefficient_exponents(inputs: GainView, exp_gcode0: int) -> Seq<int> {
    let yy2 = spec_dot_product12(inputs.filtered_code, inputs.filtered_code);
    let xy2 = spec_dot_product12(inputs.target, inputs.filtered_code);
    let y1y2 = spec_dot_product12(inputs.filtered_adaptive, inputs.filtered_code);
    let q = inputs.target_q as int;
    let code = exp_gcode0 + 4;
    seq![
        inputs.correlations.energy_exp - 13,
        inputs.correlations.correlation_exp + 1 - 14,
        yy2.1 - 18 + 2 * q + 15 + 2 * code,
        xy2.1 - 8 + q + code,
        y1y2.1 - 8 + q + 1 + code,
    ]
}

/// The largest of five.
pub open spec fn largest(s: Seq<int>) -> int {
    let a = if s[1] > s[0] {
        s[1]
    } else {
        s[0]
    };
    let b = if s[2] > a {
        s[2]
    } else {
        a
    };
    let c = if s[3] > b {
        s[3]
    } else {
        b
    };
    if s[4] > c {
        s[4]
    } else {
        c
    }
}

/// Coefficient `i` on the common exponent, with a quarter of headroom: high
/// and low half.
pub open spec fn aligned_coefficient(inputs: GainView, exp_gcode0: int, i: int) -> (
    Word16,
    Word16,
) {
    let exps = coefficient_exponents(inputs, exp_gcode0);
    let down = (largest(exps) - exps[i] + 2) as i16;
    let (hi, lo) = l_extract(l_shr(l_deposit_h(raw_coefficients(inputs)[i]), down));
    (hi, shr(lo, 3))
}

/// The coefficients on their common exponent.
pub open spec fn aligned(inputs: GainView, exp_gcode0: int) -> Seq<(Word16, Word16)> {
    Seq::new(5, |i: int| aligned_coefficient(inputs, exp_gcode0, i))
}

/// The distortion of a pair: the low halves first, shifted down, and the high
/// halves on top.
#[verifier::opaque]
pub open spec fn distortion(
    coeff: Seq<(Word16, Word16)>,
    pitch: Word16,
    correction: Word16,
    gcode0: Word16,
) -> Word32 {
    let code = mult_r(correction, gcode0);
    let pitch2 = mult_r(pitch, pitch);
    let both = mult_r(code, pitch);
    let (code2, code2_lo) = l_extract(l_mult(code, code));
    let a0 = l_shr(l_mult(coeff[2].0, code2_lo), 3);
    let a1 = l_mac(a0, coeff[0].1, pitch2);
    let a2 = l_mac(a1, coeff[1].1, pitch);
    let a3 = l_mac(a2, coeff[2].1, code2);
    let a4 = l_mac(a3, coeff[3].1, code);
    let a5 = l_shr(l_mac(a4, coeff[4].1, both), 12);
    let b1 = l_mac(a5, coeff[0].0, pitch2);
    let b2 = l_mac(b1, coeff[1].0, pitch);
    let b3 = l_mac(b2, coeff[2].0, code2);
    let b4 = l_mac(b3, coeff[3].0, code);
    l_mac(b4, coeff[4].0, both)
}

/// The distortion of the pair `index` of a codebook.
pub open spec fn pair_distortion(
    coeff: Seq<(Word16, Word16)>,
    book: Seq<i16>,
    gcode0: Word16,
    index: int,
) -> Word32 {
    distortion(coeff, Word16(book[2 * index]), Word16(book[2 * index + 1]), gcode0)
}

/// The smallest distortion among `n` pairs from `first`, and which pair has
/// it; equal distortions keep the lowest.
pub open spec fn best_pair(
    coeff: Seq<(Word16, Word16)>,
    book: Seq<i16>,
    gcode0: Word16,
    first: int,
    n: int,
) -> (Word32, int)
    decreases n,
{
    if n <= 0 {
        (Word32(0x7fff_ffff), 0)
    } else {
        let best = best_pair(coeff, book, gcode0, first, n - 1);
        let d = pair_distortion(coeff, book, gcode0, first + n - 1);
        if d.0 < best.0.0 {
            (d, n - 1)
        } else {
            best
        }
    }
}

/// The index that a subframe's quantisation chooses.
pub open spec fn chosen_index(past: Seq<Word16>, inputs: GainView) -> int {
    let (gcode0, exp_gcode0) = prediction(past, inputs.code);
    let (first, size) = search_window(inputs.bits, inputs.clip_pitch_gain, inputs.pitch_gain);
    first + best_pair(
        aligned(inputs, exp_gcode0.0 as int),
        gain_codebook(inputs.bits),
        gcode0,
        first,
        size,
    ).1
}

/// Whether a pair of the search window is its best: none has a smaller
/// distortion, and none of lower index an equal one.
pub open spec fn best_of_window(past: Seq<Word16>, inputs: GainView, index: int) -> bool {
    let (gcode0, exp_gcode0) = prediction(past, inputs.code);
    let (first, size) = search_window(inputs.bits, inputs.clip_pitch_gain, inputs.pitch_gain);
    let coeff = aligned(inputs, exp_gcode0.0 as int);
    let book = gain_codebook(inputs.bits);
    &&& first <= index < first + size
    &&& forall|i: int|
        first <= i < first + size ==> pair_distortion(coeff, book, gcode0, index).0
            <= #[trigger] pair_distortion(coeff, book, gcode0, i).0
    &&& forall|i: int|
        first <= i < index ==> pair_distortion(coeff, book, gcode0, index).0
            < #[trigger] pair_distortion(coeff, book, gcode0, i).0
}

/// The past energies after one more, newest first.
pub open spec fn remembered(past: Seq<Word16>, energy: Word16) -> Seq<Word16> {
    seq![energy, past[0], past[1], past[2]]
}

/// The moving-average predictor of innovation energy, and the search that
/// updates it.
///
/// One instance per encoder. The state advances once per subframe and is never
/// reset between subframes or frames, only by a full encoder reset.
#[derive(Clone, Copy, Debug, PartialEq, Eq)]
pub struct GainPredictor {
    /// Last four quantised innovation energies, most recent first, Q10.
    pub past_energy: [Word16; 4],
}

/// The predictor out of reset: -14 dB throughout.
pub open spec fn reset_energies() -> Seq<Word16> {
    Seq::new(4, |i: int| Word16(-14336i16))
}

impl Default for GainPredictor {
    fn default() -> (p: Self)
        ensures
            p.past_energy@ == reset_energies(),
    {
        GainPredictor::new()
    }
}

/// Turn a predicted level in decibels into a gain: a mantissa and its exponent.
pub fn gain_of_decibels(decibels: Word16) -> (r: (Word16, Word16))
    ensures
        r == predicted_gain(decibels),
        -40 <= r.1.0 <= 10,
{
    proof {
        reveal(predicted_gain);
        lemma_prediction_exponent(decibels);
        reveal(crate::fixed_point::spec_l_extract);
    }
    let (exponent, fraction) = l_extract(l_shr(l_mult(decibels, Word16(5443)), 8));
    (extract_l(pow2(14, fraction)), sub_s(exponent, Word16(14)))
}

impl GainPredictor {
    /// A predictor in its reset state.
    #[must_use]
    pub fn new() -> (p: Self)
        ensures
            p.past_energy@ == reset_energies(),
    {
        let p = GainPredictor { past_energy: [Word16(-14336); 4] };
        assert(p.past_energy@ =~= reset_energies());
        p
    }

    /// Return to the reset state.
    pub fn reset(&mut self)
        ensures
            final(self).past_energy@ == reset_energies(),
    {
        self.past_energy = [Word16(-14336); 4];
        assert(self.past_energy@ =~= reset_energies());
    }

    /// Record a quantised code gain in the predictor.
    ///
    /// `table_gain` is the **raw Q11 table entry**, not the gain that was
    /// finally applied.
    pub fn remember(&mut self, _ctx: &mut DspContext, table_gain: Word16)
        ensures
            final(self).past_energy@ == remembered(
                old(self).past_energy@,
                table_energy(table_gain),
            ),
    {
        proof {
            reveal(table_energy);
        }
        let (exponent, fraction) = log2(l_deposit_l(table_gain));
        let scaled = mpy_32_16(sub_s(Word16(exponent), Word16(11)), fraction, Word16(24660));
        let energy = extract_l(l_shr(scaled, 3));
        let ghost past = self.past_energy@;
        self.past_energy = [
            energy,
            self.past_energy[0],
            self.past_energy[1],
            self.past_energy[2],
        ];
        assert(self.past_energy@ =~= remembered(past, energy));
    }

    /// Predict this subframe's innovation gain from the codeword's energy and
    /// the predictor state: a mantissa and its exponent.
    pub fn predict(self, _ctx: &mut DspContext, code: &[Word16; L_SUBFR]) -> (r: (Word16, Word16))
        ensures
            r == prediction(self.past_energy@, code@),
            -40 <= r.1.0 <= 10,
    {
        proof {
            reveal(predicted_decibels);
        }
        let (energy, exponent) = dot_product12(code, code);
        let (log_int, log_frac) = log2(energy);
        // The codeword is Q9, squared over 64 samples, from a Q31 mantissa.
        let whole: i16 = log_int + exponent - 55;
        let mut acc = mpy_32_16(Word16(whole), log_frac, Word16(-24660));
        acc = l_mac(acc, Word16(30), Word16(8192));
        acc = l_shl(acc, 10);
        acc = l_mac(acc, Word16(4096), self.past_energy[0]);
        acc = l_mac(acc, Word16(3277), self.past_energy[1]);
        acc = l_mac(acc, Word16(2458), self.past_energy[2]);
        acc = l_mac(acc, Word16(1638), self.past_energy[3]);
        gain_of_decibels(extract_h(acc))
    }

    /// The first pair the search covers, and how many it does.
    pub fn window(inputs: &GainInputs<'_>) -> (r: (usize, usize))
        ensures
            (r.0 as int, r.1 as int) == search_window(
                inputs.bits,
                inputs.clip_pitch_gain,
                inputs.pitch_gain,
            ),
            2 * (r.0 + r.1) <= gain_codebook(inputs.bits).len(),
            1 <= r.1 <= 64,
    {
        match inputs.bits {
            GainBits::Six => {
                if inputs.clip_pitch_gain {
                    (0, RANGE - 16)
                } else {
                    (0, RANGE)
                }
            },
            GainBits::Seven => {
                let scanned: usize = if inputs.clip_pitch_gain {
                    RANGE - 27
                } else {
                    RANGE
                };
                let mut first: usize = 0;
                for i in 0..scanned
                    invariant
                        scanned <= 64,
                        first <= i,
                        first == window_start(inputs.pitch_gain, i as int),
                {
                    if inputs.pitch_gain.0 > QUA_GAIN_7B[RANGE + 2 * i] {
                        first = first + 1;
                    }
                }
                (first, RANGE)
            },
        }
    }

    /// Quantise one subframe's gain pair, and advance the predictor.
    ///
    /// The search evaluates every candidate in its window and accepts strictly
    /// smaller distortions only, so equal distortions keep the lowest index.
    pub fn quantise(&mut self, ctx: &mut DspContext, inputs: &GainInputs<'_>) -> (r: QuantisedGains)
        requires
            exponents_fit(
                inputs@,
                prediction(old(self).past_energy@, inputs.code@).1.0 as int,
            ),
        ensures
            ({
                let past = old(self).past_energy@;
                let (gcode0, exp_gcode0) = prediction(past, inputs.code@);
                let book = gain_codebook(inputs.bits);
                let i = chosen_index(past, inputs@);
                &&& r.index == i
                &&& r.pitch_gain == Word16(book[2 * i])
                &&& r.code_gain == l_shl(
                    l_mult(Word16(book[2 * i + 1]), gcode0),
                    add_s(exp_gcode0, Word16(4)).0,
                )
                &&& final(self).past_energy@ == remembered(
                    past,
                    table_energy(Word16(book[2 * i + 1])),
                )
            }),
            best_of_window(old(self).past_energy@, inputs@, r.index as int),
            r.index < if inputs.bits == GainBits::Six {
                64int
            } else {
                128
            },
    {
        proof {
            law_chosen_index_is_the_best(self.past_energy@, inputs@);
        }
        let (first, size) = Self::window(inputs);
        let (gcode0, exp_gcode0) = self.predict(ctx, inputs.code);
        let (coeff, coeff_lo) = align_coefficients(inputs, exp_gcode0);
        let ghost pairs = aligned(inputs@, exp_gcode0.0 as int);
        let ghost book = gain_codebook(inputs.bits);
        let six: bool = inputs.bits == GainBits::Six;
        let mut smallest = Word32(0x7fff_ffff);
        let mut best: usize = 0;
        for i in 0..size
            invariant
                book == gain_codebook(inputs.bits),
                six == (inputs.bits == GainBits::Six),
                2 * (first + size) <= book.len(),
                1 <= size <= 64,
                best < size,
                pairs.len() == 5,
                forall|j: int| 0 <= j < 5 ==> #[trigger] pairs[j] == (coeff@[j], coeff_lo@[j]),
                (smallest, best as int) == best_pair(pairs, book, gcode0, first as int, i as int),
        {
            let pair: usize = 2 * (first + i);
            let g_pitch = Word16(
                if six {
                    QUA_GAIN_6B[pair]
                } else {
                    QUA_GAIN_7B[pair]
                },
            );
            let correction = Word16(
                if six {
                    QUA_GAIN_6B[pair + 1]
                } else {
                    QUA_GAIN_7B[pair + 1]
                },
            );
            proof {
                reveal(distortion);
                assert(pairs[0] == (coeff@[0], coeff_lo@[0]));
                assert(pairs[1] == (coeff@[1], coeff_lo@[1]));
                assert(pairs[2] == (coeff@[2], coeff_lo@[2]));
                assert(pairs[3] == (coeff@[3], coeff_lo@[3]));
                assert(pairs[4] == (coeff@[4], coeff_lo@[4]));
            }
            let g_code = mult_r(correction, gcode0);
            let g2_pitch = mult_r(g_pitch, g_pitch);
            let g_pit_cod = mult_r(g_code, g_pitch);
            let (g2_code, g2_code_lo) = l_extract(l_mult(g_code, g_code));
            let mut acc = l_shr(l_mult(coeff[2], g2_code_lo), 3);
            acc = l_mac(acc, coeff_lo[0], g2_pitch);
            acc = l_mac(acc, coeff_lo[1], g_pitch);
            acc = l_mac(acc, coeff_lo[2], g2_code);
            acc = l_mac(acc, coeff_lo[3], g_code);
            acc = l_mac(acc, coeff_lo[4], g_pit_cod);
            acc = l_shr(acc, 12);
            acc = l_mac(acc, coeff[0], g2_pitch);
            acc = l_mac(acc, coeff[1], g_pitch);
            acc = l_mac(acc, coeff[2], g2_code);
            acc = l_mac(acc, coeff[3], g_code);
            acc = l_mac(acc, coeff[4], g_pit_cod);
            if beats(acc, smallest) {
                smallest = acc;
                best = i;
            }
        }
        let index: usize = first + best;
        let pitch_gain = Word16(
            if six {
                QUA_GAIN_6B[2 * index]
            } else {
                QUA_GAIN_7B[2 * index]
            },
        );
        let table_gain = Word16(
            if six {
                QUA_GAIN_6B[2 * index + 1]
            } else {
                QUA_GAIN_7B[2 * index + 1]
            },
        );
        let code_gain = l_shl(l_mult(table_gain, gcode0), add_s(exp_gcode0, Word16(4)).0);
        self.remember(ctx, table_gain);
        QuantisedGains { index: index as u16, pitch_gain, code_gain }
    }
}

/// Whether a candidate's distortion displaces the incumbent's: only when it is
/// strictly smaller.
pub fn beats(candidate: Word32, incumbent: Word32) -> (r: bool)
    ensures
        r == (candidate.0 < incumbent.0),
{
    candidate.0 < incumbent.0
}

/// The five correlation coefficients, rescaled to a common exponent and split
/// into high and low halves for the double-precision distortion sum.
fn align_coefficients(inputs: &GainInputs<'_>, exp_gcode0: Word16) -> (r: (
    [Word16; 5],
    [Word16; 5],
))
    requires
        exponents_fit(inputs@, exp_gcode0.0 as int),
        -40 <= exp_gcode0.0 <= 10,
    ensures
        forall|i: int|
            0 <= i < 5 ==> #[trigger] aligned(inputs@, exp_gcode0.0 as int)[i] == (
                r.0@[i],
                r.1@[i],
            ),
{
    let g = inputs.correlations;
    let q: i16 = inputs.target_q;
    let (yy2, exp_yy2) = dot_product12(inputs.filtered_code, inputs.filtered_code);
    let (xy2, exp_xy2) = dot_product12(inputs.target, inputs.filtered_code);
    let (y1y2, exp_y1y2) = dot_product12(inputs.filtered_adaptive, inputs.filtered_code);
    let raw: [Word16; 5] = [
        g.energy,
        negate(g.correlation),
        extract_h(yy2),
        extract_h(l_negate(xy2)),
        extract_h(y1y2),
    ];
    let exp_code: i16 = exp_gcode0.0 + 4;
    let ghost want = coefficient_exponents(inputs@, exp_gcode0.0 as int);
    assert(fits_word(want[0]) && fits_word(want[1]) && fits_word(want[2]) && fits_word(want[3])
        && fits_word(want[4]));
    let exps: [i16; 5] = [
        g.energy_exp - 13,
        g.correlation_exp + 1 - 14,
        exp_yy2 - 18 + 2 * q + 15 + 2 * exp_code,
        exp_xy2 - 8 + q + exp_code,
        exp_y1y2 - 8 + q + 1 + exp_code,
    ];
    let mut top: i16 = exps[0];
    if exps[1] > top {
        top = exps[1];
    }
    if exps[2] > top {
        top = exps[2];
    }
    if exps[3] > top {
        top = exps[3];
    }
    if exps[4] > top {
        top = exps[4];
    }
    assert(raw@ =~= raw_coefficients(inputs@));
    assert(top == largest(want));
    assert forall|j: int| 0 <= j < 5 implies 2 <= top - #[trigger] exps@[j] + 2 <= 32767 by {
        assert(fits_word(want[j]));
    }
    let mut coeff: [Word16; 5] = [Word16(0); 5];
    let mut coeff_lo: [Word16; 5] = [Word16(0); 5];
    for i in 0..5usize
        invariant
            want == coefficient_exponents(inputs@, exp_gcode0.0 as int),
            top == largest(want),
            forall|j: int| 0 <= j < 5 ==> #[trigger] exps@[j] == want[j],
            forall|j: int| 0 <= j < 5 ==> 2 <= top - #[trigger] exps@[j] + 2 <= 32767,
            raw@ == raw_coefficients(inputs@),
            forall|j: int|
                0 <= j < i ==> #[trigger] aligned_coefficient(
                    inputs@,
                    exp_gcode0.0 as int,
                    j,
                ) == (coeff@[j], coeff_lo@[j]),
    {
        let down: i16 = top - exps[i] + 2;
        let (hi, lo) = l_extract(l_shr(l_deposit_h(raw[i]), down));
        coeff[i] = hi;
        coeff_lo[i] = shr(lo, 3);
    }
    (coeff, coeff_lo)
}

/// Rescale a Q16 code gain to the frame's own Q, as the caller does before
/// building the total excitation.
#[must_use]
pub fn scale_code_gain(_ctx: &mut DspContext, code_gain: Word32, frame_q: i16) -> (r: Word16)
    ensures
        r == round(l_shl(code_gain, frame_q)),
{
    round(l_shl(code_gain, frame_q))
}

/// No pair of the window is better than the chosen one, and none before it is
/// as good: equal distortions keep the lowest index.
pub proof fn law_equal_distortions_keep_the_lowest(
    coeff: Seq<(Word16, Word16)>,
    book: Seq<i16>,
    gcode0: Word16,
    first: int,
    n: int,
    i: int,
)
    requires
        0 <= i < n,
    ensures
        ({
            let best = best_pair(coeff, book, gcode0, first, n);
            let d = pair_distortion(coeff, book, gcode0, first + i);
            &&& 0 <= best.1 < n
            &&& best.0.0 <= d.0
            &&& i < best.1 ==> best.0.0 < d.0
            &&& best.0.0 < 0x7fff_ffff ==> best.0 == pair_distortion(
                coeff,
                book,
                gcode0,
                first + best.1,
            )
        }),
    decreases n,
{
    if n > 1 {
        let j = if i < n - 1 {
            i
        } else {
            0
        };
        law_equal_distortions_keep_the_lowest(coeff, book, gcode0, first, n - 1, j);
        if i == n - 1 {
            law_equal_distortions_keep_the_lowest(coeff, book, gcode0, first, n - 1, 0);
        }
    } else {
        assert(best_pair(coeff, book, gcode0, first, 0) == (Word32(0x7fff_ffff), 0int));
    }
}

/// Whatever is quantised, the chosen index is the best of its window.
pub proof fn law_chosen_index_is_the_best(past: Seq<Word16>, inputs: GainView)
    ensures
        best_of_window(past, inputs, chosen_index(past, inputs)),
{
    let (gcode0, exp_gcode0) = prediction(past, inputs.code);
    let (first, size) = search_window(inputs.bits, inputs.clip_pitch_gain, inputs.pitch_gain);
    let coeff = aligned(inputs, exp_gcode0.0 as int);
    let book = gain_codebook(inputs.bits);
    let best = best_pair(coeff, book, gcode0, first, size);
    law_equal_distortions_keep_the_lowest(coeff, book, gcode0, first, size, 0);
    law_equal_distortions_keep_the_lowest(coeff, book, gcode0, first, size, best.1);
    assert(best.0 == pair_distortion(coeff, book, gcode0, first + best.1));
    assert forall|i: int| first <= i < first + size implies best.0.0
        <= #[trigger] pair_distortion(coeff, book, gcode0, i).0 by {
        law_equal_distortions_keep_the_lowest(coeff, book, gcode0, first, size, i - first);
    }
    assert forall|i: int| first <= i < first + best.1 implies best.0.0
        < #[trigger] pair_distortion(coeff, book, gcode0, i).0 by {
        law_equal_distortions_keep_the_lowest(coeff, book, gcode0, first, size, i - first);
    }
}

/// The window starts no further in than it was scanned.
proof fn lemma_window_start(gain: Word16, n: int)
    requires
        n >= 0,
    ensures
        0 <= window_start(gain, n) <= n,
    decreases n,
{
    if n > 0 {
        lemma_window_start(gain, n - 1);
    }
}

/// Whatever is quantised, the index fits the width it is sent in.
pub proof fn law_gain_index_fits(past: Seq<Word16>, inputs: GainView)
    ensures
        0 <= chosen_index(past, inputs) < if inputs.bits == GainBits::Six {
            64int
        } else {
            128
        },
{
    let (gcode0, exp_gcode0) = prediction(past, inputs.code);
    let (first, size) = search_window(inputs.bits, inputs.clip_pitch_gain, inputs.pitch_gain);
    lemma_window_start(
        inputs.pitch_gain,
        if inputs.clip_pitch_gain {
            37
        } else {
            64
        },
    );
    law_equal_distortions_keep_the_lowest(
        aligned(inputs, exp_gcode0.0 as int),
        gain_codebook(inputs.bits),
        gcode0,
        first,
        size,
        0,
    );
}

/// What each coefficient of the distortion depends on: the adaptive vector's
/// own energy and its match with the target on what the pitch search found, the
/// codeword's energy on the codeword alone, its match on the target, and the
/// coupling of the two vectors on them both. The two matches count against the
/// distortion, the rest for it.
pub proof fn law_matches_lower_the_distortion(inputs: GainView, other: GainView)
    requires
        inputs.filtered_code == other.filtered_code,
    ensures
        ({
            let a = raw_coefficients(inputs);
            let b = raw_coefficients(other);
            &&& a[0] == inputs.correlations.energy
            &&& inputs.correlations.correlation.0 > -32768 ==> a[1].0
                == -inputs.correlations.correlation.0
            &&& a[2].0 >= 0x4000 && a[2] == b[2]
            &&& inputs.target == other.target ==> a[3] == b[3]
            &&& inputs.filtered_adaptive == other.filtered_adaptive ==> a[4] == b[4]
            &&& inputs.target == inputs.filtered_code ==> a[3].0 <= -0x4000
            &&& inputs.filtered_adaptive == inputs.filtered_code ==> a[4] == a[2]
        }),
{
    reveal(crate::fixed_point::spec_negate);
    reveal(crate::fixed_point::spec_l_negate);
    reveal(crate::fixed_point::spec_extract_h);
    let y = inputs.filtered_code;
    crate::math::lemma_energy_positive(Word32(1), y, 0, y.len() as int);
    crate::fixed_point::lemma_norm_l(
        crate::math::mac_run(Word32(1), y, 0, y, 0, crate::math::common_length(y, y)),
    );
}

/// The decibels of the codeword's own energy, below the mean.
pub open spec fn code_decibels(code: Seq<Word16>) -> Word32 {
    let (energy, exponent) = spec_dot_product12(code, code);
    let (whole, fraction) = log2(energy);
    l_shl(
        l_mac(
            mpy_32_16(Word16((whole + exponent - 55) as i16), fraction, Word16(-24660i16)),
            Word16(30),
            Word16(8192),
        ),
        10,
    )
}

/// The prediction weighs the last four energies, the newest most: half of it,
/// then two fifths, three tenths and a fifth, each in the units of the decibels
/// it predicts.
pub proof fn law_prediction_trusts_the_newest(past: Seq<Word16>, code: Seq<Word16>)
    requires
        past.len() == 4,
        -1200000000 <= code_decibels(code).0 <= 1200000000,
    ensures
        predicted_decibels(past, code).0 == (code_decibels(code).0 + 8192 * past[0].0 + 6554
            * past[1].0 + 4916 * past[2].0 + 3276 * past[3].0) / 65536,
        remembered(past, Word16(7))[0] == Word16(7),
        remembered(past, Word16(7)).subrange(1, 4) == past.subrange(0, 3),
{
    reveal(predicted_decibels);
    reveal(crate::fixed_point::spec_extract_h);
    let base = code_decibels(code);
    lemma_l_mac(base, Word16(4096), past[0]);
    let p0 = l_mac(base, Word16(4096), past[0]);
    lemma_l_mac(p0, Word16(3277), past[1]);
    let p1 = l_mac(p0, Word16(3277), past[1]);
    lemma_l_mac(p1, Word16(2458), past[2]);
    let p2 = l_mac(p1, Word16(2458), past[2]);
    lemma_l_mac(p2, Word16(1638), past[3]);
    assert(remembered(past, Word16(7)).subrange(1, 4) =~= past.subrange(0, 3));
}

/// The window of the seven-bit search starts no earlier for a larger gain, and
/// inside the codebook.
pub proof fn law_window_follows_the_gain(gain: Word16, larger: Word16, n: int)
    requires
        0 <= n <= 64,
        gain.0 <= larger.0,
    ensures
        0 <= window_start(gain, n) <= window_start(larger, n) <= n,
    decreases n,
{
    if n > 0 {
        law_window_follows_the_gain(gain, larger, n - 1);
    }
}

/// A double-precision number times a positive word, exactly.
proof fn lemma_scaled_number(hi: Word16, lo: Word16, n: i16)
    requires
        -100 <= hi.0 <= 100,
        0 <= lo.0,
        n == 24660 || n == -24660,
    ensures
        n == 24660 ==> mpy_32_16(hi, lo, Word16(n)).0 == 49320 * hi.0 + 2 * ((24660 * lo.0) / 32768),
        n == -24660 ==> mpy_32_16(hi, lo, Word16(n)).0 == -49320 * hi.0 + 2 * ((-24660 * lo.0) / 32768),
{
    reveal(crate::fixed_point::spec_mpy_32_16);
    reveal(crate::fixed_point::spec_mult);
    if n == 24660 {
        lemma_l_mac(Word32(0), hi, Word16(24660));
        let m = mult(lo, Word16(24660));
        assert(m.0 == (24660 * lo.0) / 32768 && m.0 * 1 == m.0);
        lemma_l_mac(l_mult(hi, Word16(24660)), m, Word16(1));
    } else {
        let w = Word16(-24660i16);
        let x = hi.0 as int;
        let y = lo.0 as int;
        let z = w.0 as int;
        assert(x * z == -24660 * x && y * z == -24660 * y) by (nonlinear_arith)
            requires
                z == -24660,
        ;
        lemma_l_mac(Word32(0), hi, w);
        let m = mult(lo, w);
        assert(m.0 == (-24660 * lo.0) / 32768 && m.0 * 1 == m.0);
        lemma_l_mac(l_mult(hi, Word16(-24660i16)), m, Word16(1));
    }
}

/// A larger correction of the table stands for no less energy.
pub proof fn law_larger_corrections_have_more_energy(table_gain: Word16, larger: Word16)
    requires
        64 <= table_gain.0 <= larger.0,
    ensures
        table_energy(table_gain).0 <= table_energy(larger).0,
{
    reveal(table_energy);
    reveal(crate::fixed_point::spec_l_deposit_l);
    reveal(crate::fixed_point::spec_sub_s);
    reveal(crate::fixed_point::spec_extract_l);
    vstd::arithmetic::power2::lemma2_to64();
    let x = l_deposit_l(table_gain);
    let y = l_deposit_l(larger);
    law_logarithm_rises(Word32(64), x);
    law_logarithm_rises(Word32(64), Word32(64));
    law_logarithm_rises(x, y);
    law_logarithm_rises(y, Word32(32767));
    law_logarithm_rises(Word32(32767), Word32(32767));
    lemma_logarithm_fraction(x);
    lemma_logarithm_fraction(y);
    let low = log2(Word32(64)).0;
    if low < 6 {
        vstd::arithmetic::power2::lemma_pow2_strictly_increases(low as nat, 6);
        if low < 5 {
            vstd::arithmetic::power2::lemma_pow2_strictly_increases(low as nat, 5);
        }
    }
    let high = log2(Word32(32767)).0;
    if high > 14 {
        if high > 15 {
            vstd::arithmetic::power2::lemma_pow2_strictly_increases(15, high as nat);
        }
    }
    let (a, f) = log2(x);
    let (b, g) = log2(y);
    assert(6 <= a <= b <= 14);
    let p = sub_s(Word16(a), Word16(11));
    let q = sub_s(Word16(b), Word16(11));
    lemma_scaled_number(p, f, 24660);
    lemma_scaled_number(q, g, 24660);
    let u = mpy_32_16(p, f, Word16(24660));
    let v = mpy_32_16(q, g, Word16(24660));
    assert(u.0 <= v.0);
    lemma_l_shr(u, 3, 8);
    lemma_l_shr(v, 3, 8);
}

/// More decibels are a larger gain: a higher exponent, or the same one with no
/// smaller mantissa, which is normalised.
pub proof fn law_predicted_gain_rises(decibels: Word16, more: Word16)
    requires
        decibels.0 <= more.0,
    ensures
        ({
            let (a, p) = predicted_gain(decibels);
            let (b, q) = predicted_gain(more);
            &&& p.0 <= q.0
            &&& p == q ==> a.0 <= b.0
            &&& 16384 <= a.0
        }),
{
    reveal(predicted_gain);
    reveal(crate::fixed_point::spec_l_extract);
    reveal(crate::fixed_point::spec_extract_l);
    reveal(crate::fixed_point::spec_sub_s);
    vstd::arithmetic::power2::lemma2_to64();
    lemma_l_mac(Word32(0), decibels, Word16(5443));
    lemma_l_mac(Word32(0), more, Word16(5443));
    let x = l_mult(decibels, Word16(5443));
    let y = l_mult(more, Word16(5443));
    lemma_l_shr(x, 8, 256);
    lemma_l_shr(y, 8, 256);
    let (e, f) = l_extract(l_shr(x, 8));
    let (g, h) = l_extract(l_shr(y, 8));
    assert(l_shr(x, 8).0 <= l_shr(y, 8).0);
    assert(0 <= f.0 && 0 <= h.0);
    assert(e.0 <= g.0 && (e == g ==> f.0 <= h.0));
    law_power_rises(14, f, f);
    law_power_rises(14, h, h);
    if f.0 <= h.0 {
        law_power_rises(14, f, h);
    }
}

/// A louder codeword needs no more gain: fewer decibels are predicted for it,
/// or as many.
pub proof fn law_louder_codewords_need_less(
    past: Seq<Word16>,
    code: Seq<Word16>,
    louder: Seq<Word16>,
)
    requires
        mac_run(Word32(1), code, 0, code, 0, code.len() as int).0 <= mac_run(
            Word32(1),
            louder,
            0,
            louder,
            0,
            louder.len() as int,
        ).0,
    ensures
        predicted_decibels(past, louder).0 <= predicted_decibels(past, code).0,
{
    reveal(predicted_decibels);
    vstd::arithmetic::power2::lemma2_to64();
    let s = mac_run(Word32(1), code, 0, code, 0, code.len() as int);
    let t = mac_run(Word32(1), louder, 0, louder, 0, louder.len() as int);
    lemma_energy_positive(Word32(1), code, 0, code.len() as int);
    lemma_energy_positive(Word32(1), louder, 0, louder.len() as int);
    lemma_larger_l_shifts_less(s, t);
    lemma_normalised(s);
    lemma_normalised(t);
    let (x, m) = spec_dot_product12(code, code);
    let (y, n) = spec_dot_product12(louder, louder);
    assert(x == l_shl(s, norm_l(s)) && y == l_shl(t, norm_l(t)));
    assert(m == 30 - norm_l(s) && n == 30 - norm_l(t));
    lemma_thirty(x);
    lemma_thirty(y);
    lemma_logarithm_fraction(x);
    lemma_logarithm_fraction(y);
    if m == n {
        law_logarithm_rises(x, y);
    }
    let f = log2(x).1;
    let g = log2(y).1;
    let p = Word16((30 + m - 55) as i16);
    let q = Word16((30 + n - 55) as i16);
    lemma_scaled_number(p, f, -24660i16);
    lemma_scaled_number(q, g, -24660i16);
    let u = mpy_32_16(p, f, Word16(-24660i16));
    let v = mpy_32_16(q, g, Word16(-24660i16));
    assert(v.0 <= u.0);
    lemma_l_mac(u, Word16(30), Word16(8192));
    lemma_l_mac(v, Word16(30), Word16(8192));
    let a = l_mac(u, Word16(30), Word16(8192));
    let b = l_mac(v, Word16(30), Word16(8192));
    lemma_l_shl(a, 10, 1024);
    lemma_l_shl(b, 10, 1024);
    reveal(crate::fixed_point::spec_l_mac);
    reveal(crate::fixed_point::spec_l_add);
    reveal(crate::fixed_point::spec_extract_h);
}

proof fn lemma_thirty(x: Word32)
    requires
        x.0 >= 0x4000_0000,
    ensures
        log2(x).0 == 30,
{
    law_logarithm_rises(x, x);
    vstd::arithmetic::power2::lemma2_to64();
    let e = log2(x).0;
    if e < 30 {
        vstd::arithmetic::power2::lemma_pow2_strictly_increases(e as nat, 30);
        vstd::arithmetic::power2::lemma_pow2_unfold((e + 1) as nat);
        if e + 1 < 30 {
            vstd::arithmetic::power2::lemma_pow2_strictly_increases((e + 1) as nat, 30);
        }
    }
}

} // verus!
