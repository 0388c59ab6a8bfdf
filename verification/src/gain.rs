//! Decoding the gains: the table pair on a good frame, an attenuated median of
//! recent gains on a bad one.

use vstd::prelude::*;
use crate::conceal::{FrameQuality, L_SUBFR};
use crate::enc::gain_quant::{
    gain_codebook, gain_of_decibels, predicted_gain, remembered, reset_energies, table_energy,
    GainBits, GainPredictor,
};
use crate::fixed_point::{
    add_s, extract_h, l_deposit_h, l_extract, l_mac, l_mult, l_shl, law_splits_keep_the_number,
    law_word_products_round_down, lemma_l_mac, lemma_l_shl, mpy_32_16, mult, round, sub_s, wide,
    DspContext, Word16, Word32,
};
use crate::gain_tables::{QUA_GAIN_6B, QUA_GAIN_7B};
use crate::math::{dot_product12, isqrt_n, spec_dot_product12};
use crate::order::{ascending, lemma_ascending, sort5};

verus! {

/// Pitch gain kept on a damaged frame, by severity, Q15.
pub const PITCH_DOWN_DAMAGED: [i16; 7] = [32767, 32113, 31457, 24576, 7537, 1638, 328];

/// Pitch gain kept on a lost frame, by severity, Q15.
pub const PITCH_DOWN_LOST: [i16; 7] = [32767, 31130, 29491, 24576, 7537, 1638, 328];

/// Code gain kept on a damaged frame, by severity, Q15.
pub const CODE_DOWN_DAMAGED: [i16; 7] = [32767, 32113, 32113, 32113, 32113, 32113, 22938];

/// Code gain kept on a lost frame, by severity, Q15.
pub const CODE_DOWN_LOST: [i16; 7] = [32767, 16384, 8192, 8192, 8192, 4915, 3277];

/// What the decoding of a gain depends on besides its index.
#[derive(Clone, Copy, Debug, PartialEq, Eq)]
pub struct FrameContext {
    /// How the frame arrived.
    pub quality: FrameQuality,
    /// The severity of the erasure, 0 to 6.
    pub erasure_state: usize,
    /// Frames since the encoder last saw voice activity.
    pub vad_history: i16,
    /// Whether the frame before this one was bad.
    pub previous_frame_bad: bool,
}

/// A subframe's gains.
#[derive(Clone, Copy, Debug, PartialEq, Eq)]
pub struct DecodedGains {
    /// Pitch gain, Q14.
    pub pitch: Word16,
    /// Code gain, Q16.
    pub code: Word32,
}

/// What is remembered of the gains, as plain values.
pub struct GainsView {
    /// Quantised innovation energies, newest first, Q10.
    pub past_energy: Seq<Word16>,
    /// The code gain of the last good subframe, Q3.
    pub previous_code: Word16,
    /// The last five pitch gains, oldest first, Q14.
    pub pitch: Seq<i16>,
    /// The last five code gains, oldest first, Q3.
    pub code: Seq<i16>,
}

/// The state before anything was decoded.
pub open spec fn gains_reset() -> GainsView {
    GainsView {
        past_energy: reset_energies(),
        previous_code: Word16(0),
        pitch: Seq::new(5, |i: int| 0i16),
        code: Seq::new(5, |i: int| 0i16),
    }
}

/// Five values without the oldest and with a new one.
pub open spec fn recent_with(s: Seq<i16>, v: i16) -> Seq<i16> {
    seq![s[1], s[2], s[3], s[4], v]
}

/// The median of five values.
pub open spec fn median(s: Seq<i16>) -> i16 {
    ascending(s)[2]
}

/// One over the root mean square of a codeword, Q12.
#[verifier::opaque]
pub open spec fn code_level(code: Seq<Word16>) -> Word16 {
    let (energy, exp) = spec_dot_product12(code, code);
    let (root, root_exp) = isqrt_n((energy, sub_s(Word16(exp), Word16(24)).0));
    extract_h(l_shl(root, sub_s(Word16(root_exp), Word16(3)).0))
}

/// The energy that a bad frame leaves: the mean of the last four, 3 dB down,
/// and no lower than the reset level.
#[verifier::opaque]
pub open spec fn faded_energy(past: Seq<Word16>) -> Word16 {
    let sum = l_mac(
        l_mac(
            l_mac(l_mult(past[0], Word16(8192)), past[1], Word16(8192)),
            past[2],
            Word16(8192),
        ),
        past[3],
        Word16(8192),
    );
    let mean = sub_s(extract_h(sum), Word16(3072));
    if mean.0 < -14336 {
        Word16(-14336i16)
    } else {
        mean
    }
}

/// The gain predicted from the last four energies: 30 dB and what they say.
#[verifier::opaque]
pub open spec fn expected_decibels(past: Seq<Word16>) -> Word16 {
    let p0 = l_mac(l_shl(l_deposit_h(Word16(30)), 8), Word16(4096), past[0]);
    let p1 = l_mac(p0, Word16(3277), past[1]);
    let p2 = l_mac(p1, Word16(2458), past[2]);
    extract_h(l_mac(p2, Word16(1638), past[3]))
}

/// The share of the pitch gain that a bad frame keeps.
pub open spec fn pitch_share(lost: bool, state: int) -> Word16 {
    if lost {
        Word16(PITCH_DOWN_LOST@[state])
    } else {
        Word16(PITCH_DOWN_DAMAGED@[state])
    }
}

/// The share of the code gain that a bad frame keeps.
pub open spec fn code_share(lost: bool, state: int) -> Word16 {
    if lost {
        Word16(CODE_DOWN_LOST@[state])
    } else {
        Word16(CODE_DOWN_DAMAGED@[state])
    }
}

/// The pitch gain that a bad frame starts from: the median of the last five,
/// 0.95 at most.
pub open spec fn concealed_pitch(g: GainsView) -> Word16 {
    if median(g.pitch) > 15565 {
        Word16(15565)
    } else {
        Word16(median(g.pitch))
    }
}

/// The code gain of a bad frame, Q3: the median of the last five, attenuated
/// unless the background has been playing for a while.
pub open spec fn concealed_code(g: GainsView, context: FrameContext) -> Word16 {
    let m = Word16(median(g.code));
    if context.vad_history > 2 {
        m
    } else {
        mult(
            code_share(context.quality == FrameQuality::Unusable, context.erasure_state as int),
            m,
        )
    }
}

/// The gain pair of an index.
pub open spec fn table_pair(index: int, bits: GainBits) -> (Word16, Word16) {
    let book = gain_codebook(bits);
    (Word16(book[2 * index]), Word16(book[2 * index + 1]))
}

/// The transmitted code gain before it is held back.
pub open spec fn sent_code(g: GainsView, index: int, bits: GainBits) -> Word32 {
    let (gcode0, exp) = predicted_gain(expected_decibels(g.past_energy));
    l_shl(l_mult(table_pair(index, bits).1, gcode0), add_s(exp, Word16(4)).0)
}

/// The code gain of a good frame, Q16 and still to be levelled: right after a
/// bad one it may not jump by more than a quarter above a hundred.
pub open spec fn held_code(g: GainsView, index: int, bits: GainBits, after_bad: bool) -> Word32 {
    let sent = sent_code(g, index, bits);
    let limit = l_mult(g.previous_code, Word16(5120));
    if after_bad && sent.0 > limit.0 && sent.0 > 6553600 {
        limit
    } else {
        sent
    }
}

/// A gain applied to a codeword of a given level.
pub open spec fn levelled_code(gain: Word32, level: Word16) -> Word32 {
    let (hi, lo) = l_extract(gain);
    l_shl(mpy_32_16(hi, lo, level), 3)
}

/// A subframe's gains.
pub open spec fn gains_of(
    g: GainsView,
    index: int,
    bits: GainBits,
    code: Seq<Word16>,
    context: FrameContext,
) -> DecodedGains {
    if context.quality != FrameQuality::Good {
        DecodedGains {
            pitch: mult(
                pitch_share(context.quality == FrameQuality::Unusable, context.erasure_state as int),
                concealed_pitch(g),
            ),
            code: l_mult(concealed_code(g, context), code_level(code)),
        }
    } else {
        DecodedGains {
            pitch: table_pair(index, bits).0,
            code: levelled_code(
                held_code(g, index, bits, context.previous_frame_bad),
                code_level(code),
            ),
        }
    }
}

/// What is remembered afterwards.
pub open spec fn gains_after(
    g: GainsView,
    index: int,
    bits: GainBits,
    context: FrameContext,
) -> GainsView {
    if context.quality != FrameQuality::Good {
        GainsView {
            past_energy: remembered(g.past_energy, faded_energy(g.past_energy)),
            previous_code: g.previous_code,
            pitch: recent_with(g.pitch, concealed_pitch(g).0),
            code: recent_with(g.code, concealed_code(g, context).0),
        }
    } else {
        let kept = round(l_shl(held_code(g, index, bits, context.previous_frame_bad), 3));
        GainsView {
            past_energy: remembered(g.past_energy, table_energy(table_pair(index, bits).1)),
            previous_code: kept,
            pitch: recent_with(g.pitch, table_pair(index, bits).0.0),
            code: recent_with(g.code, kept.0),
        }
    }
}

/// The gain decoder.
#[derive(Debug, Clone, Copy)]
pub struct GainDecoder {
    predictor: GainPredictor,
    previous_code: Word16,
    pitch: [i16; 5],
    code: [i16; 5],
}

/// One over the root mean square of a codeword.
fn level_of(code: &[Word16; L_SUBFR]) -> (level: Word16)
    ensures
        level == code_level(code@),
{
    proof {
        reveal(code_level);
    }
    let (energy, exp) = dot_product12(code, code);
    let (root, root_exp) = isqrt_n((energy, sub_s(Word16(exp), Word16(24)).0));
    extract_h(l_shl(root, sub_s(Word16(root_exp), Word16(3)).0))
}

impl GainDecoder {
    /// The state as plain values.
    pub closed spec fn view(&self) -> GainsView {
        GainsView {
            past_energy: self.predictor.past_energy@,
            previous_code: self.previous_code,
            pitch: self.pitch@,
            code: self.code@,
        }
    }

    /// A decoder in its reset state.
    #[must_use]
    pub fn new() -> (d: Self)
        ensures
            d@ == gains_reset(),
    {
        let d = GainDecoder {
            predictor: GainPredictor::new(),
            previous_code: Word16(0),
            pitch: [0; 5],
            code: [0; 5],
        };
        assert(d@.pitch =~= gains_reset().pitch);
        assert(d@.code =~= gains_reset().code);
        d
    }

    /// Decode one subframe's gains; the index of a bad frame is not read.
    pub fn decode(
        &mut self,
        index: u16,
        bits: GainBits,
        code: &[Word16; L_SUBFR],
        context: FrameContext,
    ) -> (gains: DecodedGains)
        requires
            index < if bits == GainBits::Six {
                64int
            } else {
                128
            },
            context.erasure_state <= 6,
        ensures
            gains == gains_of(old(self)@, index as int, bits, code@, context),
            final(self)@ == gains_after(old(self)@, index as int, bits, context),
    {
        let level = level_of(code);
        if context.quality != FrameQuality::Good {
            self.conceal(level, context)
        } else {
            self.read(index, bits, level, context.previous_frame_bad)
        }
    }

    /// The gains of a bad frame.
    fn conceal(&mut self, level: Word16, context: FrameContext) -> (gains: DecodedGains)
        requires
            context.quality != FrameQuality::Good,
            context.erasure_state <= 6,
        ensures
            forall|index: int, bits: GainBits, code: Seq<Word16>|
                code_level(code) == level ==> gains == #[trigger] gains_of(
                    old(self)@,
                    index,
                    bits,
                    code,
                    context,
                ),
            forall|index: int, bits: GainBits|
                final(self)@ == #[trigger] gains_after(old(self)@, index, bits, context),
    {
        proof {
            reveal(faded_energy);
            lemma_ascending(self.pitch@, i16::MIN, i16::MAX);
            lemma_ascending(self.code@, i16::MIN, i16::MAX);
        }
        let lost = context.quality == FrameQuality::Unusable;
        let state: usize = context.erasure_state;
        let middle: i16 = sort5(&self.pitch)[2];
        let pitch = Word16(
            if middle > 15565 {
                15565
            } else {
                middle
            },
        );
        let pitch_kept = Word16(
            if lost {
                PITCH_DOWN_LOST[state]
            } else {
                PITCH_DOWN_DAMAGED[state]
            },
        );
        let level_now = Word16(sort5(&self.code)[2]);
        let code = if context.vad_history > 2 {
            level_now
        } else if lost {
            mult(Word16(CODE_DOWN_LOST[state]), level_now)
        } else {
            mult(Word16(CODE_DOWN_DAMAGED[state]), level_now)
        };
        let past = self.predictor.past_energy;
        let mut sum = l_mult(past[0], Word16(8192));
        sum = l_mac(sum, past[1], Word16(8192));
        sum = l_mac(sum, past[2], Word16(8192));
        sum = l_mac(sum, past[3], Word16(8192));
        let mean = sub_s(extract_h(sum), Word16(3072));
        let energy = if mean.0 < -14336 {
            Word16(-14336)
        } else {
            mean
        };
        let ghost before = self@;
        self.predictor.past_energy = [energy, past[0], past[1], past[2]];
        self.push(pitch, code);
        assert(self@.past_energy =~= remembered(before.past_energy, energy));
        DecodedGains { pitch: mult(pitch_kept, pitch), code: l_mult(code, level) }
    }

    /// The gains of a good frame.
    fn read(&mut self, index: u16, bits: GainBits, level: Word16, after_bad: bool) -> (gains:
        DecodedGains)
        requires
            index < if bits == GainBits::Six {
                64int
            } else {
                128
            },
        ensures
            gains.pitch == table_pair(index as int, bits).0,
            gains.code == levelled_code(held_code(old(self)@, index as int, bits, after_bad), level),
            final(self)@ == ({
                let g = old(self)@;
                let kept = round(l_shl(held_code(g, index as int, bits, after_bad), 3));
                GainsView {
                    past_energy: remembered(
                        g.past_energy,
                        table_energy(table_pair(index as int, bits).1),
                    ),
                    previous_code: kept,
                    pitch: recent_with(g.pitch, table_pair(index as int, bits).0.0),
                    code: recent_with(g.code, kept.0),
                }
            }),
    {
        proof {
            reveal(expected_decibels);
        }
        let mut ctx = DspContext::default();
        let at: usize = 2 * index as usize;
        let (pitch, correction) = match bits {
            GainBits::Six => (Word16(QUA_GAIN_6B[at]), Word16(QUA_GAIN_6B[at + 1])),
            GainBits::Seven => (Word16(QUA_GAIN_7B[at]), Word16(QUA_GAIN_7B[at + 1])),
        };
        let past = self.predictor.past_energy;
        let mut acc = l_shl(l_deposit_h(Word16(30)), 8);
        acc = l_mac(acc, Word16(4096), past[0]);
        acc = l_mac(acc, Word16(3277), past[1]);
        acc = l_mac(acc, Word16(2458), past[2]);
        acc = l_mac(acc, Word16(1638), past[3]);
        let (gcode0, exp) = gain_of_decibels(extract_h(acc));
        let sent = l_shl(l_mult(correction, gcode0), add_s(exp, Word16(4)).0);
        let limit = l_mult(self.previous_code, Word16(5120));
        let held = if after_bad && sent.0 > limit.0 && sent.0 > 6553600 {
            limit
        } else {
            sent
        };
        let kept = round(l_shl(held, 3));
        self.previous_code = kept;
        self.push(pitch, kept);
        self.predictor.remember(&mut ctx, correction);
        let (hi, lo) = l_extract(held);
        DecodedGains { pitch, code: l_shl(mpy_32_16(hi, lo, level), 3) }
    }

    /// Take a subframe's gains into the last five.
    fn push(&mut self, pitch: Word16, code: Word16)
        ensures
            final(self)@ == (GainsView {
                pitch: recent_with(old(self)@.pitch, pitch.0),
                code: recent_with(old(self)@.code, code.0),
                ..old(self)@
            }),
            final(self).predictor == old(self).predictor,
    {
        let ghost before = self@;
        let p = self.pitch;
        let c = self.code;
        self.pitch = [p[1], p[2], p[3], p[4], pitch.0];
        self.code = [c[1], c[2], c[3], c[4], code.0];
        assert(self@.pitch =~= recent_with(before.pitch, pitch.0));
        assert(self@.code =~= recent_with(before.code, code.0));
    }
}

/// A bad frame's gains do not depend on the index it carried.
pub proof fn law_bad_gains_read_no_index(
    g: GainsView,
    i: int,
    j: int,
    bits: GainBits,
    code: Seq<Word16>,
    context: FrameContext,
)
    requires
        context.quality != FrameQuality::Good,
    ensures
        gains_of(g, i, bits, code, context) == gains_of(g, j, bits, code, context),
        gains_after(g, i, bits, context) == gains_after(g, j, bits, context),
{
}

/// The decoder predicts as the encoder does, but for the codeword's energy: 30
/// decibels and the weighed last four energies, the newest most.
pub proof fn law_expectation_trusts_the_newest(past: Seq<Word16>)
    ensures
        expected_decibels(past).0 == (503316480 + 8192 * past[0].0 + 6554 * past[1].0 + 4916
            * past[2].0 + 3276 * past[3].0) / 65536,
{
    reveal(expected_decibels);
    reveal(crate::fixed_point::spec_extract_h);
    reveal(crate::fixed_point::spec_l_deposit_h);
    vstd::arithmetic::power2::lemma2_to64();
    lemma_l_shl(l_deposit_h(Word16(30)), 8, 256);
    let base = l_shl(l_deposit_h(Word16(30)), 8);
    lemma_l_mac(base, Word16(4096), past[0]);
    let p0 = l_mac(base, Word16(4096), past[0]);
    lemma_l_mac(p0, Word16(3277), past[1]);
    let p1 = l_mac(p0, Word16(3277), past[1]);
    lemma_l_mac(p1, Word16(2458), past[2]);
    let p2 = l_mac(p1, Word16(2458), past[2]);
    lemma_l_mac(p2, Word16(1638), past[3]);
}

/// A bad frame's energy is the mean of the last four less 3 decibels, and never
/// below the reset level.
pub proof fn law_bad_frames_fade_the_energy(past: Seq<Word16>)
    requires
        past[0].0 + past[1].0 + past[2].0 + past[3].0 >= -118784,
    ensures
        ({
            let mean = (past[0].0 + past[1].0 + past[2].0 + past[3].0) / 4 - 3072;
            faded_energy(past).0 == if mean < -14336 {
                -14336
            } else {
                mean
            }
        }),
{
    reveal(faded_energy);
    reveal(crate::fixed_point::spec_extract_h);
    reveal(crate::fixed_point::spec_sub_s);
    lemma_l_mac(Word32(0), past[0], Word16(8192));
    let p0 = l_mult(past[0], Word16(8192));
    lemma_l_mac(p0, past[1], Word16(8192));
    let p1 = l_mac(p0, past[1], Word16(8192));
    lemma_l_mac(p1, past[2], Word16(8192));
    let p2 = l_mac(p1, past[2], Word16(8192));
    lemma_l_mac(p2, past[3], Word16(8192));
}

/// A concealed pitch gain is the median of the last five at most, 0.95 at most,
/// and no larger the worse the outage; a concealed code gain no larger than
/// theirs. What is remembered is the newest, last.
pub proof fn law_concealed_gains_only_fall(
    g: GainsView,
    index: int,
    bits: GainBits,
    code: Seq<Word16>,
    context: FrameContext,
)
    requires
        g.pitch.len() == 5,
        g.code.len() == 5,
        context.quality != FrameQuality::Good,
        context.erasure_state <= 6,
        median(g.pitch) >= 0,
        median(g.code) >= 0,
    ensures
        0 <= gains_of(g, index, bits, code, context).pitch.0 <= median(g.pitch),
        gains_of(g, index, bits, code, context).pitch.0 <= 15565,
        0 <= concealed_code(g, context).0 <= median(g.code),
        gains_after(g, index, bits, context).previous_code == g.previous_code,
{
    reveal(crate::fixed_point::spec_mult);
    let p = pitch_share(context.quality == FrameQuality::Unusable, context.erasure_state as int);
    let c = code_share(context.quality == FrameQuality::Unusable, context.erasure_state as int);
    lemma_shares(context.quality == FrameQuality::Unusable, context.erasure_state as int);
    let a = p.0 as int;
    let b = concealed_pitch(g).0 as int;
    assert(0 <= a * b <= 32767 * b) by (nonlinear_arith)
        requires
            0 <= a <= 32767,
            0 <= b,
    ;
    let d = c.0 as int;
    let e = median(g.code) as int;
    assert(0 <= d * e <= 32767 * e) by (nonlinear_arith)
        requires
            0 <= d <= 32767,
            0 <= e,
    ;
}

/// Every share that a bad frame keeps is at most one.
proof fn lemma_shares(lost: bool, state: int)
    requires
        0 <= state <= 6,
    ensures
        0 <= pitch_share(lost, state).0 <= 32767,
        0 <= code_share(lost, state).0 <= 32767,
{
}

/// The longer an outage, the less of the pitch gain is kept.
pub proof fn law_shares_fall_with_severity(lost: bool, state: int)
    requires
        0 <= state < 6,
    ensures
        pitch_share(lost, state + 1).0 <= pitch_share(lost, state).0,
{
}

/// Right behind a bad frame a good one may not jump: above a hundred its code
/// gain is held to a quarter more than the last good one's.
pub proof fn law_recovery_is_held_back(g: GainsView, index: int, bits: GainBits)
    requires
        g.previous_code.0 >= 0,
    ensures
        held_code(g, index, bits, false) == sent_code(g, index, bits),
        held_code(g, index, bits, true).0 <= sent_code(g, index, bits).0,
        held_code(g, index, bits, true).0 > 6553600 ==> held_code(g, index, bits, true).0 <= 10240
            * g.previous_code.0,
{
    lemma_l_mac(Word32(0), g.previous_code, Word16(5120));
}

/// A gain is applied to a codeword's level as a product: the level is in Q12,
/// and less than sixteen is lost.
pub proof fn law_gain_is_applied_to_the_level(gain: Word32, level: Word16)
    requires
        0 <= gain.0 <= 0x0fff_ffff,
        0 <= level.0,
    ensures
        ({
            let (hi, lo) = l_extract(gain);
            let applied = levelled_code(gain, level).0;
            let exact = wide(hi, lo) * level.0;
            &&& gain.0 - 1 <= wide(hi, lo) <= gain.0
            &&& 4096 * applied <= exact < 4096 * (applied + 16)
        }),
{
    let (hi, lo) = l_extract(gain);
    law_splits_keep_the_number(gain);
    reveal(crate::fixed_point::spec_l_extract);
    law_word_products_round_down(hi, lo, level);
    vstd::arithmetic::power2::lemma2_to64();
    let g = wide(hi, lo);
    let l = level.0 as int;
    assert(0 <= g * l <= 0x0fff_ffff * 32767) by (nonlinear_arith)
        requires
            0 <= g <= 0x0fff_ffff,
            0 <= l <= 32767,
    ;
    lemma_l_shl(mpy_32_16(hi, lo, level), 3, 8);
}

/// The newest gains are remembered last, and the oldest are forgotten.
pub proof fn law_newest_gains_are_remembered(
    g: GainsView,
    index: int,
    bits: GainBits,
    context: FrameContext,
    i: int,
)
    requires
        g.pitch.len() == 5,
        g.code.len() == 5,
        0 <= i < 4,
    ensures
        ({
            let after = gains_after(g, index, bits, context);
            &&& after.pitch[i] == g.pitch[i + 1]
            &&& after.code[i] == g.code[i + 1]
            &&& context.quality == FrameQuality::Good ==> after.pitch[4] == gain_codebook(bits)[2
                * index]
            &&& i < 3 ==> after.past_energy[i + 1] == g.past_energy[i]
        }),
{
}

} // verus!
