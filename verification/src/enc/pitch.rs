//! Pitch analysis: open-loop lags, the closed-loop search, and the choice of
//! the long-term candidate.
//!
//! Three searches, three tie-breaks: the open-loop search gives a tie to the
//! shortest lag, the closed-loop integer search to the longest, and the
//! fractional search to the smallest fraction.

use vstd::prelude::*;
use crate::fixed_point::{
    add_s, div_s, extract_h, extract_l, l_comp, l_deposit_h, l_extract, l_mac, l_msu, l_mult, l_shl,
    l_shr, lemma_half, lemma_l_mac, lemma_l_shl, lemma_l_shr, lemma_norm_l, lemma_round, mpy_32_16,
    mult, negate, norm_l, round, shl, shr, sub_s, DspContext, Word16, Word32,
};
use crate::ltp::{low_pass, predict, predicted, smoothed_at};
use crate::math::{
    accumulate, conv_run, convolve_at, dot_product12, isqrt_n, mac_run, scaled, scaled_seq,
    spec_dot_product12,
};
use crate::order::{ascending, lemma_ascending, sort5, within};

verus! {

/// Samples in a subframe.
pub const L_SUBFR: usize = 64;

/// Shortest pitch lag, in 12.8 kHz samples.
pub const PIT_MIN: i16 = 34;

/// Longest pitch lag, in 12.8 kHz samples.
pub const PIT_MAX: i16 = 231;

/// Lag at or above which the 9-bit index drops to half-sample resolution.
pub const PIT_FR2: i16 = 128;

/// Lag at or above which the 9-bit index drops to whole-sample resolution.
pub const PIT_FR1_9B: i16 = 160;

/// Lag at or above which the 8-bit index drops to whole-sample resolution.
pub const PIT_FR1_8B: i16 = 92;

/// Hard ceiling on an unquantised pitch gain when clipping is active, 0.95 Q14.
pub const GP_CLIP: i16 = 15565;

/// Shortest open-loop lag that can be returned, in decimated samples.
pub const OL_FIRST_LAG: usize = 18;

/// Longest open-loop lag, in decimated samples.
pub const OL_MAX_LAG: usize = 115;

/// Decimated weighted speech per frame.
pub const WSP_FRAME: usize = 128;

/// Decimated weighted-speech history the search reaches back over.
pub const WSP_HISTORY: usize = OL_MAX_LAG;

/// Frame bits at 6.60 kbit/s.
pub const BITS_6K60: u16 = 132;

/// Frame bits at 8.85 kbit/s.
pub const BITS_8K85: u16 = 177;

/// Open-loop correlation weighting.
///
/// Two windows are read out of one table: a monotone taper that favours short
/// lags, and a triangular bump centred on the previous lag. The flat plateau
/// is the centre of the second.
pub const CORR_WEIGHT: [i16; 199] = [
    10772, 10794, 10816, 10839, 10862, 10885, 10908, 10932, 10955, 10980, 11004, 11029, 11054,
    11079, 11105, 11131, 11157, 11183, 11210, 11238, 11265, 11293, 11322, 11350, 11379, 11409,
    11439, 11469, 11500, 11531, 11563, 11595, 11628, 11661, 11694, 11728, 11763, 11798, 11834,
    11870, 11907, 11945, 11983, 12022, 12061, 12101, 12142, 12184, 12226, 12270, 12314, 12358,
    12404, 12451, 12498, 12547, 12596, 12647, 12699, 12751, 12805, 12861, 12917, 12975, 13034,
    13095, 13157, 13221, 13286, 13353, 13422, 13493, 13566, 13641, 13719, 13798, 13880, 13965,
    14053, 14143, 14237, 14334, 14435, 14539, 14648, 14761, 14879, 15002, 15130, 15265, 15406,
    15554, 15710, 15874, 16056, 16384, 16384, 16384, 16384, 16384, 16384, 16384, 16056, 15874,
    15710, 15554, 15406, 15265, 15130, 15002, 14879, 14761, 14648, 14539, 14435, 14334, 14237,
    14143, 14053, 13965, 13880, 13798, 13719, 13641, 13566, 13493, 13422, 13353, 13286, 13221,
    13157, 13095, 13034, 12975, 12917, 12861, 12805, 12751, 12699, 12647, 12596, 12547, 12498,
    12451, 12404, 12358, 12314, 12270, 12226, 12184, 12142, 12101, 12061, 12022, 11983, 11945,
    11907, 11870, 11834, 11798, 11763, 11728, 11694, 11661, 11628, 11595, 11563, 11531, 11500,
    11469, 11439, 11409, 11379, 11350, 11322, 11293, 11265, 11238, 11210, 11183, 11157, 11131,
    11105, 11079, 11054, 11029, 11004, 10980, 10955, 10932, 10908, 10885, 10862, 10839, 10816,
    10794, 10772, 10750, 10728,
];

/// Quarter-sample interpolation of the normalised correlation, Q14,
/// interleaved by phase.
pub const INTER4_1: [i16; 32] = [
    -12, -26, 32, 206, 420, 455, 73, -766, -1732, -2142, -1242, 1376, 5429, 9910, 13418, 14746,
    13418, 9910, 5429, 1376, -1242, -2142, -1732, -766, 73, 455, 420, 206, 32, -26, -12, 0,
];

// ---------------------------------------------------------------------------
// Modes and windows
// ---------------------------------------------------------------------------

/// The frame's bit budget, which every mode test of the pitch path keys on.
///
/// Not the codec mode: a comfort-noise frame carries 35 bits whatever mode was
/// requested, and that budget routes it down the wideband branches.
#[derive(Clone, Copy, PartialEq, Eq, Structural, Debug)]
pub struct PitchMode {
    /// The frame's bit count.
    pub bits: u16,
}

impl PitchMode {
    /// The frame's bit count.
    pub open spec fn frame_bits(self) -> u16 {
        self.bits
    }

    /// Build from a frame's bit count, 35 for comfort noise.
    #[must_use]
    pub fn from_frame_bits(bits: u16) -> (mode: Self)
        ensures
            mode.frame_bits() == bits,
    {
        PitchMode { bits }
    }

    /// Whether the open-loop search runs once over the whole frame: only at
    /// 6.60 kbit/s.
    #[must_use]
    pub fn open_loop_spans_frame(self) -> (r: bool)
        ensures
            r == (self.frame_bits() == BITS_6K60),
    {
        self.bits == BITS_6K60
    }

    /// Whether the unfiltered long-term candidate exists and costs a bit.
    #[must_use]
    pub fn has_sharp_candidate(self) -> (r: bool)
        ensures
            r == (self.frame_bits() > BITS_8K85),
    {
        self.bits > BITS_8K85
    }

    /// Whether the third subframe restarts the lag window.
    #[must_use]
    pub fn third_subframe_is_absolute(self) -> (r: bool)
        ensures
            r == (self.frame_bits() > BITS_6K60),
    {
        self.bits > BITS_6K60
    }

    /// The fractional resolution schedule for the closed-loop search.
    #[must_use]
    pub fn lag_resolution(self) -> (r: LagResolution)
        ensures
            r == if self.frame_bits() > BITS_8K85 {
                nine_bit_resolution()
            } else {
                eight_bit_resolution()
            },
    {
        if self.bits > BITS_8K85 {
            LagResolution::nine_bit()
        } else {
            LagResolution::eight_bit()
        }
    }

    /// Whether the gain-clipping tracker uses its interoperable-mode constants.
    #[must_use]
    pub fn interoperable_clipping(self) -> (r: bool)
        ensures
            r == interoperable(self),
    {
        self.bits == BITS_6K60 || self.bits == BITS_8K85
    }
}

/// The two lowest budgets.
pub open spec fn interoperable(mode: PitchMode) -> bool {
    mode.frame_bits() == BITS_6K60 || mode.frame_bits() == BITS_8K85
}

/// Where the closed-loop search drops from quarter- to half- to whole-sample
/// resolution, which the pitch index width decides.
#[derive(Clone, Copy, PartialEq, Eq, Structural, Debug)]
pub struct LagResolution {
    /// Lag at or above which the step becomes 1/2 sample.
    pub half_from: i16,
    /// Lag at or above which the fraction is dropped entirely.
    pub whole_from: i16,
}

/// The resolution of an 8-bit pitch index: no quarter-sample lags at all.
pub open spec fn eight_bit_resolution() -> LagResolution {
    LagResolution { half_from: PIT_MIN, whole_from: PIT_FR1_8B }
}

/// The resolution of a 9-bit pitch index.
pub open spec fn nine_bit_resolution() -> LagResolution {
    LagResolution { half_from: PIT_FR2, whole_from: PIT_FR1_9B }
}

impl LagResolution {
    /// 6.60 and 8.85 kbit/s, where the pitch index is 8 bits.
    ///
    /// `half_from` at the shortest lag makes every subframe search at
    /// half-sample resolution.
    #[must_use]
    pub fn eight_bit() -> (r: Self)
        ensures
            r == eight_bit_resolution(),
    {
        LagResolution { half_from: PIT_MIN, whole_from: PIT_FR1_8B }
    }

    /// 12.65 kbit/s and above, where the pitch index is 9 bits.
    #[must_use]
    pub fn nine_bit() -> (r: Self)
        ensures
            r == nine_bit_resolution(),
    {
        LagResolution { half_from: PIT_FR2, whole_from: PIT_FR1_9B }
    }
}

/// The 16-lag window a closed-loop search runs over.
#[derive(Clone, Copy, PartialEq, Eq, Structural, Debug)]
pub struct LagWindow {
    /// Lowest integer lag searched.
    pub min: i16,
    /// Highest integer lag searched.
    pub max: i16,
}

/// The window from eight below `lag`, moved into the range of lags.
pub open spec fn window_around(lag: int) -> LagWindow {
    if lag - 8 < PIT_MIN {
        LagWindow { min: PIT_MIN, max: (PIT_MIN + 15) as i16 }
    } else if lag + 7 > PIT_MAX {
        LagWindow { min: (PIT_MAX - 15) as i16, max: PIT_MAX }
    } else {
        LagWindow { min: (lag - 8) as i16, max: (lag + 7) as i16 }
    }
}

impl LagWindow {
    /// The window centred on `lag`, clamped into `[PIT_MIN, PIT_MAX]`: always
    /// sixteen integer lags, which is what makes the relative indices fit.
    #[must_use]
    pub fn around(_ctx: &mut DspContext, lag: i16) -> (w: Self)
        ensures
            w == window_around(lag as int),
            PIT_MIN <= w.min,
            w.max <= PIT_MAX,
            w.max - w.min == 15,
    {
        let low: i32 = lag as i32 - 8;
        if low < PIT_MIN as i32 {
            LagWindow { min: PIT_MIN, max: PIT_MIN + 15 }
        } else if low + 15 > PIT_MAX as i32 {
            LagWindow { min: PIT_MAX - 15, max: PIT_MAX }
        } else {
            LagWindow { min: low as i16, max: (low + 15) as i16 }
        }
    }
}

// ---------------------------------------------------------------------------
// The weighted-speech high-pass
// ---------------------------------------------------------------------------

/// Third-order 180 Hz high-pass applied to the weighted speech before the
/// open-loop *gain* is measured.
///
/// The lag itself is chosen on the unfiltered signal; this filter keeps the
/// low-frequency tilt of voiced speech out of the correlation that gates the
/// median smoothing.
#[derive(Clone, Copy, Debug)]
pub struct WeightedSpeechHighPass {
    /// `y[i-3]` as a double-precision pair.
    pub y3: (Word16, Word16),
    /// `y[i-2]`.
    pub y2: (Word16, Word16),
    /// `y[i-1]`.
    pub y1: (Word16, Word16),
    /// `x[i-1]`.
    pub x0: Word16,
    /// `x[i-2]`.
    pub x1: Word16,
    /// `x[i-3]`.
    pub x2: Word16,
}

/// The filter at rest.
pub open spec fn high_pass_at_rest() -> WeightedSpeechHighPass {
    let z = Word16(0);
    WeightedSpeechHighPass { y3: (z, z), y2: (z, z), y1: (z, z), x0: z, x1: z, x2: z }
}

/// The recursion on one sample: the low halves first, rounded into the scale
/// of the high halves.
#[verifier::opaque]
pub open spec fn high_pass_sum(s: WeightedSpeechHighPass, x: Word16) -> Word32 {
    let low = l_mac(
        l_mac(l_mac(Word32(16384), s.y1.1, Word16(21663)), s.y2.1, Word16(-19258i16)),
        s.y3.1,
        Word16(5734),
    );
    let high = l_mac(
        l_mac(l_mac(l_shr(low, 15), s.y1.0, Word16(21663)), s.y2.0, Word16(-19258i16)),
        s.y3.0,
        Word16(5734),
    );
    let forward = l_mac(
        l_mac(
            l_mac(l_mac(high, x, Word16(-3432i16)), s.x0, Word16(10280)),
            s.x1,
            Word16(-10280i16),
        ),
        s.x2,
        Word16(3432),
    );
    l_shl(forward, 2)
}

/// The state after one sample. The recursion carries the value before the
/// output's doubling.
pub open spec fn high_pass_next(s: WeightedSpeechHighPass, x: Word16) -> WeightedSpeechHighPass {
    WeightedSpeechHighPass {
        y3: s.y2,
        y2: s.y1,
        y1: l_extract(high_pass_sum(s, x)),
        x0: x,
        x1: s.x0,
        x2: s.x1,
    }
}

/// The state after the first `n` samples of a signal.
pub open spec fn high_pass_after(
    s: WeightedSpeechHighPass,
    input: Seq<Word16>,
    n: int,
) -> WeightedSpeechHighPass
    decreases n,
{
    if n <= 0 {
        s
    } else {
        high_pass_next(high_pass_after(s, input, n - 1), input[n - 1])
    }
}

/// Sample `i` of the filtered signal.
pub open spec fn high_passed_at(s: WeightedSpeechHighPass, input: Seq<Word16>, i: int) -> Word16 {
    round(l_shl(high_pass_sum(high_pass_after(s, input, i), input[i]), 1))
}

/// A double-precision pair scaled by `2^exp`.
pub open spec fn rescaled_pair(p: (Word16, Word16), exp: i16) -> (Word16, Word16) {
    l_extract(l_shl(l_comp(p.0, p.1), exp))
}

/// The filter's state scaled by `2^exp`.
pub open spec fn rescaled_high_pass(s: WeightedSpeechHighPass, exp: i16) -> WeightedSpeechHighPass {
    WeightedSpeechHighPass {
        y3: rescaled_pair(s.y3, exp),
        y2: rescaled_pair(s.y2, exp),
        y1: rescaled_pair(s.y1, exp),
        x0: scaled(s.x0, exp),
        x1: scaled(s.x1, exp),
        x2: scaled(s.x2, exp),
    }
}

impl Default for WeightedSpeechHighPass {
    fn default() -> (s: Self)
        ensures
            s == high_pass_at_rest(),
    {
        let z = Word16(0);
        WeightedSpeechHighPass { y3: (z, z), y2: (z, z), y1: (z, z), x0: z, x1: z, x2: z }
    }
}

impl WeightedSpeechHighPass {
    /// Filter `input` into `output`, advancing the state.
    pub fn filter(&mut self, _ctx: &mut DspContext, input: &[Word16], output: &mut [Word16])
        requires
            input.len() <= old(output).len(),
        ensures
            *final(self) == high_pass_after(*old(self), input@, input@.len() as int),
            final(output)@.len() == old(output)@.len(),
            forall|i: int|
                0 <= i < input@.len() ==> #[trigger] final(output)@[i] == high_passed_at(
                    *old(self),
                    input@,
                    i,
                ),
            forall|i: int|
                input@.len() <= i < old(output)@.len() ==> #[trigger] final(output)@[i] == old(
                    output,
                )@[i],
    {
        let ghost s0 = *self;
        for i in 0..input.len()
            invariant
                input.len() <= output.len(),
                output@.len() == old(output)@.len(),
                *self == high_pass_after(s0, input@, i as int),
                forall|j: int|
                    0 <= j < i ==> #[trigger] output@[j] == high_passed_at(s0, input@, j),
                forall|j: int| i <= j < output@.len() ==> #[trigger] output@[j] == old(output)@[j],
        {
            let x = input[i];
            proof {
                reveal(high_pass_sum);
            }
            let mut acc = l_mac(Word32(16384), self.y1.1, Word16(21663));
            acc = l_mac(acc, self.y2.1, Word16(-19258));
            acc = l_mac(acc, self.y3.1, Word16(5734));
            acc = l_shr(acc, 15);
            acc = l_mac(acc, self.y1.0, Word16(21663));
            acc = l_mac(acc, self.y2.0, Word16(-19258));
            acc = l_mac(acc, self.y3.0, Word16(5734));
            acc = l_mac(acc, x, Word16(-3432));
            acc = l_mac(acc, self.x0, Word16(10280));
            acc = l_mac(acc, self.x1, Word16(-10280));
            acc = l_mac(acc, self.x2, Word16(3432));
            acc = l_shl(acc, 2);
            *self = WeightedSpeechHighPass {
                y3: self.y2,
                y2: self.y1,
                y1: l_extract(acc),
                x0: x,
                x1: self.x0,
                x2: self.x1,
            };
            output[i] = round(l_shl(acc, 1));
        }
    }

    /// Rescale the state by `exp` bits, to follow a change in the frame's Q.
    pub fn rescale(&mut self, _ctx: &mut DspContext, exp: i16)
        ensures
            *final(self) == rescaled_high_pass(*old(self), exp),
    {
        *self = WeightedSpeechHighPass {
            y3: l_extract(l_shl(l_comp(self.y3.0, self.y3.1), exp)),
            y2: l_extract(l_shl(l_comp(self.y2.0, self.y2.1), exp)),
            y1: l_extract(l_shl(l_comp(self.y1.0, self.y1.1), exp)),
            x0: round(l_shl(l_deposit_h(self.x0), exp)),
            x1: round(l_shl(l_deposit_h(self.x1), exp)),
            x2: round(l_shl(l_deposit_h(self.x2), exp)),
        };
    }
}

// ---------------------------------------------------------------------------
// Open loop
// ---------------------------------------------------------------------------

/// What one frame's open-loop analysis produced.
#[derive(Clone, Copy, PartialEq, Eq, Debug)]
pub struct OpenLoopLags {
    /// The lag for the frame's first half (or, at 6.60 kbit/s, for the whole
    /// frame), in 12.8 kHz samples.
    pub first_half: i16,
    /// The lag for the second half. Equal to [`Self::first_half`] at 6.60
    /// kbit/s, where it is never used.
    pub second_half: i16,
    /// The median-smoothed lag after the first half, in *decimated* samples,
    /// and `None` when the half's normalised correlation was too weak to
    /// refresh it.
    pub smoothed_after_first_half: Option<i16>,
}

/// Open-loop pitch state.
pub struct OpenLoopView {
    /// Decimated weighted speech from previous frames, oldest first.
    pub history: Seq<Word16>,
    /// High-passed weighted speech: history, then the current part.
    pub high_passed: Seq<Word16>,
    /// The high-pass itself.
    pub high_pass: WeightedSpeechHighPass,
    /// The median-smoothed lag, decimated.
    pub smoothed_lag: i16,
    /// The five most recent open-loop lags, newest first.
    pub recent_lags: Seq<i16>,
    /// The normalised correlation of the last part analysed, Q15.
    pub gain: Word16,
    /// How confident the recent lag history is, Q15.
    pub confidence: Word16,
    /// Whether to weight candidates towards the smoothed lag.
    pub weight_towards_history: bool,
    /// The scaling of the history.
    pub history_shift: i16,
}

/// The lags of the history are decimated lags.
pub open spec fn open_loop_inv(v: OpenLoopView) -> bool {
    &&& v.history.len() == 115
    &&& v.high_passed.len() == 243
    &&& v.recent_lags.len() == 5
    &&& within(v.recent_lags, 18, 115)
    &&& 18 <= v.smoothed_lag <= 115
}

/// The weighted autocorrelation at a lag: tapered towards short lags, and
/// towards the smoothed lag where the history is trusted.
pub open spec fn lag_score(
    v: OpenLoopView,
    buffer: Seq<Word16>,
    base: int,
    span: int,
    lag: int,
) -> Word32 {
    let (hi, lo) = l_extract(mac_run(Word32(0), buffer, base, buffer, base - lag, span));
    let tapered = mpy_32_16(hi, lo, Word16(CORR_WEIGHT@[83 + lag]));
    if v.weight_towards_history {
        let (hi, lo) = l_extract(tapered);
        mpy_32_16(hi, lo, Word16(CORR_WEIGHT@[98 + lag - v.smoothed_lag]))
    } else {
        tapered
    }
}

/// The best score among the lags from 115 down to `lag`, and its lag; a tie
/// goes to the shorter one.
pub open spec fn best_from(
    v: OpenLoopView,
    buffer: Seq<Word16>,
    base: int,
    span: int,
    lag: int,
) -> (Word32, int)
    decreases 116 - lag,
{
    if lag > 115 {
        (Word32(-0x8000_0000i32), 0)
    } else {
        let best = best_from(v, buffer, base, span, lag + 1);
        let score = lag_score(v, buffer, base, span, lag);
        if score.0 >= best.0.0 {
            (score, lag)
        } else {
            best
        }
    }
}

/// The open-loop lag of one part of the buffer.
pub open spec fn open_loop_lag(v: OpenLoopView, buffer: Seq<Word16>, base: int, span: int) -> i16 {
    best_from(v, buffer, base, span, 18).1 as i16
}

/// The search never returns its lower bound, decimated lag 17, nor anything
/// beyond the longest lag.
pub proof fn lemma_best_from(
    v: OpenLoopView,
    buffer: Seq<Word16>,
    base: int,
    span: int,
    lag: int,
)
    requires
        18 <= lag <= 115,
    ensures
        lag <= best_from(v, buffer, base, span, lag).1 <= 115,
    decreases 116 - lag,
{
    if lag < 115 {
        lemma_best_from(v, buffer, base, span, lag + 1);
    } else {
        assert(best_from(v, buffer, base, span, 116) == (Word32(-0x8000_0000i32), 0int));
    }
}

/// The normalised correlation at `lag` of the `span` samples behind the
/// history in `hp`, Q15. The energies start at one, so silence normalises.
#[verifier::opaque]
pub open spec fn normalised_gain(hp: Seq<Word16>, span: int, lag: int) -> Word16 {
    let cross = mac_run(Word32(0), hp, 115, hp, 115 - lag, span);
    let lagged = mac_run(Word32(1), hp, 115 - lag, hp, 115 - lag, span);
    let energy = mac_run(Word32(1), hp, 115, hp, 115, span);
    let product = l_mult(
        round(l_shl(lagged, norm_l(lagged))),
        round(l_shl(energy, norm_l(energy))),
    );
    let renorm = norm_l(product);
    let exp = sub_s(
        Word16(62),
        add_s(add_s(Word16(norm_l(lagged)), Word16(norm_l(energy))), Word16(renorm)),
    );
    let (root, root_exp) = isqrt_n((l_shl(product, renorm), exp.0));
    let scaled = l_mult(round(l_shl(cross, norm_l(cross))), round(root));
    let total = add_s(sub_s(Word16(31), Word16(norm_l(cross))), Word16(root_exp));
    round(l_shl(scaled, total.0))
}

/// The high-passed buffer with a part filtered in behind the history.
pub open spec fn with_part(
    hp: Seq<Word16>,
    s: WeightedSpeechHighPass,
    part: Seq<Word16>,
) -> Seq<Word16> {
    Seq::new(
        243,
        |i: int|
            if 115 <= i < 115 + part.len() {
                high_passed_at(s, part, i - 115)
            } else {
                hp[i]
            },
    )
}

/// The buffer moved down by `span`: its first 115 samples become the history.
pub open spec fn moved_down(hp: Seq<Word16>, span: int) -> Seq<Word16> {
    Seq::new(
        243,
        |i: int|
            if i < 115 {
                hp[i + span]
            } else {
                hp[i]
            },
    )
}

/// The state after one part has been scanned.
pub open spec fn scanned(v: OpenLoopView, buffer: Seq<Word16>, base: int, span: int) -> OpenLoopView {
    let lag = open_loop_lag(v, buffer, base, span);
    let part = buffer.subrange(base, base + span);
    let hp = with_part(v.high_passed, v.high_pass, part);
    OpenLoopView {
        high_pass: high_pass_after(v.high_pass, part, span),
        gain: normalised_gain(hp, span, lag as int),
        high_passed: moved_down(hp, span),
        ..v
    }
}

/// The state after a part's lag has been folded into the history: only a
/// correlation above 0.6 refreshes it, a weaker one erodes the confidence.
pub open spec fn absorbed(v: OpenLoopView, lag: i16) -> OpenLoopView {
    let s = if v.gain.0 > 19661 {
        let recent = seq![
            lag,
            v.recent_lags[0],
            v.recent_lags[1],
            v.recent_lags[2],
            v.recent_lags[3],
        ];
        OpenLoopView {
            recent_lags: recent,
            smoothed_lag: ascending(recent)[2],
            confidence: Word16(32767),
            ..v
        }
    } else {
        OpenLoopView { confidence: mult(v.confidence, Word16(29491)), ..v }
    };
    OpenLoopView { weight_towards_history: s.confidence.0 >= 26214, ..s }
}

/// The state after a change of scaling.
pub open spec fn rescaled_open_loop(v: OpenLoopView, q_exp: i16, shift: i16) -> OpenLoopView {
    let exp = add_s(Word16(q_exp), sub_s(Word16(shift), Word16(v.history_shift))).0;
    OpenLoopView {
        history_shift: shift,
        history: scaled_seq(v.history, exp),
        high_passed: scaled_head(v.high_passed, exp),
        high_pass: rescaled_high_pass(v.high_pass, exp),
        ..v
    }
}

/// The first 115 samples scaled, the rest kept.
pub open spec fn scaled_head(x: Seq<Word16>, exp: i16) -> Seq<Word16> {
    Seq::new(
        x.len(),
        |i: int|
            if i < 115 {
                scaled(x[i], exp)
            } else {
                x[i]
            },
    )
}

/// How much of the frame one search covers.
pub open spec fn part_of(mode: PitchMode) -> int {
    if mode.frame_bits() == BITS_6K60 {
        128
    } else {
        64
    }
}

/// The state after a frame.
#[verifier::opaque]
pub open spec fn analysed(v: OpenLoopView, weighted: Seq<Word16>, mode: PitchMode) -> OpenLoopView {
    let buffer = v.history + weighted;
    let span = part_of(mode);
    let first = absorbed(scanned(v, buffer, 115, span), open_loop_lag(v, buffer, 115, span));
    let last = if span == 128 {
        first
    } else {
        absorbed(
            scanned(first, buffer, 179, span),
            open_loop_lag(first, buffer, 179, span),
        )
    };
    OpenLoopView { history: buffer.subrange(128, 243), ..last }
}

/// What a frame's analysis returns.
#[verifier::opaque]
pub open spec fn analysed_lags(
    v: OpenLoopView,
    weighted: Seq<Word16>,
    mode: PitchMode,
) -> OpenLoopLags {
    let buffer = v.history + weighted;
    let span = part_of(mode);
    let lag = open_loop_lag(v, buffer, 115, span);
    let scan = scanned(v, buffer, 115, span);
    let first = absorbed(scan, lag);
    OpenLoopLags {
        first_half: (2 * lag) as i16,
        second_half: if span == 128 {
            (2 * lag) as i16
        } else {
            (2 * open_loop_lag(first, buffer, 179, span)) as i16
        },
        smoothed_after_first_half: if scan.gain.0 > 19661 {
            Some(first.smoothed_lag)
        } else {
            None
        },
    }
}

/// Open-loop pitch state, carried across frames.
#[derive(Clone, Debug)]
pub struct OpenLoopPitch {
    /// Decimated weighted speech from previous frames, oldest first.
    history: [Word16; WSP_HISTORY],
    /// High-passed weighted speech: history, then the current part.
    high_passed: [Word16; 243],
    /// State of the high-pass itself.
    high_pass: WeightedSpeechHighPass,
    /// The median-smoothed lag, decimated.
    smoothed_lag: i16,
    /// The five most recent open-loop lags, newest first.
    pub recent_lags: [i16; 5],
    /// The normalised correlation of the last part analysed, Q15.
    pub gain: Word16,
    /// How confident the recent lag history is, Q15.
    pub confidence: Word16,
    /// Whether to weight candidates towards the smoothed lag.
    pub weight_towards_history: bool,
    /// The frame-level shift the history is scaled by.
    history_shift: i16,
}

/// The state before anything was analysed.
pub open spec fn open_loop_reset() -> OpenLoopView {
    OpenLoopView {
        history: Seq::new(115, |i: int| Word16(0)),
        high_passed: Seq::new(243, |i: int| Word16(0)),
        high_pass: high_pass_at_rest(),
        smoothed_lag: 40,
        recent_lags: Seq::new(5, |i: int| 40i16),
        gain: Word16(0),
        confidence: Word16(0),
        weight_towards_history: false,
        history_shift: 0,
    }
}

/// The normalised correlation at a lag of what follows the history.
pub fn measure_gain(hp: &[Word16; 243], span: usize, lag: usize) -> (r: Word16)
    requires
        span <= 128,
        lag <= 115,
    ensures
        r == normalised_gain(hp@, span as int, lag as int),
{
    proof {
        reveal(normalised_gain);
    }
    let cross = accumulate(Word32(0), hp, 115, hp, 115 - lag, span);
    let lagged = accumulate(Word32(1), hp, 115 - lag, hp, 115 - lag, span);
    let energy = accumulate(Word32(1), hp, 115, hp, 115, span);
    let cross_exp: i16 = norm_l(cross);
    let lagged_exp: i16 = norm_l(lagged);
    let energy_exp: i16 = norm_l(energy);
    let product = l_mult(round(l_shl(lagged, lagged_exp)), round(l_shl(energy, energy_exp)));
    let renorm: i16 = norm_l(product);
    proof {
        lemma_norm_l(product);
    }
    let exp = sub_s(
        Word16(62),
        add_s(add_s(Word16(lagged_exp), Word16(energy_exp)), Word16(renorm)),
    );
    let (root, root_exp) = isqrt_n((l_shl(product, renorm), exp.0));
    let scaled = l_mult(round(l_shl(cross, cross_exp)), round(root));
    let total = add_s(sub_s(Word16(31), Word16(cross_exp)), Word16(root_exp));
    round(l_shl(scaled, total.0))
}

impl Default for OpenLoopPitch {
    fn default() -> (p: Self)
        ensures
            p.wf(),
            p.view() == open_loop_reset(),
    {
        OpenLoopPitch::new()
    }
}

impl OpenLoopPitch {
    /// The state as plain values.
    pub closed spec fn view(&self) -> OpenLoopView {
        OpenLoopView {
            history: self.history@,
            high_passed: self.high_passed@,
            high_pass: self.high_pass,
            smoothed_lag: self.smoothed_lag,
            recent_lags: self.recent_lags@,
            gain: self.gain,
            confidence: self.confidence,
            weight_towards_history: self.weight_towards_history,
            history_shift: self.history_shift,
        }
    }

    /// The invariant.
    pub open spec fn wf(&self) -> bool {
        open_loop_inv(self.view())
    }

    /// The reset state.
    #[must_use]
    pub fn new() -> (p: Self)
        ensures
            p.wf(),
            p.view() == open_loop_reset(),
    {
        let p = OpenLoopPitch {
            history: [Word16(0); WSP_HISTORY],
            high_passed: [Word16(0); 243],
            high_pass: WeightedSpeechHighPass::default(),
            smoothed_lag: 40,
            recent_lags: [40; 5],
            gain: Word16(0),
            confidence: Word16(0),
            weight_towards_history: false,
            history_shift: 0,
        };
        assert(p.view().history =~= open_loop_reset().history);
        assert(p.view().high_passed =~= open_loop_reset().high_passed);
        assert(p.view().recent_lags =~= open_loop_reset().recent_lags);
        p
    }

    /// The median-smoothed open-loop lag, in decimated samples.
    #[must_use]
    pub fn smoothed_lag(&self) -> (lag: i16)
        ensures
            lag == self.view().smoothed_lag,
    {
        self.smoothed_lag
    }

    /// Follow the frame's change of scaling, before [`Self::analyse`].
    ///
    /// `q_exp` is the change of the pre-emphasis scaling; `shift` is the
    /// frame-level exponent, which the new samples have *already* been scaled
    /// by. The history has not, so it is brought to the new scale by the sum
    /// of the two differences.
    pub fn rescale(&mut self, ctx: &mut DspContext, q_exp: i16, shift: i16)
        requires
            old(self).wf(),
        ensures
            final(self).wf(),
            final(self).view() == rescaled_open_loop(old(self).view(), q_exp, shift),
    {
        let ghost v = self.view();
        let exp: i16 = add_s(
            Word16(q_exp),
            sub_s(Word16(shift), Word16(self.history_shift)),
        ).0;
        self.history_shift = shift;
        for i in 0..WSP_HISTORY
            invariant
                self.view() == (OpenLoopView {
                    history_shift: shift,
                    history: self.history@,
                    high_passed: self.high_passed@,
                    ..v
                }),
                v.history.len() == 115,
                v.high_passed.len() == 243,
                forall|j: int| 0 <= j < i ==> #[trigger] self.history@[j] == scaled(v.history[j], exp),
                forall|j: int| i <= j < 115 ==> #[trigger] self.history@[j] == v.history[j],
                forall|j: int|
                    0 <= j < i ==> #[trigger] self.high_passed@[j] == scaled(v.high_passed[j], exp),
                forall|j: int|
                    i <= j < 243 ==> #[trigger] self.high_passed@[j] == v.high_passed[j],
        {
            self.history[i] = round(l_shl(l_deposit_h(self.history[i]), exp));
            self.high_passed[i] = round(l_shl(l_deposit_h(self.high_passed[i]), exp));
        }
        assert(self.history@ =~= scaled_seq(v.history, exp));
        assert(self.high_passed@ =~= scaled_head(v.high_passed, exp));
        self.high_pass.rescale(ctx, exp);
    }

    /// The weighted-autocorrelation search itself, in decimated samples.
    fn best_lag(&self, buffer: &[Word16; 243], base: usize, span: usize) -> (lag: i16)
        requires
            self.wf(),
            115 <= base,
            base + span <= 243,
        ensures
            lag == open_loop_lag(self.view(), buffer@, base as int, span as int),
            18 <= lag <= 115,
    {
        let ghost v = self.view();
        let mut best = Word32(-0x8000_0000);
        let mut best_lag: usize = 0;
        let mut lag: usize = 116;
        while lag > OL_FIRST_LAG
            invariant
                v == self.view(),
                open_loop_inv(v),
                115 <= base,
                base + span <= 243,
                18 <= lag <= 116,
                best_lag <= 115,
                (best, best_lag as int) == best_from(v, buffer@, base as int, span as int, lag as int),
            decreases lag,
        {
            lag = lag - 1;
            let acc = accumulate(Word32(0), buffer, base, buffer, base - lag, span);
            let (hi, lo) = l_extract(acc);
            let mut score = mpy_32_16(hi, lo, Word16(CORR_WEIGHT[83 + lag]));
            if self.weight_towards_history {
                let (hi, lo) = l_extract(score);
                let bump: usize = 98 + lag - self.smoothed_lag as usize;
                score = mpy_32_16(hi, lo, Word16(CORR_WEIGHT[bump]));
            }
            if score.0 >= best.0 {
                best = score;
                best_lag = lag;
            }
        }
        proof {
            lemma_best_from(v, buffer@, base as int, span as int, 18);
        }
        best_lag as i16
    }

    /// Pick one part's lag, then measure its gain.
    fn scan(&mut self, ctx: &mut DspContext, buffer: &[Word16; 243], base: usize, span: usize) -> (lag:
        i16)
        requires
            old(self).wf(),
            115 <= base,
            base + span <= 243,
            span == 64 || span == 128,
        ensures
            final(self).wf(),
            lag == open_loop_lag(old(self).view(), buffer@, base as int, span as int),
            18 <= lag <= 115,
            final(self).view() == scanned(old(self).view(), buffer@, base as int, span as int),
    {
        let ghost v = self.view();
        let lag: i16 = self.best_lag(buffer, base, span);
        let all: &[Word16] = buffer;
        let part = vstd::slice::slice_subrange(all, base, base + span);
        let mut filtered: [Word16; WSP_FRAME] = [Word16(0); WSP_FRAME];
        self.high_pass.filter(ctx, part, &mut filtered);
        let ghost hp = with_part(v.high_passed, v.high_pass, part@);
        for i in 0..span
            invariant
                span <= 128,
                part@.len() == span,
                v.high_passed.len() == 243,
                hp == with_part(v.high_passed, v.high_pass, part@),
                forall|j: int|
                    0 <= j < span ==> #[trigger] filtered@[j] == high_passed_at(
                        v.high_pass,
                        part@,
                        j,
                    ),
                forall|j: int|
                    0 <= j < 243 ==> #[trigger] self.high_passed@[j] == if j < 115 + i {
                        hp[j]
                    } else {
                        v.high_passed[j]
                    },
                self.view() == (OpenLoopView {
                    high_passed: self.high_passed@,
                    high_pass: self.high_pass,
                    ..v
                }),
                self.high_pass == high_pass_after(v.high_pass, part@, span as int),
        {
            self.high_passed[115 + i] = filtered[i];
        }
        assert(self.high_passed@ =~= hp);
        self.gain = measure_gain(&self.high_passed, span, lag as usize);
        for i in 0..WSP_HISTORY
            invariant
                span <= 128,
                hp.len() == 243,
                forall|j: int|
                    0 <= j < 243 ==> #[trigger] self.high_passed@[j] == if j < i {
                        hp[j + span]
                    } else {
                        hp[j]
                    },
                self.view() == (OpenLoopView {
                    high_passed: self.high_passed@,
                    high_pass: self.high_pass,
                    gain: self.gain,
                    ..v
                }),
                self.high_pass == high_pass_after(v.high_pass, part@, span as int),
                self.gain == normalised_gain(hp, span as int, lag as int),
        {
            self.high_passed[i] = self.high_passed[i + span];
        }
        assert(self.high_passed@ =~= moved_down(hp, span as int));
        lag
    }

    /// Fold one part's lag into the smoothed history and update the weighting.
    ///
    /// The history only shifts when the normalised correlation clears 0.6, so
    /// a weak part leaves it untouched.
    pub fn absorb(&mut self, _ctx: &mut DspContext, lag: i16) -> (refreshed: Option<i16>)
        requires
            old(self).wf(),
            18 <= lag <= 115,
        ensures
            final(self).wf(),
            final(self).view() == absorbed(old(self).view(), lag),
            refreshed == if old(self).view().gain.0 > 19661 {
                Some(final(self).view().smoothed_lag)
            } else {
                None
            },
    {
        let ghost v = self.view();
        let refreshed: Option<i16> = if self.gain.0 > 19661 {
            self.recent_lags = [
                lag,
                self.recent_lags[0],
                self.recent_lags[1],
                self.recent_lags[2],
                self.recent_lags[3],
            ];
            assert(self.recent_lags@ =~= seq![
                lag,
                v.recent_lags[0],
                v.recent_lags[1],
                v.recent_lags[2],
                v.recent_lags[3],
            ]);
            proof {
                lemma_ascending(self.recent_lags@, 18, 115);
            }
            let sorted = sort5(&self.recent_lags);
            self.smoothed_lag = sorted[2];
            self.confidence = Word16(32767);
            Some(self.smoothed_lag)
        } else {
            // `mult` floors, so the confidence decays to 0 and stays there
            // until a strong part resets it.
            self.confidence = mult(self.confidence, Word16(29491));
            None
        };
        self.weight_towards_history = self.confidence.0 >= 26214;
        refreshed
    }

    /// Search one frame of decimated weighted speech for its open-loop lags.
    ///
    /// `weighted` is one frame of weighted speech at 6.4 kHz, already scaled.
    pub fn analyse(
        &mut self,
        ctx: &mut DspContext,
        weighted: &[Word16],
        mode: PitchMode,
    ) -> (lags: OpenLoopLags)
        requires
            old(self).wf(),
            weighted.len() == 128,
        ensures
            final(self).wf(),
            lags == analysed_lags(old(self).view(), weighted@, mode),
            final(self).view() == analysed(old(self).view(), weighted@, mode),
            36 <= lags.first_half <= 230,
            36 <= lags.second_half <= 230,
    {
        proof {
            reveal(analysed);
            reveal(analysed_lags);
        }
        let ghost v = self.view();
        let mut buffer: [Word16; 243] = [Word16(0); 243];
        for i in 0..243usize
            invariant
                weighted.len() == 128,
                self.view() == v,
                v.history.len() == 115,
                v.history == self.history@,
                forall|j: int|
                    0 <= j < i ==> #[trigger] buffer@[j] == (v.history + weighted@)[j],
        {
            buffer[i] = if i < WSP_HISTORY {
                self.history[i]
            } else {
                weighted[i - WSP_HISTORY]
            };
        }
        assert(buffer@ =~= v.history + weighted@);
        let whole: bool = mode.open_loop_spans_frame();
        let span: usize = if whole {
            WSP_FRAME
        } else {
            64
        };
        let first: i16 = self.scan(ctx, &buffer, WSP_HISTORY, span);
        let smoothed: Option<i16> = self.absorb(ctx, first);
        let second: i16 = if whole {
            first
        } else {
            let lag: i16 = self.scan(ctx, &buffer, WSP_HISTORY + span, span);
            let _ = self.absorb(ctx, lag);
            lag
        };
        let ghost before = self.view();
        for i in 0..WSP_HISTORY
            invariant
                self.view() == (OpenLoopView { history: self.history@, ..before }),
                before.history.len() == 115,
                forall|j: int| 0 <= j < i ==> #[trigger] self.history@[j] == buffer@[j + 128],
        {
            self.history[i] = buffer[WSP_FRAME + i];
        }
        assert(self.history@ =~= buffer@.subrange(128, 243));
        OpenLoopLags {
            first_half: first * 2,
            second_half: second * 2,
            smoothed_after_first_half: smoothed,
        }
    }
}

// ---------------------------------------------------------------------------
// Candidates and their gains
// ---------------------------------------------------------------------------

/// `input` through the impulse response, from rest.
pub open spec fn convolved(input: Seq<Word16>, response: Seq<Word16>) -> Seq<Word16> {
    Seq::new(
        64,
        |n: int|
            if n < input.len() {
                round(conv_run(Word32(0), input, response, n, n + 1))
            } else {
                Word16(0)
            },
    )
}

/// Convolve `input` with the impulse response `response`, zero initial state.
///
/// Lower-triangular, so `output[n]` sees only `input[0..=n]`. `response` is
/// Q15; the output carries the input's Q.
#[must_use]
pub fn convolve(_ctx: &mut DspContext, input: &[Word16], response: &[Word16]) -> (output: [Word16;
    L_SUBFR])
    requires
        input.len() <= response.len(),
    ensures
        output@ == convolved(input@, response@),
{
    let mut output: [Word16; L_SUBFR] = [Word16(0); L_SUBFR];
    let count: usize = if input.len() < L_SUBFR {
        input.len()
    } else {
        L_SUBFR
    };
    for n in 0..count
        invariant
            count <= 64,
            count <= input.len() <= response.len(),
            forall|j: int| 0 <= j < n ==> #[trigger] output@[j] == convolved(input@, response@)[j],
            forall|j: int| n <= j < 64 ==> #[trigger] output@[j] == Word16(0),
    {
        output[n] = round(convolve_at(Word32(0), input, response, n, n + 1));
    }
    assert(output@ =~= convolved(input@, response@));
    output
}

/// A target with a scaled contribution taken out, truncated.
pub open spec fn updated_target(
    target: Seq<Word16>,
    filtered: Seq<Word16>,
    gain: Word16,
) -> Seq<Word16> {
    Seq::new(
        64,
        |i: int|
            extract_h(l_shl(l_msu(l_mult(target[i], Word16(16384)), filtered[i], gain), 1)),
    )
}

/// Subtract a scaled filtered contribution from the target.
///
/// `gain` is Q14. The result truncates rather than rounds.
#[must_use]
pub fn update_target(
    _ctx: &mut DspContext,
    target: &[Word16],
    filtered: &[Word16],
    gain: Word16,
) -> (out: [Word16; L_SUBFR])
    requires
        target.len() >= 64,
        filtered.len() >= 64,
    ensures
        out@ == updated_target(target@, filtered@, gain),
{
    let mut out: [Word16; L_SUBFR] = [Word16(0); L_SUBFR];
    for i in 0..L_SUBFR
        invariant
            target.len() >= 64,
            filtered.len() >= 64,
            forall|j: int|
                0 <= j < i ==> #[trigger] out@[j] == updated_target(target@, filtered@, gain)[j],
    {
        let acc = l_msu(l_mult(target[i], Word16(16384)), filtered[i], gain);
        out[i] = extract_h(l_shl(acc, 1));
    }
    assert(out@ =~= updated_target(target@, filtered@, gain));
    out
}

/// The correlations a pitch gain leaves behind for the gain quantiser.
#[derive(Clone, Copy, PartialEq, Eq, Structural, Debug)]
pub struct GainCorrelations {
    /// Energy of the filtered candidate, normalised to Q15.
    pub energy: Word16,
    /// Exponent of [`Self::energy`].
    pub energy_exp: i16,
    /// Correlation with the target, normalised to Q15.
    pub correlation: Word16,
    /// Exponent of [`Self::correlation`].
    pub correlation_exp: i16,
}

/// No correlations at all.
pub open spec fn no_correlations() -> GainCorrelations {
    GainCorrelations {
        energy: Word16(0),
        energy_exp: 0,
        correlation: Word16(0),
        correlation_exp: 0,
    }
}

impl Default for GainCorrelations {
    fn default() -> (c: Self)
        ensures
            c == no_correlations(),
    {
        GainCorrelations {
            energy: Word16(0),
            energy_exp: 0,
            correlation: Word16(0),
            correlation_exp: 0,
        }
    }
}

/// The correlations of a target and a filtered candidate.
pub open spec fn correlations_of(target: Seq<Word16>, filtered: Seq<Word16>) -> GainCorrelations {
    let energy = spec_dot_product12(filtered, filtered);
    let correlation = spec_dot_product12(target, filtered);
    GainCorrelations {
        energy: extract_h(energy.0),
        energy_exp: energy.1,
        correlation: extract_h(correlation.0),
        correlation_exp: correlation.1,
    }
}

/// The least-squares gain of a candidate, Q14, at most 1.2; zero where the
/// correlation is negative.
pub open spec fn least_squares_gain(c: GainCorrelations) -> Word16 {
    if c.correlation.0 < 0 {
        Word16(0)
    } else {
        let ratio = div_s(shr(c.correlation, 1), c.energy);
        let gain = shl(ratio, sub_s(Word16(c.correlation_exp), Word16(c.energy_exp)).0);
        if gain.0 > 19661 {
            Word16(19661)
        } else {
            gain
        }
    }
}

/// The least-squares pitch gain for one candidate, Q14, clamped to `[0, 1.2]`.
///
/// `target` is the pitch target and `filtered` the candidate through the
/// impulse response. The correlations come back regardless of the result: the
/// gain quantiser reads them either way.
#[must_use]
pub fn pitch_gain(_ctx: &mut DspContext, target: &[Word16], filtered: &[Word16]) -> (r: (
    Word16,
    GainCorrelations,
))
    ensures
        r.1 == correlations_of(target@, filtered@),
        r.0 == least_squares_gain(r.1),
        0 <= r.0.0 <= 19661,
        r.1.energy.0 >= 0x4000,
        0 <= r.1.energy_exp <= 30,
        -1 <= r.1.correlation_exp <= 30,
{
    let (energy, energy_exp) = dot_product12(filtered, filtered);
    let (correlation, correlation_exp) = dot_product12(target, filtered);
    let energy_h = extract_h(energy);
    let correlation_h = extract_h(correlation);
    proof {
        reveal(crate::fixed_point::spec_extract_h);
    }
    let coefficients = GainCorrelations {
        energy: energy_h,
        energy_exp,
        correlation: correlation_h,
        correlation_exp,
    };
    if correlation_h.0 < 0 {
        return (Word16(0), coefficients);
    }
    proof {
        lemma_half(correlation_h);
    }
    let ratio = div_s(shr(correlation_h, 1), energy_h);
    // Saturating: an over-range ratio is meant to land on the clamp below.
    let exp: i16 = sub_s(Word16(correlation_exp), Word16(energy_exp)).0;
    proof {
        lemma_shl_nonnegative(ratio, exp);
    }
    let gain = shl(ratio, exp);
    if gain.0 > 19661 {
        (Word16(19661), coefficients)
    } else {
        (gain, coefficients)
    }
}

proof fn lemma_shl_nonnegative(a: Word16, n: i16)
    requires
        a.0 >= 0,
    ensures
        shl(a, n).0 >= 0,
{
    reveal(crate::fixed_point::spec_shl);
    let k = if n >= 0 {
        n as nat
    } else {
        (-n) as nat
    };
    vstd::arithmetic::power2::lemma_pow2_pos(k);
    let p = vstd::arithmetic::power2::pow2(k) as int;
    let v = a.0 as int;
    assert(v * p >= 0 && 0 <= v / p <= v) by (nonlinear_arith)
        requires
            v >= 0,
            p > 0,
    ;
}

/// The two long-term-prediction candidates and the choice between them.
#[derive(Clone, Copy, Debug)]
pub struct LtpDecision {
    /// Gain of the unfiltered candidate, Q14. Zero below 12.65 kbit/s, where
    /// the candidate does not exist.
    pub sharp_gain: Word16,
    /// Gain of the low-pass-filtered candidate, Q14.
    pub smooth_gain: Word16,
    /// The unfiltered candidate through the impulse response.
    pub sharp_response: [Word16; L_SUBFR],
    /// The filtered candidate through the impulse response.
    pub smooth_response: [Word16; L_SUBFR],
    /// True when the unfiltered candidate wins.
    pub prefer_sharp: bool,
    /// The codebook-search target left by the winning candidate.
    pub codebook_target: [Word16; L_SUBFR],
    /// The correlations of the winning candidate.
    pub correlations: GainCorrelations,
}

impl LtpDecision {
    /// The winning candidate's gain, before quantisation, Q14.
    #[must_use]
    pub fn gain(&self) -> (g: Word16)
        ensures
            g == if self.prefer_sharp {
                self.sharp_gain
            } else {
                self.smooth_gain
            },
    {
        if self.prefer_sharp {
            self.sharp_gain
        } else {
            self.smooth_gain
        }
    }

    /// The winning candidate's response.
    #[must_use]
    pub fn response(&self) -> (r: &[Word16; L_SUBFR])
        ensures
            r@ == if self.prefer_sharp {
                self.sharp_response@
            } else {
                self.smooth_response@
            },
    {
        if self.prefer_sharp {
            &self.sharp_response
        } else {
            &self.smooth_response
        }
    }
}

/// A gain, capped when clipping is active.
pub open spec fn capped_gain(gain: Word16, clip: bool) -> Word16 {
    if clip && gain.0 > GP_CLIP {
        Word16(GP_CLIP)
    } else {
        gain
    }
}

/// One candidate weighed against the target.
pub struct CandidateView {
    /// The candidate through the impulse response.
    pub response: Seq<Word16>,
    /// Its correlations with the target.
    pub correlations: GainCorrelations,
    /// Its gain, capped when clipping is active.
    pub gain: Word16,
    /// The target it leaves.
    pub target: Seq<Word16>,
}

/// A candidate weighed against the target.
pub open spec fn weighed(
    vector: Seq<Word16>,
    target: Seq<Word16>,
    response: Seq<Word16>,
    clip: bool,
) -> CandidateView {
    let y = convolved(vector, response);
    let c = correlations_of(target, y);
    let gain = capped_gain(least_squares_gain(c), clip);
    CandidateView { response: y, correlations: c, gain, target: updated_target(target, y, gain) }
}

/// The low-passed candidate of the subframe at `offset`.
pub open spec fn smooth_vector(excitation: Seq<Word16>, offset: int) -> Seq<Word16> {
    Seq::new(64, |i: int| smoothed_at(excitation, offset + i))
}

/// The accumulator after `n` squares of `x` have been taken out.
pub open spec fn msu_run(seed: Word32, x: Seq<Word16>, n: int) -> Word32
    decreases n,
{
    if n <= 0 {
        seed
    } else {
        l_msu(msu_run(seed, x, n - 1), x[n - 1], x[n - 1])
    }
}

/// The sharp candidate's error less the smooth one's, as one running sum.
pub open spec fn error_balance(sharp: Seq<Word16>, smooth: Seq<Word16>) -> Word32 {
    msu_run(mac_run(Word32(0), sharp, 0, sharp, 0, 64), smooth, 64)
}

/// One candidate weighed against the target.
struct Candidate {
    response: [Word16; L_SUBFR],
    correlations: GainCorrelations,
    gain: Word16,
    target: [Word16; L_SUBFR],
}

impl Candidate {
    spec fn view(&self) -> CandidateView {
        CandidateView {
            response: self.response@,
            correlations: self.correlations,
            gain: self.gain,
            target: self.target@,
        }
    }
}

/// Filter a candidate, gain it, and take it out of the target.
fn weigh(
    ctx: &mut DspContext,
    vector: &[Word16],
    target: &[Word16],
    response: &[Word16],
    clip: bool,
) -> (c: Candidate)
    requires
        vector.len() == 64,
        target.len() >= 64,
        response.len() >= 64,
    ensures
        c.view() == weighed(vector@, target@, response@, clip),
{
    let y = convolve(ctx, vector, response);
    let (gain, correlations) = pitch_gain(ctx, target, &y);
    let gain = if clip && gain.0 > GP_CLIP {
        Word16(GP_CLIP)
    } else {
        gain
    };
    let left = update_target(ctx, target, &y, gain);
    Candidate { response: y, correlations, gain, target: left }
}

/// The running difference of the two candidates' errors.
fn balance(sharp: &[Word16; L_SUBFR], smooth: &[Word16; L_SUBFR]) -> (acc: Word32)
    ensures
        acc == error_balance(sharp@, smooth@),
{
    let seed = accumulate(Word32(0), sharp, 0, sharp, 0, L_SUBFR);
    let mut acc = seed;
    for i in 0..L_SUBFR
        invariant
            acc == msu_run(seed, smooth@, i as int),
    {
        acc = l_msu(acc, smooth[i], smooth[i]);
    }
    acc
}

/// Build both long-term candidates, gain them, and keep the better one.
///
/// On entry `excitation` holds the adaptive codebook vector at `offset`, 65
/// samples, because the low-pass reads one past the subframe. On return
/// `excitation[offset..offset + L_SUBFR]` holds whichever candidate won.
/// A tie goes to the unfiltered candidate.
pub fn choose_ltp(
    ctx: &mut DspContext,
    excitation: &mut [Word16],
    offset: usize,
    target: &[Word16],
    response: &[Word16],
    clip: bool,
    mode: PitchMode,
) -> (d: LtpDecision)
    requires
        offset >= 1,
        offset + 64 < old(excitation).len(),
        target.len() >= 64,
        response.len() >= 64,
    ensures
        final(excitation)@.len() == old(excitation)@.len(),
        ({
            let e = old(excitation)@;
            let o = offset as int;
            let has_sharp = mode.frame_bits() > BITS_8K85;
            let smooth = weighed(smooth_vector(e, o), target@, response@, clip);
            let sharp = weighed(e.subrange(o, o + 64), target@, response@, clip);
            &&& d.smooth_gain == smooth.gain
            &&& d.smooth_response@ == smooth.response
            &&& d.sharp_gain == if has_sharp {
                sharp.gain
            } else {
                Word16(0)
            }
            &&& d.sharp_response@ == if has_sharp {
                sharp.response
            } else {
                Seq::new(64, |i: int| Word16(0))
            }
            &&& d.prefer_sharp == (has_sharp && error_balance(sharp.target, smooth.target).0 <= 0)
            &&& d.codebook_target@ == if d.prefer_sharp {
                sharp.target
            } else {
                smooth.target
            }
            &&& d.correlations == if d.prefer_sharp {
                sharp.correlations
            } else {
                smooth.correlations
            }
            &&& forall|i: int|
                0 <= i < e.len() ==> #[trigger] final(excitation)@[i] == if !d.prefer_sharp && o
                    <= i < o + 64 {
                    smooth_vector(e, o)[i - o]
                } else {
                    e[i]
                }
        }),
{
    let ghost e = excitation@;
    let smoothed = low_pass(excitation, offset);
    assert(smoothed@ =~= smooth_vector(e, offset as int));
    let smooth = weigh(ctx, &smoothed, target, response, clip);
    let zero: [Word16; L_SUBFR] = [Word16(0); L_SUBFR];
    assert(zero@ =~= Seq::new(64, |i: int| Word16(0)));
    let mut sharp_gain = Word16(0);
    let mut sharp_response: [Word16; L_SUBFR] = zero;
    if mode.has_sharp_candidate() {
        let part = vstd::slice::slice_subrange(&*excitation, offset, offset + L_SUBFR);
        let sharp = weigh(ctx, part, target, response, clip);
        sharp_gain = sharp.gain;
        sharp_response = sharp.response;
        let difference = balance(&sharp.target, &smooth.target);
        if difference.0 <= 0 {
            return LtpDecision {
                sharp_gain,
                smooth_gain: smooth.gain,
                sharp_response,
                smooth_response: smooth.response,
                prefer_sharp: true,
                codebook_target: sharp.target,
                correlations: sharp.correlations,
            };
        }
    }
    for i in 0..L_SUBFR
        invariant
            offset + 64 < excitation.len(),
            excitation@.len() == e.len(),
            forall|j: int|
                0 <= j < e.len() ==> #[trigger] excitation@[j] == if offset <= j < offset + i {
                    smoothed@[j - offset]
                } else {
                    e[j]
                },
    {
        excitation[offset + i] = smoothed[i];
    }
    LtpDecision {
        sharp_gain,
        smooth_gain: smooth.gain,
        sharp_response,
        smooth_response: smooth.response,
        prefer_sharp: false,
        codebook_target: smooth.target,
        correlations: smooth.correlations,
    }
}

// ---------------------------------------------------------------------------
// Closed loop
// ---------------------------------------------------------------------------

/// What constrains one subframe's closed-loop search.
#[derive(Clone, Copy, PartialEq, Eq, Structural, Debug)]
pub struct SearchLimits {
    /// The 16 integer lags to try.
    pub window: LagWindow,
    /// This subframe carries an *absolute* pitch index rather than one
    /// relative to the last. Only those are allowed to drop below
    /// quarter-sample resolution.
    pub absolute: bool,
    /// Where the fraction coarsens, which the index width decides.
    pub resolution: LagResolution,
}

/// The past excitation filtered at delay `t`: convolved at the first delay,
/// then one cheaper step per delay.
pub open spec fn filtered_at(
    excitation: Seq<Word16>,
    offset: int,
    response: Seq<Word16>,
    first: int,
    t: int,
) -> Seq<Word16>
    decreases t,
{
    if t <= first || t <= 0 {
        convolved(excitation.subrange(offset - first, offset - first + 64), response)
    } else {
        let before = filtered_at(excitation, offset, response, first, t - 1);
        let sample = excitation[offset - t];
        Seq::new(
            64,
            |i: int|
                if i == 0 {
                    mult(sample, response[0])
                } else {
                    add_s(mult(sample, response[i]), before[i - 1])
                },
        )
    }
}

/// The subframe's headroom shift, from the target's energy.
pub open spec fn target_scale(target: Seq<Word16>) -> i16 {
    let energy = mac_run(Word32(1), target, 0, target, 0, target.len() as int);
    let exp = add_s(sub_s(Word16(30), Word16(norm_l(energy))), Word16(2));
    negate(shr(exp, 1)).0
}

/// The normalised correlation of a target and a filtered excitation, Q15.
#[verifier::opaque]
pub open spec fn correlation_of(target: Seq<Word16>, filtered: Seq<Word16>, scale: i16) -> Word16 {
    let cross = mac_run(Word32(1), target, 0, filtered, 0, 64);
    let energy = mac_run(Word32(1), filtered, 0, filtered, 0, 64);
    let cross_exp = sub_s(Word16(30), Word16(norm_l(cross)));
    let (root, root_exp) = isqrt_n(
        (
            l_shl(energy, norm_l(energy)),
            sub_s(Word16(30), Word16(norm_l(energy))).0,
        ),
    );
    let product = l_mult(extract_h(l_shl(cross, norm_l(cross))), extract_h(root));
    let total = add_s(add_s(cross_exp, Word16(root_exp)), Word16(scale));
    round(l_shl(product, total.0))
}

/// The normalised correlation at delay `t`.
pub open spec fn delay_correlation(
    excitation: Seq<Word16>,
    offset: int,
    target: Seq<Word16>,
    response: Seq<Word16>,
    first: int,
    t: int,
) -> Word16 {
    correlation_of(
        target,
        filtered_at(excitation, offset, response, first, t),
        target_scale(target),
    )
}

/// The correlations from four delays below the window to four above it.
pub open spec fn window_correlations(
    excitation: Seq<Word16>,
    offset: int,
    target: Seq<Word16>,
    response: Seq<Word16>,
    window: LagWindow,
) -> Seq<Word16> {
    Seq::new(
        40,
        |k: int|
            if k <= window.max - window.min + 8 {
                delay_correlation(
                    excitation,
                    offset,
                    target,
                    response,
                    window.min - 4,
                    window.min - 4 + k,
                )
            } else {
                Word16(0)
            },
    )
}

/// The best of the first `n + 1` lags of the window; a tie goes to the longer.
pub open spec fn best_integer(corr: Seq<Word16>, n: int) -> int
    decreases n,
{
    if n <= 0 {
        0
    } else {
        let best = best_integer(corr, n - 1);
        if corr[n + 4].0 >= corr[best + 4].0 {
            n
        } else {
            best
        }
    }
}

/// `n` taps of the correlation interpolator.
pub open spec fn interpolator(corr: Seq<Word16>, base: int, k: int, n: int) -> Word32
    decreases n,
{
    if n <= 0 {
        Word32(0)
    } else {
        l_mac(
            interpolator(corr, base, k, n - 1),
            corr[base + n - 1],
            Word16(INTER4_1@[k + 4 * (n - 1)]),
        )
    }
}

/// The correlation at `fraction` quarters of a sample from `centre`; a
/// negative fraction borrows a whole sample.
pub open spec fn interpolated_at(corr: Seq<Word16>, centre: int, fraction: int) -> Word16 {
    let (phase, base) = if fraction < 0 {
        (fraction + 4, centre - 4)
    } else {
        (fraction, centre - 3)
    };
    round(l_shl(interpolator(corr, base, 3 - phase, 8), 1))
}

/// The best fraction from `start` in steps up to `candidate`; a tie keeps the
/// smaller.
pub open spec fn best_fraction(
    corr: Seq<Word16>,
    centre: int,
    start: int,
    step: int,
    candidate: int,
) -> int
    decreases
        if candidate > start {
            candidate - start
        } else {
            0
        },
{
    if step <= 0 || candidate <= start {
        start
    } else {
        let best = best_fraction(corr, centre, start, step, candidate - step);
        if interpolated_at(corr, centre, candidate).0 > interpolated_at(corr, centre, best).0 {
            candidate
        } else {
            best
        }
    }
}

/// The integer lag and the fraction of a closed-loop search over the given
/// correlations.
pub open spec fn closed_loop_choice(corr: Seq<Word16>, limits: SearchLimits) -> (int, int) {
    let w = limits.window;
    let n = best_integer(corr, w.max - w.min);
    let lag = w.min + n;
    if limits.absolute && lag >= limits.resolution.whole_from {
        (lag, 0)
    } else {
        let coarse = (limits.absolute && lag >= limits.resolution.half_from)
            || limits.resolution.half_from == PIT_MIN;
        let step = if coarse {
            2int
        } else {
            1
        };
        let start = if n == 0 {
            0int
        } else if coarse {
            -2
        } else {
            -3
        };
        let last = if coarse {
            2int
        } else {
            3
        };
        let fraction = best_fraction(corr, n + 4, start, step, last);
        if fraction < 0 {
            (lag - 1, fraction + 4)
        } else {
            (lag, fraction)
        }
    }
}

/// One interpolated correlation.
fn interpolate(corr: &[Word16; 40], centre: usize, fraction: i16) -> (r: Word16)
    requires
        4 <= centre <= 35,
        -3 <= fraction <= 3,
    ensures
        r == interpolated_at(corr@, centre as int, fraction as int),
{
    let (phase, base): (usize, usize) = if fraction < 0 {
        ((fraction + 4) as usize, centre - 4)
    } else {
        (fraction as usize, centre - 3)
    };
    let k: usize = 3 - phase;
    let mut acc = Word32(0);
    for i in 0..8usize
        invariant
            base <= 32,
            k <= 3,
            acc == interpolator(corr@, base as int, k as int, i as int),
    {
        acc = l_mac(acc, corr[base + i], Word16(INTER4_1[k + 4 * i]));
    }
    round(l_shl(acc, 1))
}

/// The normalised correlation of a target and a filtered excitation.
fn correlate(target: &[Word16], filtered: &[Word16; L_SUBFR], scale: i16) -> (r: Word16)
    requires
        target.len() >= 64,
    ensures
        r == correlation_of(target@, filtered@, scale),
{
    proof {
        reveal(correlation_of);
    }
    let cross = accumulate(Word32(1), target, 0, filtered, 0, L_SUBFR);
    let shift: i16 = norm_l(cross);
    let cross_exp = sub_s(Word16(30), Word16(shift));
    // Truncation here and below, but rounding on the result.
    let corr = extract_h(l_shl(cross, shift));
    let energy = accumulate(Word32(1), filtered, 0, filtered, 0, L_SUBFR);
    let shift: i16 = norm_l(energy);
    proof {
        lemma_norm_l(energy);
    }
    let (root, root_exp) = isqrt_n(
        (l_shl(energy, shift), sub_s(Word16(30), Word16(shift)).0),
    );
    let product = l_mult(corr, extract_h(root));
    let total = add_s(add_s(cross_exp, Word16(root_exp)), Word16(scale));
    round(l_shl(product, total.0))
}

/// The normalised correlation for every delay of the window and four either
/// side of it.
fn normalised_correlation(
    ctx: &mut DspContext,
    excitation: &[Word16],
    offset: usize,
    target: &[Word16],
    response: &[Word16],
    window: LagWindow,
) -> (corr: [Word16; 40])
    requires
        4 <= window.min <= window.max,
        window.max - window.min <= 31,
        window.max + 4 <= offset,
        offset - (window.min - 4) + 64 <= excitation.len(),
        target.len() >= 64,
        response.len() >= 64,
    ensures
        corr@ == window_correlations(excitation@, offset as int, target@, response@, window),
{
    let first: usize = (window.min - 4) as usize;
    let count: usize = (window.max - window.min) as usize + 9;
    let ghost want = window_correlations(excitation@, offset as int, target@, response@, window);
    let start = vstd::slice::slice_subrange(excitation, offset - first, offset - first + L_SUBFR);
    let mut filtered = convolve(ctx, start, response);
    let energy = accumulate(Word32(1), target, 0, target, 0, target.len());
    let exp = add_s(sub_s(Word16(30), Word16(norm_l(energy))), Word16(2));
    let scale: i16 = negate(shr(exp, 1)).0;
    let mut corr: [Word16; 40] = [Word16(0); 40];
    for k in 0..count
        invariant
            first == window.min - 4,
            count == window.max - window.min + 9,
            4 <= window.min <= window.max,
            window.max - window.min <= 31,
            window.max + 4 <= offset,
            offset - (window.min - 4) + 64 <= excitation.len(),
            target.len() >= 64,
            response.len() >= 64,
            scale == target_scale(target@),
            want == window_correlations(excitation@, offset as int, target@, response@, window),
            k < count ==> filtered@ == filtered_at(
                excitation@,
                offset as int,
                response@,
                first as int,
                first + k,
            ),
            forall|j: int| 0 <= j < k ==> #[trigger] corr@[j] == want[j],
            forall|j: int| k <= j < 40 ==> #[trigger] corr@[j] == Word16(0),
    {
        corr[k] = correlate(target, &filtered, scale);
        if k + 1 < count {
            let t: usize = first + k + 1;
            let sample = excitation[offset - t];
            let ghost before = filtered@;
            let mut i: usize = 63;
            // In place and descending, so each slot still sees the previous
            // delay's value.
            while i > 0
                invariant
                    i <= 63,
                    response.len() >= 64,
                    forall|j: int| 0 <= j <= i ==> #[trigger] filtered@[j] == before[j],
                    forall|j: int|
                        i < j < 64 ==> #[trigger] filtered@[j] == add_s(
                            mult(sample, response@[j]),
                            before[j - 1],
                        ),
                decreases i,
            {
                filtered[i] = add_s(mult(sample, response[i]), filtered[i - 1]);
                i = i - 1;
            }
            filtered[0] = mult(sample, response[0]);
            assert(filtered@ =~= filtered_at(
                excitation@,
                offset as int,
                response@,
                first as int,
                first + k + 1,
            ));
        }
    }
    assert(corr@ =~= want);
    corr
}

pub proof fn lemma_best_integer(corr: Seq<Word16>, n: int)
    requires
        n >= 0,
    ensures
        0 <= best_integer(corr, n) <= n,
    decreases n,
{
    if n > 0 {
        lemma_best_integer(corr, n - 1);
    }
}

/// The integer stage of the search: the offset of the best lag in the window.
fn pick_integer(corr: &[Word16; 40], span: usize) -> (n: usize)
    requires
        span <= 31,
    ensures
        n == best_integer(corr@, span as int),
        n <= span,
{
    let mut best: usize = 0;
    let mut n: usize = 0;
    while n < span
        invariant
            n <= span <= 31,
            best <= n,
            best == best_integer(corr@, n as int),
        decreases span - n,
    {
        n = n + 1;
        if corr[n + 4].0 >= corr[best + 4].0 {
            best = n;
        }
    }
    best
}

/// The fractional stage of the search.
fn pick_fraction(corr: &[Word16; 40], centre: usize, start: i16, coarse: bool) -> (fraction: i16)
    requires
        4 <= centre <= 35,
        start == 0 || start == if coarse {
            -2int
        } else {
            -3
        },
    ensures
        fraction == best_fraction(
            corr@,
            centre as int,
            start as int,
            if coarse {
                2
            } else {
                1
            },
            if coarse {
                2
            } else {
                3
            },
        ),
        start <= fraction <= 3,
{
    let step: i16 = if coarse {
        2
    } else {
        1
    };
    let last: i16 = if coarse {
        2
    } else {
        3
    };
    let mut fraction: i16 = start;
    let mut best = interpolate(corr, centre, start);
    let mut candidate: i16 = start;
    while candidate < last
        invariant
            4 <= centre <= 35,
            step == if coarse {
                2int
            } else {
                1
            },
            last == if coarse {
                2int
            } else {
                3
            },
            -3 <= start <= candidate <= last,
            coarse ==> candidate % 2 == 0,
            start <= fraction <= candidate,
            best == interpolated_at(corr@, centre as int, fraction as int),
            fraction == best_fraction(
                corr@,
                centre as int,
                start as int,
                step as int,
                candidate as int,
            ),
        decreases last - candidate,
    {
        candidate = candidate + step;
        let value = interpolate(corr, centre, candidate);
        if value.0 > best.0 {
            best = value;
            fraction = candidate;
        }
    }
    fraction
}

/// The closed-loop pitch search.
///
/// Returns an integer lag in 12.8 kHz samples and a fraction in quarters,
/// always in `0..=3`.
///
/// `excitation[offset - t]` must be valid for every `t` up to four past the
/// window; `excitation[offset..offset + L_SUBFR]` holds this subframe's LP
/// residual, which short lags genuinely read.
#[must_use]
pub fn closed_loop_lag(
    ctx: &mut DspContext,
    excitation: &[Word16],
    offset: usize,
    target: &[Word16],
    response: &[Word16],
    limits: SearchLimits,
) -> (r: (i16, i16))
    requires
        4 <= limits.window.min <= limits.window.max,
        limits.window.max - limits.window.min <= 31,
        limits.window.max + 4 <= offset,
        offset - (limits.window.min - 4) + 64 <= excitation.len(),
        target.len() >= 64,
        response.len() >= 64,
    ensures
        (r.0 as int, r.1 as int) == closed_loop_choice(
            window_correlations(excitation@, offset as int, target@, response@, limits.window),
            limits,
        ),
        limits.window.min <= r.0 <= limits.window.max,
        0 <= r.1 <= 3,
{
    let window = limits.window;
    let corr = normalised_correlation(ctx, excitation, offset, target, response, window);
    let n: usize = pick_integer(&corr, (window.max - window.min) as usize);
    let lag: i16 = window.min + n as i16;
    if limits.absolute && lag >= limits.resolution.whole_from {
        return (lag, 0);
    }
    let coarse: bool = (limits.absolute && lag >= limits.resolution.half_from)
        || limits.resolution.half_from == PIT_MIN;
    // A lag on the window's floor cannot be pushed below it.
    let start: i16 = if n == 0 {
        0
    } else if coarse {
        -2
    } else {
        -3
    };
    let fraction: i16 = pick_fraction(&corr, n + 4, start, coarse);
    if fraction < 0 {
        (lag - 1, fraction + 4)
    } else {
        (lag, fraction)
    }
}

// ---------------------------------------------------------------------------
// Gain clipping
// ---------------------------------------------------------------------------

/// Long-term tracker that decides when to clip the pitch gain.
///
/// Accumulated prediction error makes a decoder that missed a frame diverge,
/// so once the pitch has been strongly predictive for about 250 ms the encoder
/// caps the gain at 0.95.
#[derive(Clone, Copy, PartialEq, Eq, Structural, Debug)]
pub struct GainClipping {
    /// Smoothed minimum gap between adjacent ISFs.
    pub isf_gap: Word16,
    /// Smoothed quantised pitch gain, Q14.
    pub mean_gain: Word16,
}

/// The smallest gap between the first `n` of the ISFs, the top one excluded.
pub open spec fn smallest_gap(isf: Seq<Word16>, n: int) -> Word16
    decreases n,
{
    if n <= 2 {
        sub_s(isf[1], isf[0])
    } else {
        let best = smallest_gap(isf, n - 1);
        let gap = sub_s(isf[n - 1], isf[n - 2]);
        if gap.0 < best.0 {
            gap
        } else {
            best
        }
    }
}

/// The resonance measure after a frame's ISFs.
pub open spec fn next_gap(gap: Word16, mode: PitchMode, isf: Seq<Word16>) -> Word16 {
    let smoothed = extract_h(
        l_mac(l_mult(Word16(26214), gap), Word16(6554), smallest_gap(isf, 15)),
    );
    let ceiling = if interoperable(mode) {
        384i16
    } else {
        307i16
    };
    if smoothed.0 > ceiling {
        Word16(ceiling)
    } else {
        smoothed
    }
}

/// The long-term gain after a subframe's quantised gain.
pub open spec fn next_mean_gain(mean: Word16, mode: PitchMode, gain: Word16) -> Word16 {
    let acc = if interoperable(mode) {
        l_mac(l_mult(Word16(32113), mean), Word16(655), gain)
    } else {
        l_mac(l_mult(Word16(29491), mean), Word16(3277), gain)
    };
    if extract_h(acc).0 < 9830 {
        Word16(9830)
    } else {
        extract_h(acc)
    }
}

/// Whether pitch gains must be capped.
pub open spec fn clipping(c: GainClipping, mode: PitchMode) -> bool {
    if interoperable(mode) {
        let slope = mult(Word16(1638), extract_l(l_mult(c.isf_gap, Word16(42))));
        c.mean_gain.0 > add_s(Word16(14746), slope).0
    } else {
        c.isf_gap.0 < 154 && c.mean_gain.0 > 14746
    }
}

impl Default for GainClipping {
    fn default() -> (c: Self)
        ensures
            c == (GainClipping { isf_gap: Word16(307), mean_gain: Word16(9830) }),
    {
        GainClipping { isf_gap: Word16(307), mean_gain: Word16(9830) }
    }
}

impl GainClipping {
    /// The reset state: the same for every mode, including the two that later
    /// clamp the gap to 384.
    #[must_use]
    pub fn new() -> (c: Self)
        ensures
            c == (GainClipping { isf_gap: Word16(307), mean_gain: Word16(9830) }),
    {
        GainClipping { isf_gap: Word16(307), mean_gain: Word16(9830) }
    }

    /// Fold this frame's *unquantised* ISF vector into the resonance measure.
    pub fn observe_isf(&mut self, _ctx: &mut DspContext, mode: PitchMode, isf: &[Word16])
        requires
            isf.len() >= 16,
        ensures
            *final(self) == (GainClipping {
                isf_gap: next_gap(old(self).isf_gap, mode, isf@),
                ..*old(self)
            }),
    {
        let mut smallest = sub_s(isf[1], isf[0]);
        for i in 2..15usize
            invariant
                isf.len() >= 16,
                smallest == smallest_gap(isf@, i as int),
        {
            let gap = sub_s(isf[i], isf[i - 1]);
            if gap.0 < smallest.0 {
                smallest = gap;
            }
        }
        let smoothed = extract_h(
            l_mac(l_mult(Word16(26214), self.isf_gap), Word16(6554), smallest),
        );
        let ceiling: i16 = if mode.interoperable_clipping() {
            384
        } else {
            307
        };
        self.isf_gap = if smoothed.0 > ceiling {
            Word16(ceiling)
        } else {
            smoothed
        };
    }

    /// Fold one subframe's *quantised* pitch gain into the long-term average.
    pub fn observe_gain(&mut self, _ctx: &mut DspContext, mode: PitchMode, gain_pit: Word16)
        ensures
            *final(self) == (GainClipping {
                mean_gain: next_mean_gain(old(self).mean_gain, mode, gain_pit),
                ..*old(self)
            }),
    {
        let acc = if mode.interoperable_clipping() {
            l_mac(l_mult(Word16(32113), self.mean_gain), Word16(655), gain_pit)
        } else {
            l_mac(l_mult(Word16(29491), self.mean_gain), Word16(3277), gain_pit)
        };
        let gain = extract_h(acc);
        self.mean_gain = if gain.0 < 9830 {
            Word16(9830)
        } else {
            gain
        };
    }

    /// Whether this subframe's pitch gains must be capped.
    #[must_use]
    pub fn clips(&self, _ctx: &mut DspContext, mode: PitchMode) -> (r: bool)
        ensures
            r == clipping(*self, mode),
    {
        if mode.interoperable_clipping() {
            let slope = mult(Word16(1638), extract_l(l_mult(self.isf_gap, Word16(42))));
            self.mean_gain.0 > add_s(Word16(14746), slope).0
        } else {
            self.isf_gap.0 < 154 && self.mean_gain.0 > 14746
        }
    }
}

/// Build the adaptive codebook vector for one subframe.
///
/// The encoder asks for 65 samples instead of 64, so that the long-term
/// low-pass can read one past the subframe.
pub fn predict_adaptive(
    excitation: &mut [Word16],
    offset: usize,
    lag: i16,
    fraction: i16,
    len: usize,
)
    requires
        16 <= lag,
        lag + 16 <= offset,
        offset + len <= old(excitation).len(),
        0 <= fraction <= 3,
    ensures
        final(excitation)@ == predicted(
            old(excitation)@,
            offset as int,
            lag as int,
            fraction as int,
            len as int,
        ),
        final(excitation)@.len() == old(excitation)@.len(),
{
    predict(excitation, offset, lag as usize, fraction as u8, len);
}

// ---------------------------------------------------------------------------
// Laws
// ---------------------------------------------------------------------------

/// A sum of products sees only the samples that it reads.
proof fn lemma_conv_agrees(
    seed: Word32,
    x: Seq<Word16>,
    y: Seq<Word16>,
    response: Seq<Word16>,
    at: int,
    n: int,
)
    requires
        n <= at + 1,
        forall|i: int| 0 <= i <= at ==> #[trigger] x[i] == y[i],
    ensures
        conv_run(seed, x, response, at, n) == conv_run(seed, y, response, at, n),
    decreases n,
{
    if n > 0 {
        lemma_conv_agrees(seed, x, y, response, at, n - 1);
        assert(x[n - 1] == y[n - 1]);
    }
}

/// The convolution is causal: output sample `m` sees only the input up to `m`.
/// Inputs that agree up to sample `k` give outputs that agree up to it.
pub proof fn law_convolution_is_causal(
    x: Seq<Word16>,
    y: Seq<Word16>,
    response: Seq<Word16>,
    k: int,
)
    requires
        k < x.len(),
        k < y.len(),
        forall|i: int| 0 <= i <= k ==> #[trigger] x[i] == y[i],
    ensures
        forall|m: int|
            0 <= m <= k && m < 64 ==> #[trigger] convolved(x, response)[m] == convolved(
                y,
                response,
            )[m],
{
    assert forall|m: int| 0 <= m <= k && m < 64 implies #[trigger] convolved(x, response)[m]
        == convolved(y, response)[m] by {
        lemma_conv_agrees(Word32(0), x, y, response, m, m + 1);
    }
}

/// Gaps between the first `n` frequencies see only those.
proof fn lemma_gaps_agree(x: Seq<Word16>, y: Seq<Word16>, n: int)
    requires
        2 <= n <= 15,
        forall|i: int| 0 <= i < 15 ==> #[trigger] x[i] == y[i],
    ensures
        smallest_gap(x, n) == smallest_gap(y, n),
    decreases n,
{
    assert(x[n - 1] == y[n - 1] && x[n - 2] == y[n - 2] && x[0] == y[0]);
    if n > 2 {
        lemma_gaps_agree(x, y, n - 1);
    }
}

/// The top gap never counts: two spectra that agree on their first fifteen
/// frequencies leave the clipping guard in the same state.
pub proof fn law_top_gap_never_counts(
    gap: Word16,
    mode: PitchMode,
    x: Seq<Word16>,
    y: Seq<Word16>,
)
    requires
        forall|i: int| 0 <= i < 15 ==> #[trigger] x[i] == y[i],
    ensures
        next_gap(gap, mode, x) == next_gap(gap, mode, y),
{
    lemma_gaps_agree(x, y, 15);
}

/// A lag window always holds sixteen lags inside the range of lags, and an
/// interior lag sits eight from its floor.
pub proof fn law_windows_hold_sixteen_lags(lag: int)
    ensures
        PIT_MIN <= window_around(lag).min,
        window_around(lag).max <= PIT_MAX,
        window_around(lag).max - window_around(lag).min == 15,
        PIT_MIN + 8 <= lag <= PIT_MAX - 7 ==> window_around(lag).min == lag - 8,
        PIT_MIN <= lag <= PIT_MAX ==> window_around(lag).min <= lag <= window_around(lag).max,
{
}

/// The search keeps the last of equal integer lags: nothing behind the chosen
/// one is as good, and nothing before it is better.
pub proof fn law_integer_tie_goes_to_the_longer_lag(corr: Seq<Word16>, n: int, m: int)
    requires
        0 <= m <= n,
    ensures
        m <= best_integer(corr, n) ==> corr[m + 4].0 <= corr[best_integer(corr, n) + 4].0,
        m > best_integer(corr, n) ==> corr[m + 4].0 < corr[best_integer(corr, n) + 4].0,
    decreases n,
{
    if n > 0 {
        lemma_best_integer(corr, n - 1);
        if m < n {
            law_integer_tie_goes_to_the_longer_lag(corr, n - 1, m);
        }
        law_integer_tie_goes_to_the_longer_lag(corr, n - 1, best_integer(corr, n - 1));
    }
}

/// The open-loop search keeps the shortest of equal lags: no shorter one
/// scores as much, and no longer one more.
pub proof fn law_open_loop_tie_goes_to_the_shorter_lag(
    v: OpenLoopView,
    buffer: Seq<Word16>,
    base: int,
    span: int,
    from: int,
    lag: int,
)
    requires
        18 <= from <= lag <= 115,
    ensures
        ({
            let best = best_from(v, buffer, base, span, from);
            let score = lag_score(v, buffer, base, span, lag);
            &&& best.0 == lag_score(v, buffer, base, span, best.1)
            &&& score.0 <= best.0.0
            &&& lag < best.1 ==> score.0 < best.0.0
        }),
    decreases 116 - from,
{
    lemma_best_from(v, buffer, base, span, from);
    if from < 115 {
        lemma_best_from(v, buffer, base, span, from + 1);
        law_open_loop_tie_goes_to_the_shorter_lag(
            v,
            buffer,
            base,
            span,
            from + 1,
            if lag > from {
                lag
            } else {
                from + 1
            },
        );
    } else {
        assert(best_from(v, buffer, base, span, 116) == (Word32(-0x8000_0000i32), 0int));
    }
}

/// A target with a contribution taken out at its gain, to the unit below,
/// wherever the difference fits a word.
pub proof fn law_update_takes_the_share_out(
    target: Seq<Word16>,
    filtered: Seq<Word16>,
    gain: Word16,
    i: int,
)
    requires
        0 <= i < 64,
        gain.0 >= 0,
        -536870912 <= 16384 * target[i].0 - filtered[i].0 * gain.0 <= 536870911,
    ensures
        ({
            let left = 16384 * target[i].0 - filtered[i].0 * gain.0;
            let out = updated_target(target, filtered, gain)[i].0;
            16384 * out <= left < 16384 * out + 16384
        }),
{
    reveal(crate::fixed_point::spec_extract_h);
    let t = target[i].0 as int;
    let f = filtered[i].0 as int;
    let g = gain.0 as int;
    assert(-0x4000_0000 <= f * g <= 0x3fff_ffff) by (nonlinear_arith)
        requires
            -32768 <= f <= 32767,
            0 <= g <= 32767,
    ;
    lemma_l_mac(Word32(0), target[i], Word16(16384));
    lemma_l_mac(l_mult(target[i], Word16(16384)), filtered[i], gain);
    let acc = l_msu(l_mult(target[i], Word16(16384)), filtered[i], gain);
    vstd::arithmetic::power2::lemma2_to64();
    lemma_l_shl(acc, 1, 2);
    assert(acc.0 == 2 * (16384 * t - f * g));
}

/// A candidate that is the target itself gets a gain of one, to the last bit.
pub proof fn law_own_gain_is_one(y: Seq<Word16>)
    ensures
        16383 <= least_squares_gain(correlations_of(y, y)).0 <= 16384,
{
    reveal(crate::fixed_point::spec_extract_h);
    reveal(crate::fixed_point::spec_div_s);
    reveal(crate::fixed_point::spec_shr);
    reveal(crate::fixed_point::spec_sub_s);
    vstd::arithmetic::power2::lemma2_to64();
    crate::math::lemma_energy_positive(Word32(1), y, 0, y.len() as int);
    lemma_norm_l(mac_run(Word32(1), y, 0, y, 0, y.len() as int));
    let c = correlations_of(y, y);
    let e = c.energy.0 as int;
    assert(0x4000 <= e <= 32767);
    assert(shr(c.correlation, 1).0 == e / 2);
    let h = e / 2;
    assert(16383 <= (h * 32768) / e <= 16384) by (nonlinear_arith)
        requires
            h == e / 2,
            0x4000 <= e <= 32767,
    ;
    let ratio = div_s(shr(c.correlation, 1), c.energy);
    crate::fixed_point::lemma_shl(ratio, 0, 1);
}

/// Twice a square, as an accumulator holds it.
pub open spec fn doubled_square(a: Word16) -> int {
    if a.0 == -32768 {
        0x7fff_ffff
    } else {
        2 * (a.0 * a.0)
    }
}

/// The error that a residual target stands for: twice its energy.
pub open spec fn error_of(x: Seq<Word16>, n: int) -> int
    decreases n,
{
    if n <= 0 {
        0
    } else {
        error_of(x, n - 1) + doubled_square(x[n - 1])
    }
}

/// A square is not negative, and fits.
proof fn lemma_doubled_square(a: Word16)
    ensures
        0 <= doubled_square(a) <= 0x7fff_ffff,
        l_mult(a, a).0 == doubled_square(a),
{
    reveal(crate::fixed_point::spec_l_mult);
    let x = a.0 as int;
    assert(0 <= x * x <= 0x4000_0000 && (x != -32768 ==> x * x <= 32767 * 32767) && (x == -32768
        ==> x * x == 0x4000_0000)) by (nonlinear_arith)
        requires
            -32768 <= x <= 32767,
    ;
}

proof fn lemma_error_grows(x: Seq<Word16>, n: int, m: int)
    requires
        n <= m,
    ensures
        0 <= error_of(x, n) <= error_of(x, m),
    decreases m,
{
    if m > 0 {
        lemma_doubled_square(x[m - 1]);
        if n < m {
            lemma_error_grows(x, n, m - 1);
        } else {
            lemma_error_grows(x, n - 1, m - 1);
        }
    }
}

proof fn lemma_error_added(x: Seq<Word16>, n: int)
    requires
        error_of(x, n) <= 0x7fff_ffff,
        n >= 0,
    ensures
        mac_run(Word32(0), x, 0, x, 0, n).0 == error_of(x, n),
    decreases n,
{
    reveal(crate::fixed_point::spec_l_mac);
    reveal(crate::fixed_point::spec_l_add);
    if n > 0 {
        lemma_error_grows(x, n - 1, n);
        lemma_error_added(x, n - 1);
        lemma_doubled_square(x[n - 1]);
    }
}

proof fn lemma_error_taken_out(seed: Word32, x: Seq<Word16>, n: int)
    requires
        seed.0 >= 0,
        n >= 0,
    ensures
        msu_run(seed, x, n).0 == if seed.0 - error_of(x, n) < -0x8000_0000 {
            -0x8000_0000
        } else {
            seed.0 - error_of(x, n)
        },
    decreases n,
{
    reveal(crate::fixed_point::spec_l_msu);
    reveal(crate::fixed_point::spec_l_sub);
    if n > 0 {
        lemma_error_taken_out(seed, x, n - 1);
        lemma_doubled_square(x[n - 1]);
        lemma_error_grows(x, n - 1, n);
    }
}

/// The unfiltered candidate wins exactly where the error it leaves is no
/// larger than the filtered one's.
pub proof fn law_smaller_error_wins(sharp: Seq<Word16>, smooth: Seq<Word16>)
    requires
        error_of(sharp, 64) <= 0x7fff_ffff,
    ensures
        error_balance(sharp, smooth).0 <= 0 <==> error_of(sharp, 64) <= error_of(smooth, 64),
{
    lemma_error_added(sharp, 64);
    lemma_error_grows(sharp, 0, 64);
    lemma_error_taken_out(mac_run(Word32(0), sharp, 0, sharp, 0, 64), smooth, 64);
}

/// A lone sample convolves into the response, moved to where it is.
pub proof fn law_convolution_repeats_the_response(
    x: Seq<Word16>,
    response: Seq<Word16>,
    at: int,
    m: int,
)
    requires
        x.len() == 64,
        0 <= at < 64,
        0 <= m < 64,
        forall|i: int| 0 <= i < 64 && i != at ==> #[trigger] x[i] == Word16(0),
    ensures
        convolved(x, response)[m] == if m < at {
            Word16(0)
        } else {
            round(l_mac(Word32(0), x[at], response[m - at]))
        },
{
    lemma_lone_product(x, response, at, m, m + 1);
    if m < at {
        lemma_round(Word32(0));
    }
}

proof fn lemma_lone_product(x: Seq<Word16>, response: Seq<Word16>, at: int, m: int, n: int)
    requires
        0 <= at,
        n <= 64,
        forall|i: int| 0 <= i < 64 && i != at ==> #[trigger] x[i] == Word16(0),
    ensures
        conv_run(Word32(0), x, response, m, n) == if n <= at {
            Word32(0)
        } else {
            l_mac(Word32(0), x[at], response[m - at])
        },
    decreases n,
{
    if n > 0 {
        lemma_lone_product(x, response, at, m, n - 1);
        if n - 1 != at {
            assert(x[n - 1] == Word16(0));
            reveal(crate::fixed_point::spec_l_mac);
            reveal(crate::fixed_point::spec_l_mult);
            reveal(crate::fixed_point::spec_l_add);
            let b = response[m - (n - 1)];
            assert(0 * b.0 == 0) by (nonlinear_arith);
        }
    }
}

/// The open-loop search leans towards short lags: a correlation never weighs
/// more at a longer lag.
pub proof fn law_short_lags_weigh_more(lag: int, longer: int)
    requires
        18 <= lag <= longer <= 115,
    ensures
        CORR_WEIGHT@[83 + longer] <= CORR_WEIGHT@[83 + lag],
        CORR_WEIGHT@[83 + lag] > 0,
{
    lemma_weights_fall();
    lemma_falling_from(CORR_WEIGHT@, 101, 97, 83 + lag, 83 + longer);
    lemma_falling_from(CORR_WEIGHT@, 101, 97, 83 + lag, 198);
}

/// The second half of the weights falls.
proof fn lemma_weights_fall()
    ensures
        falling_from(CORR_WEIGHT@, 101, 97),
{
    assert(falling_from(CORR_WEIGHT@, 101, 40)) by {
        reveal_with_fuel(falling_from, 42);
    }
    assert(falling_from(CORR_WEIGHT@, 101, 70)) by {
        reveal_with_fuel(falling_from, 32);
    }
    assert(falling_from(CORR_WEIGHT@, 101, 97)) by {
        reveal_with_fuel(falling_from, 32);
    }
}

/// Whether `n` entries behind `start` fall.
spec fn falling_from(table: Seq<i16>, start: int, n: int) -> bool
    decreases n,
{
    n <= 0 || falling_from(table, start, n - 1) && table[start + n - 1] >= table[start + n]
}

proof fn lemma_falling_from(table: Seq<i16>, start: int, n: int, i: int, j: int)
    requires
        falling_from(table, start, n),
        start <= i <= j <= start + n,
    ensures
        table[i] >= table[j],
    decreases n,
{
    if i < j {
        if j < start + n {
            lemma_falling_from(table, start, n - 1, i, j);
        } else {
            lemma_falling_from(table, start, n - 1, i, j - 1);
        }
    }
}

/// The smoothed lag is the middle of the last five: with the newest among them
/// it is at least as large as three and at most as large as three.
pub proof fn law_strong_correlation_smooths_the_lag(v: OpenLoopView, lag: i16)
    requires
        v.recent_lags.len() == 5,
    ensures
        v.gain.0 > 19661 ==> {
            let after = absorbed(v, lag);
            &&& after.recent_lags[0] == lag
            &&& after.recent_lags.subrange(1, 5) == v.recent_lags.subrange(0, 4)
            &&& after.smoothed_lag == ascending(after.recent_lags)[2]
            &&& after.weight_towards_history
        },
        v.gain.0 <= 19661 ==> {
            let after = absorbed(v, lag);
            &&& after.recent_lags == v.recent_lags
            &&& after.smoothed_lag == v.smoothed_lag
            &&& v.confidence.0 > 0 ==> 0 <= after.confidence.0 < v.confidence.0
        },
{
    reveal(crate::fixed_point::spec_mult);
    if v.gain.0 > 19661 {
        assert(absorbed(v, lag).recent_lags.subrange(1, 5) =~= v.recent_lags.subrange(0, 4));
    }
}

/// The fraction that is chosen has the largest interpolated correlation of all
/// that are tried.
pub proof fn law_best_fraction_correlates_most(
    corr: Seq<Word16>,
    centre: int,
    start: int,
    step: int,
    steps: int,
    tried: int,
)
    requires
        step > 0,
        0 <= tried <= steps,
    ensures
        ({
            let best = best_fraction(corr, centre, start, step, start + step * steps);
            &&& interpolated_at(corr, centre, start + step * tried).0 <= interpolated_at(
                corr,
                centre,
                best,
            ).0
            &&& start <= best <= start + step * steps
        }),
    decreases steps,
{
    let last = start + step * steps;
    if steps > 0 {
        assert(step * steps > 0) by (nonlinear_arith)
            requires
                step > 0,
                steps > 0,
        ;
        assert(step * (steps - 1) == step * steps - step) by (nonlinear_arith);
        assert(last - step == start + step * (steps - 1));
        law_best_fraction_correlates_most(corr, centre, start, step, steps - 1, if tried < steps {
            tried
        } else {
            0
        });
    } else {
        assert(step * 0 == 0) by (nonlinear_arith);
    }
}

proof fn lemma_lone_interpolation(corr: Seq<Word16>, base: int, k: int, p: int, n: int)
    requires
        0 <= k < 4,
        0 <= n <= 8,
        0 <= base,
        base + n <= corr.len(),
        forall|i: int| 0 <= i < corr.len() && i != p ==> #[trigger] corr[i] == Word16(0),
    ensures
        interpolator(corr, base, k, n).0 == if base <= p < base + n {
            2 * (corr[p].0 * INTER4_1@[k + 4 * (p - base)])
        } else {
            0
        },
    decreases n,
{
    if n > 0 {
        lemma_lone_interpolation(corr, base, k, p, n - 1);
        let x = corr[base + n - 1].0 as int;
        let w = INTER4_1@[k + 4 * (n - 1)] as int;
        assert(-16384 <= w <= 16384);
        assert(-0x2000_0000 <= x * w <= 0x2000_0000) by (nonlinear_arith)
            requires
                -32768 <= x <= 32767,
                -16384 <= w <= 16384,
        ;
        assert(x == 0 ==> x * w == 0) by (nonlinear_arith);
        lemma_l_mac(
            interpolator(corr, base, k, n - 1),
            corr[base + n - 1],
            Word16(INTER4_1@[k + 4 * (n - 1)]),
        );
    }
}

/// A lone correlation is weighed by its distance from the place asked for, in
/// quarters of a sample: every phase reads one symmetric prototype.
pub proof fn law_fractions_read_one_prototype(
    corr: Seq<Word16>,
    centre: int,
    fraction: int,
    p: int,
)
    requires
        -4 < fraction < 4,
        4 <= centre,
        centre + 5 <= corr.len(),
        -15 <= 4 * (p - centre) - fraction <= 16,
        -8192 <= corr[p].0 <= 8191,
        forall|i: int| 0 <= i < corr.len() && i != p ==> #[trigger] corr[i] == Word16(0),
    ensures
        ({
            let distance = 4 * (p - centre) - fraction;
            let exact = 4 * (corr[p].0 * INTER4_1@[15 + distance]);
            &&& interpolated_at(corr, centre, fraction).0 == (exact + 32768) / 65536
            &&& -15 <= distance <= 15 ==> INTER4_1@[15 + distance] == INTER4_1@[15 - distance]
        }),
{
    let (phase, base) = if fraction < 0 {
        (fraction + 4, centre - 4)
    } else {
        (fraction, centre - 3)
    };
    lemma_lone_interpolation(corr, base, 3 - phase, p, 8);
    let x = corr[p].0 as int;
    let w = INTER4_1@[15 + 4 * (p - centre) - fraction] as int;
    assert(-16384 <= w <= 16384);
    assert(-0x0800_0000 <= x * w <= 0x0800_0000) by (nonlinear_arith)
        requires
            -8192 <= x <= 8191,
            -16384 <= w <= 16384,
    ;
    vstd::arithmetic::power2::lemma2_to64();
    let sum = interpolator(corr, base, 3 - phase, 8);
    lemma_l_shl(sum, 1, 2);
    lemma_round(l_shl(sum, 1));
}

proof fn lemma_silent_window(x: Seq<Word16>, response: Seq<Word16>, m: int, n: int)
    requires
        0 <= n,
        forall|i: int| 0 <= i < n ==> #[trigger] x[i] == Word16(0),
    ensures
        conv_run(Word32(0), x, response, m, n) == Word32(0),
    decreases n,
{
    if n > 0 {
        lemma_silent_window(x, response, m, n - 1);
        assert(0 * response[m - (n - 1)].0 == 0);
        lemma_l_mac(Word32(0), x[n - 1], response[m - (n - 1)]);
    }
}

/// A lone past sample is seen at a longer delay as the response begun that
/// much later.
pub proof fn law_delays_shift_the_response(
    excitation: Seq<Word16>,
    offset: int,
    response: Seq<Word16>,
    first: int,
    age: int,
    t: int,
    i: int,
)
    requires
        response.len() == 64,
        0 < first <= t,
        first < age,
        0 <= offset - t,
        offset - first + 64 <= excitation.len(),
        0 <= i < 64,
        forall|j: int|
            0 <= j < excitation.len() && j != offset - age ==> #[trigger] excitation[j] == Word16(0),
    ensures
        filtered_at(excitation, offset, response, first, t)[i] == if t >= age && i >= t - age {
            mult(excitation[offset - age], response[i - (t - age)])
        } else {
            Word16(0)
        },
    decreases t,
{
    if t <= first {
        let x = excitation.subrange(offset - first, offset - first + 64);
        assert forall|j: int| 0 <= j < i + 1 implies #[trigger] x[j] == Word16(0) by {
            assert(x[j] == excitation[offset - first + j]);
        }
        lemma_silent_window(x, response, i, i + 1);
        lemma_round(Word32(0));
    } else {
        reveal(crate::fixed_point::spec_add_s);
        let sample = excitation[offset - t];
        if i > 0 {
            law_delays_shift_the_response(excitation, offset, response, first, age, t - 1, i - 1);
        }
        if t != age {
            assert(sample == Word16(0));
            reveal(crate::fixed_point::spec_mult);
            assert(0 * response[i].0 == 0);
            assert(mult(sample, response[i]) == Word16(0));
        }
    }
}

/// The high-pass gives nothing of a constant: at rest on one it stays at rest.
pub proof fn law_high_pass_rejects_constants(x: Word16)
    requires
        -8192 <= x.0 <= 8191,
    ensures
        ({
            let s = WeightedSpeechHighPass { x0: x, x1: x, x2: x, ..high_pass_at_rest() };
            &&& high_pass_sum(s, x) == Word32(0)
            &&& high_pass_next(s, x) == s
        }),
{
    reveal(high_pass_sum);
    vstd::arithmetic::power2::lemma2_to64();
    let z = Word16(0);
    assert(0 * 21663 == 0int && 0 * -19258 == 0int && 0 * 5734 == 0int);
    lemma_l_mac(Word32(16384), z, Word16(21663));
    lemma_l_mac(Word32(16384), z, Word16(-19258i16));
    lemma_l_mac(Word32(16384), z, Word16(5734));
    lemma_l_shr(Word32(16384), 15, 32768);
    lemma_l_mac(Word32(0), z, Word16(21663));
    lemma_l_mac(Word32(0), z, Word16(-19258i16));
    lemma_l_mac(Word32(0), z, Word16(5734));
    lemma_l_mac(Word32(0), x, Word16(-3432i16));
    let a = l_mac(Word32(0), x, Word16(-3432i16));
    lemma_l_mac(a, x, Word16(10280));
    let b = l_mac(a, x, Word16(10280));
    lemma_l_mac(b, x, Word16(-10280i16));
    let c = l_mac(b, x, Word16(-10280i16));
    lemma_l_mac(c, x, Word16(3432));
    lemma_l_shl(Word32(0), 2, 4);
    reveal(crate::fixed_point::spec_l_extract);
}

proof fn lemma_smallest_gap(isf: Seq<Word16>, n: int, i: int)
    requires
        2 <= n,
        1 <= i < n,
    ensures
        smallest_gap(isf, n).0 <= sub_s(isf[i], isf[i - 1]).0,
    decreases n,
{
    if n > 2 {
        lemma_smallest_gap(isf, n - 1, if i < n - 1 {
            i
        } else {
            1
        });
    }
}

/// The resonance measure follows the smallest gap between two neighbours: a
/// fifth of the way to something no wider than any gap, and never above its
/// ceiling.
pub proof fn law_resonance_follows_the_smallest_gap(
    gap: Word16,
    mode: PitchMode,
    isf: Seq<Word16>,
    i: int,
)
    requires
        1 <= i < 15,
        0 <= gap.0 <= 16384,
        -16384 <= smallest_gap(isf, 15).0 <= 16384,
    ensures
        ({
            let smallest = smallest_gap(isf, 15).0;
            let next = next_gap(gap, mode, isf).0;
            let way = 26214 * gap.0 + 6554 * smallest;
            let ceiling = if mode.frame_bits() == BITS_6K60 || mode.frame_bits() == BITS_8K85 {
                384int
            } else {
                307
            };
            &&& smallest <= sub_s(isf[i], isf[i - 1]).0
            &&& next <= ceiling
            &&& 32768 * next <= way
            &&& next < ceiling ==> way < 32768 * (next + 1)
        }),
{
    lemma_smallest_gap(isf, 15, i);
    let g = smallest_gap(isf, 15);
    assert(26214 * gap.0 == Word16(26214).0 * gap.0 && 6554 * g.0 == Word16(6554).0 * g.0);
    lemma_l_mac(Word32(0), Word16(26214), gap);
    lemma_l_mac(l_mult(Word16(26214), gap), Word16(6554), g);
    reveal(crate::fixed_point::spec_extract_h);
}

/// The long-term gain moves towards each subframe's gain, a tenth of the way
/// or at the two lowest budgets a fiftieth, and never below 0.6.
pub proof fn law_mean_gain_follows_the_gain(mean: Word16, mode: PitchMode, gain: Word16)
    requires
        0 <= mean.0 <= 20000,
        0 <= gain.0 <= 20000,
    ensures
        ({
            let share = if mode.frame_bits() == BITS_6K60 || mode.frame_bits() == BITS_8K85 {
                655int
            } else {
                3277
            };
            let next = next_mean_gain(mean, mode, gain).0;
            let way = (32768 - share) * mean.0 + share * gain.0;
            &&& next >= 9830
            &&& way < 32768 * (next + 1)
            &&& next > 9830 ==> 32768 * next <= way
        }),
{
    reveal(crate::fixed_point::spec_extract_h);
    lemma_l_mac(Word32(0), Word16(32113), mean);
    lemma_l_mac(l_mult(Word16(32113), mean), Word16(655), gain);
    lemma_l_mac(Word32(0), Word16(29491), mean);
    lemma_l_mac(l_mult(Word16(29491), mean), Word16(3277), gain);
}

/// What is clipped at one long-term gain is clipped at every higher one, and
/// at every smaller gap above the two lowest budgets.
pub proof fn law_clipping_needs_gain_and_resonance(
    c: GainClipping,
    d: GainClipping,
    mode: PitchMode,
)
    requires
        clipping(c, mode),
        c.mean_gain.0 <= d.mean_gain.0,
        d.isf_gap == c.isf_gap || (mode.frame_bits() != BITS_6K60 && mode.frame_bits() != BITS_8K85
            && d.isf_gap.0 <= c.isf_gap.0),
    ensures
        clipping(d, mode),
{
}

/// The history that a frame leaves is the newest of its weighted speech.
pub proof fn law_open_loop_history_is_the_newest(
    v: OpenLoopView,
    weighted: Seq<Word16>,
    mode: PitchMode,
)
    requires
        v.history.len() == 115,
        weighted.len() == 128,
    ensures
        analysed(v, weighted, mode).history == weighted.skip(13),
{
    reveal(analysed);
    assert((v.history + weighted).subrange(128, 243) =~= weighted.skip(13));
}

} // verus!
