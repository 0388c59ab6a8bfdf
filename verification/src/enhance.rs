//! What the listener's excitation gets that the history's does not: phase
//! dispersion of the codeword, and at the low rates a pitch-sharpened copy.

use vstd::prelude::*;
use crate::conceal::L_SUBFR;
use crate::fixed_point::{
    add_s, div_s, extract_h, l_deposit_l, l_mac, l_mult, l_shl, l_shr, lemma_l_mac, lemma_l_shl,
    lemma_l_shr, lemma_norm_l, lemma_normalised, lemma_round, lemma_shl, mult, mult_r, norm_l,
    round, shl, shr, sub_s, Word16, Word32,
};
use crate::math::isqrt_n;
use vstd::arithmetic::power2::pow2;

verus! {

// ---------------------------------------------------------------------------
// Phase dispersion
// ---------------------------------------------------------------------------

/// How much dispersion a rate allows.
#[derive(Clone, Copy, Debug, PartialEq, Eq, Structural)]
pub enum DispersionLevel {
    /// All of it, at the lowest rate.
    High,
    /// One step less.
    Low,
    /// None.
    Off,
}

impl DispersionLevel {
    /// The level of a frame size.
    pub open spec fn spec_for_frame_bits(frame_bits: int) -> Self {
        if frame_bits <= 132 {
            DispersionLevel::High
        } else if frame_bits <= 177 {
            DispersionLevel::Low
        } else {
            DispersionLevel::Off
        }
    }

    /// Steps away from full dispersion.
    pub open spec fn steps(self) -> int {
        match self {
            DispersionLevel::High => 0,
            DispersionLevel::Low => 1,
            DispersionLevel::Off => 2,
        }
    }

    /// The level of a frame size.
    #[must_use]
    pub fn for_frame_bits(frame_bits: usize) -> (level: Self)
        ensures
            level == Self::spec_for_frame_bits(frame_bits as int),
    {
        if frame_bits <= 132 {
            DispersionLevel::High
        } else if frame_bits <= 177 {
            DispersionLevel::Low
        } else {
            DispersionLevel::Off
        }
    }
}

/// The two impulse responses that disperse a codeword, Q15.
#[derive(Clone, Copy, Debug)]
pub struct DispersionPulses {
    /// For the unvoiced.
    pub low: [i16; L_SUBFR],
    /// For the weakly voiced.
    pub mid: [i16; L_SUBFR],
}

/// What dispersion remembers, as plain values.
pub struct DispersionView {
    /// The last state, 0 for unvoiced to 2 for voiced.
    pub state: int,
    /// The last code gain.
    pub gain_code: Word16,
    /// The last six pitch gains, newest first.
    pub gain_pit: Seq<Word16>,
}

/// What every state keeps.
pub open spec fn dispersion_inv(d: DispersionView) -> bool {
    0 <= d.state <= 2 && d.gain_pit.len() == 6
}

/// The state before anything was decoded.
pub open spec fn dispersion_reset() -> DispersionView {
    DispersionView {
        state: 0,
        gain_code: Word16(0),
        gain_pit: Seq::new(6, |i: int| Word16(0)),
    }
}

/// How many of the first `n` pitch gains are under 0.6.
pub open spec fn weak_count(gains: Seq<Word16>, n: int) -> int
    decreases n,
{
    if n <= 0 {
        0
    } else {
        weak_count(gains, n - 1) + if gains[n - 1].0 < 9830 {
            1int
        } else {
            0
        }
    }
}

/// The pitch gains with a new one.
pub open spec fn gains_with(gains: Seq<Word16>, gain: Word16) -> Seq<Word16> {
    seq![gain, gains[0], gains[1], gains[2], gains[3], gains[4]]
}

/// The state of a subframe: by its pitch gain, a step up at an onset, and
/// otherwise held down by weak neighbours and to one step above the last.
pub open spec fn dispersion_state(d: DispersionView, gain_code: Word16, gain_pit: Word16) -> int {
    let raw: int = if gain_pit.0 < 9830 {
        0
    } else if gain_pit.0 < 14746 {
        1
    } else {
        2
    };
    if sub_s(gain_code, d.gain_code).0 > shl(d.gain_code, 1).0 {
        if raw < 2 {
            raw + 1
        } else {
            raw
        }
    } else {
        let s = if weak_count(gains_with(d.gain_pit, gain_pit), 6) > 2 {
            0
        } else {
            raw
        };
        if s > d.state + 1 {
            s - 1
        } else {
            s
        }
    }
}

/// What is remembered afterwards.
pub open spec fn dispersion_after(
    d: DispersionView,
    gain_code: Word16,
    gain_pit: Word16,
) -> DispersionView {
    DispersionView {
        state: dispersion_state(d, gain_code, gain_pit),
        gain_code,
        gain_pit: gains_with(d.gain_pit, gain_pit),
    }
}

/// The convolution at `p` after `n` samples of the codeword.
pub open spec fn spread(code: Seq<Word16>, pulse: Seq<i16>, p: int, n: int) -> Word16
    decreases n,
{
    if n <= 0 {
        Word16(0)
    } else {
        let before = spread(code, pulse, p, n - 1);
        if 0 <= p - (n - 1) < 64 {
            add_s(before, mult_r(code[n - 1], Word16(pulse[p - (n - 1)])))
        } else {
            before
        }
    }
}

/// The circular convolution with a response.
pub open spec fn wrapped(code: Seq<Word16>, pulse: Seq<i16>) -> Seq<Word16> {
    Seq::new(64, |i: int| add_s(spread(code, pulse, i, 64), spread(code, pulse, i + 64, 64)))
}

/// The codeword of a subframe, dispersed as far as its state and its rate say.
#[verifier::opaque]
pub open spec fn dispersed(
    code: Seq<Word16>,
    pulses: DispersionPulses,
    state: int,
    level: DispersionLevel,
) -> Seq<Word16> {
    if state + level.steps() == 0 {
        wrapped(code, pulses.low@)
    } else if state + level.steps() == 1 {
        wrapped(code, pulses.mid@)
    } else {
        code
    }
}

/// Phase dispersion.
#[derive(Debug, Clone, Copy)]
pub struct PhaseDispersion {
    state: u8,
    gain_code: Word16,
    gain_pit: [Word16; 6],
}

impl PhaseDispersion {
    /// What is remembered, as plain values.
    pub closed spec fn view(&self) -> DispersionView {
        DispersionView {
            state: self.state as int,
            gain_code: self.gain_code,
            gain_pit: self.gain_pit@,
        }
    }

    /// The invariant.
    pub open spec fn wf(&self) -> bool {
        dispersion_inv(self@)
    }

    /// A disperser in its reset state.
    #[must_use]
    pub fn new() -> (d: Self)
        ensures
            d.wf(),
            d@ == dispersion_reset(),
    {
        let d = PhaseDispersion { state: 0, gain_code: Word16(0), gain_pit: [Word16(0); 6] };
        assert(d@.gain_pit =~= dispersion_reset().gain_pit);
        d
    }

    /// Disperse a codeword in place.
    pub fn apply(
        &mut self,
        pulses: &DispersionPulses,
        code: &mut [Word16; L_SUBFR],
        gain_code: Word16,
        gain_pit: Word16,
        level: DispersionLevel,
    )
        requires
            old(self).wf(),
        ensures
            final(self).wf(),
            final(self)@ == dispersion_after(old(self)@, gain_code, gain_pit),
            final(code)@ == dispersed(
                old(code)@,
                *pulses,
                dispersion_state(old(self)@, gain_code, gain_pit),
                level,
            ),
    {
        proof {
            reveal(dispersed);
        }
        let ghost before = self@;
        let raw: u8 = if gain_pit.0 < 9830 {
            0
        } else if gain_pit.0 < 14746 {
            1
        } else {
            2
        };
        let g = self.gain_pit;
        self.gain_pit = [gain_pit, g[0], g[1], g[2], g[3], g[4]];
        assert(self.gain_pit@ =~= gains_with(before.gain_pit, gain_pit));
        let state: u8 = if sub_s(gain_code, self.gain_code).0 > shl(self.gain_code, 1).0 {
            if raw < 2 {
                raw + 1
            } else {
                raw
            }
        } else {
            let mut weak: u8 = 0;
            for i in 0..6usize
                invariant
                    weak <= i,
                    weak == weak_count(self.gain_pit@, i as int),
            {
                if self.gain_pit[i].0 < 9830 {
                    weak = weak + 1;
                }
            }
            let held: u8 = if weak > 2 {
                0
            } else {
                raw
            };
            if held > self.state + 1 {
                held - 1
            } else {
                held
            }
        };
        self.gain_code = gain_code;
        self.state = state;
        let steps: u8 = match level {
            DispersionLevel::High => 0,
            DispersionLevel::Low => 1,
            DispersionLevel::Off => 2,
        };
        if state + steps == 0 {
            wrap(code, &pulses.low);
        } else if state + steps == 1 {
            wrap(code, &pulses.mid);
        }
    }
}

/// Convolve a codeword circularly, in place.
fn wrap(code: &mut [Word16; L_SUBFR], pulse: &[i16; L_SUBFR])
    ensures
        final(code)@ == wrapped(old(code)@, pulse@),
{
    let ghost start = code@;
    let mut spread_out: [Word16; 128] = [Word16(0); 128];
    for n in 0..L_SUBFR
        invariant
            code@ == start,
            forall|p: int|
                0 <= p < 128 ==> #[trigger] spread_out@[p] == spread(start, pulse@, p, n as int),
    {
        let ghost before = spread_out@;
        for j in 0..L_SUBFR
            invariant
                n < 64,
                code@ == start,
                forall|p: int|
                    0 <= p < 128 ==> #[trigger] before[p] == spread(start, pulse@, p, n as int),
                forall|p: int|
                    0 <= p < 128 ==> #[trigger] spread_out@[p] == if n <= p < n + j {
                        spread(start, pulse@, p, n + 1)
                    } else {
                        before[p]
                    },
        {
            assert(spread_out@[n + j] == before[n + j]);
            spread_out[n + j] = add_s(spread_out[n + j], mult_r(code[n], Word16(pulse[j])));
        }
        assert forall|p: int| 0 <= p < 128 implies #[trigger] spread_out@[p] == spread(
            start,
            pulse@,
            p,
            n + 1,
        ) by {
            assert(before[p] == spread(start, pulse@, p, n as int));
        }
    }
    for i in 0..L_SUBFR
        invariant
            forall|p: int|
                0 <= p < 128 ==> #[trigger] spread_out@[p] == spread(start, pulse@, p, 64),
            forall|k: int| 0 <= k < i ==> #[trigger] code@[k] == wrapped(start, pulse@)[k],
    {
        code[i] = add_s(spread_out[i], spread_out[i + L_SUBFR]);
    }
    assert(code@ =~= wrapped(start, pulse@));
}

/// Above the low rates the codeword is left alone.
pub proof fn law_high_rates_disperse_nothing(
    code: Seq<Word16>,
    pulses: DispersionPulses,
    state: int,
    frame_bits: int,
)
    requires
        0 <= state <= 2,
        frame_bits > 177,
    ensures
        dispersed(code, pulses, state, DispersionLevel::spec_for_frame_bits(frame_bits)) == code,
{
    reveal(dispersed);
}

// ---------------------------------------------------------------------------
// Level
// ---------------------------------------------------------------------------

/// Energy of the first `n` samples at a quarter of their level.
pub open spec fn quarter_energy(x: Seq<Word16>, n: int) -> Word32
    decreases n,
{
    if n <= 0 {
        Word32(0)
    } else {
        l_mac(quarter_energy(x, n - 1), shr(x[n - 1], 2), shr(x[n - 1], 2))
    }
}

/// One over the square root.
#[verifier::opaque]
pub open spec fn inverse_root(x: Word32) -> Word32 {
    let exp = norm_l(x);
    let (root, root_exp) = isqrt_n((l_shl(x, exp), (31 - exp) as i16));
    l_shl(root, root_exp)
}

/// The gain that brings an energy onto another.
#[verifier::opaque]
pub open spec fn level_gain(target: Word32, energy: Word32) -> Word16 {
    if target.0 == 0 {
        Word16(0)
    } else {
        let exp = sub_s(Word16(norm_l(energy)), Word16(1));
        let i = norm_l(target);
        let ratio = div_s(round(l_shl(energy, exp.0)), round(l_shl(target, i)));
        let s = l_shr(l_shl(l_deposit_l(ratio), 7), sub_s(exp, Word16(i)).0);
        round(l_shl(inverse_root(s), 9))
    }
}

/// A signal brought onto the level of another; one without energy stays.
#[verifier::opaque]
pub open spec fn levelled_onto(reference: Seq<Word16>, x: Seq<Word16>) -> Seq<Word16> {
    let energy = quarter_energy(x, 64);
    if energy.0 == 0 {
        x
    } else {
        let g0 = level_gain(quarter_energy(reference, 64), energy);
        Seq::new(64, |i: int| extract_h(l_shl(l_mult(x[i], g0), 2)))
    }
}

/// Energy at a quarter of the level.
fn quartered(x: &[Word16; L_SUBFR]) -> (energy: Word32)
    ensures
        energy == quarter_energy(x@, 64),
        energy.0 >= 0,
{
    let mut sum = Word32(0);
    for i in 0..L_SUBFR
        invariant
            sum == quarter_energy(x@, i as int),
            sum.0 >= 0,
    {
        let v = shr(x[i], 2);
        proof {
            crate::fixed_point::lemma_square_grows(sum, v);
        }
        sum = l_mac(sum, v, v);
    }
    sum
}

/// Normalised with one bit to spare, an energy rounds to half of full scale at
/// most; normalised, to half at least.
proof fn lemma_levels(energy: Word32, target: Word32)
    requires
        energy.0 > 0,
        target.0 > 0,
    ensures
        ({
            let exp = sub_s(Word16(norm_l(energy)), Word16(1));
            let out = round(l_shl(energy, exp.0)).0;
            let into = round(l_shl(target, norm_l(target))).0;
            0 <= out <= 0x4000 <= into
        }),
{
    lemma_normalised(energy);
    lemma_normalised(target);
    reveal(crate::fixed_point::spec_sub_s);
    reveal(crate::fixed_point::spec_l_shl);
    reveal(crate::fixed_point::spec_round);
    reveal(crate::fixed_point::spec_extract_h);
    reveal(crate::fixed_point::spec_l_add);
    let n = norm_l(energy) as int;
    let m = energy.0 as int;
    let exp = sub_s(Word16(norm_l(energy)), Word16(1)).0;
    assert(exp == n - 1);
    if n >= 1 {
        vstd::arithmetic::power2::lemma_pow2_unfold(n as nat);
        let h = pow2((n - 1) as nat) as int;
        assert(2 * (m * h) == m * (2 * h)) by (nonlinear_arith);
        assert(m * h >= 0) by (nonlinear_arith)
            requires
                m >= 0,
                h >= 0,
        ;
        assert(0 <= l_shl(energy, exp).0 <= 0x3fff_ffff);
    } else {
        vstd::arithmetic::power2::lemma2_to64();
        assert(l_shl(energy, exp).0 == m / 2);
    }
}

/// One over the square root.
fn inverse_square_root(x: Word32) -> (r: Word32)
    ensures
        r == inverse_root(x),
{
    proof {
        reveal(inverse_root);
        lemma_norm_l(x);
    }
    let exp: i16 = norm_l(x);
    let (root, root_exp) = isqrt_n((l_shl(x, exp), 31 - exp));
    l_shl(root, root_exp)
}

/// Bring a signal onto the level of another.
pub fn agc2(reference: &[Word16; L_SUBFR], x: &mut [Word16; L_SUBFR])
    ensures
        final(x)@ == levelled_onto(reference@, old(x)@),
{
    proof {
        reveal(levelled_onto);
        reveal(level_gain);
    }
    let ghost start = x@;
    let energy = quartered(x);
    if energy.0 == 0 {
        return;
    }
    let target = quartered(reference);
    let g0 = if target.0 == 0 {
        Word16(0)
    } else {
        proof {
            lemma_levels(energy, target);
        }
        let exp = sub_s(Word16(norm_l(energy)), Word16(1));
        let i: i16 = norm_l(target);
        let ratio = div_s(round(l_shl(energy, exp.0)), round(l_shl(target, i)));
        let s = l_shr(l_shl(l_deposit_l(ratio), 7), sub_s(exp, Word16(i)).0);
        round(l_shl(inverse_square_root(s), 9))
    };
    for i in 0..L_SUBFR
        invariant
            forall|j: int|
                0 <= j < i ==> #[trigger] x@[j] == extract_h(l_shl(l_mult(start[j], g0), 2)),
            forall|j: int| i <= j < 64 ==> #[trigger] x@[j] == start[j],
    {
        x[i] = extract_h(l_shl(l_mult(x[i], g0), 2));
    }
    assert(x@ =~= levelled_onto(reference@, start));
}

// ---------------------------------------------------------------------------
// The sharpened copy
// ---------------------------------------------------------------------------

/// The adaptive part once more, at twice the square of its gain.
pub open spec fn sharp_sample(adaptive: Word16, gain_pit: Word16) -> Word16 {
    round(l_shr(l_mult(mult(adaptive, shl(gain_pit, 1)), gain_pit), 1))
}

/// A strongly voiced subframe of a low rate with a sharpened copy blended in,
/// at the level it had; any other as it is.
#[verifier::opaque]
pub open spec fn blended(
    x: Seq<Word16>,
    adaptive: Seq<Word16>,
    gain_pit: Word16,
    frame_bits: int,
) -> Seq<Word16> {
    if frame_bits <= 177 && shl(gain_pit, 1).0 > 16384 {
        levelled_onto(
            x,
            Seq::new(64, |i: int| add_s(sharp_sample(adaptive[i], gain_pit), x[i])),
        )
    } else {
        x
    }
}

/// Blend the sharpened copy in. `adaptive` is the adaptive part, three bits
/// down.
pub fn blend(
    x: &[Word16; L_SUBFR],
    adaptive: &[Word16; L_SUBFR],
    gain_pit: Word16,
    frame_bits: usize,
) -> (out: [Word16; L_SUBFR])
    ensures
        out@ == blended(x@, adaptive@, gain_pit, frame_bits as int),
{
    proof {
        reveal(blended);
    }
    let sharp = shl(gain_pit, 1);
    if frame_bits <= 177 && sharp.0 > 16384 {
        let mut out: [Word16; L_SUBFR] = [Word16(0); L_SUBFR];
        for i in 0..L_SUBFR
            invariant
                sharp == shl(gain_pit, 1),
                forall|j: int|
                    0 <= j < i ==> #[trigger] out@[j] == add_s(
                        sharp_sample(adaptive@[j], gain_pit),
                        x@[j],
                    ),
        {
            let copy = round(l_shr(l_mult(mult(adaptive[i], sharp), gain_pit), 1));
            out[i] = add_s(copy, x[i]);
        }
        assert(out@ =~= Seq::new(64, |i: int| add_s(sharp_sample(adaptive@[i], gain_pit), x@[i])));
        agc2(x, &mut out);
        out
    } else {
        *x
    }
}

proof fn lemma_weak_count(gains: Seq<Word16>, stronger: Seq<Word16>, n: int)
    requires
        0 <= n <= gains.len(),
        gains.len() == stronger.len(),
        forall|i: int| 0 <= i < gains.len() ==> (#[trigger] gains[i]).0 <= stronger[i].0,
    ensures
        weak_count(stronger, n) <= weak_count(gains, n),
    decreases n,
{
    if n > 0 {
        lemma_weak_count(gains, stronger, n - 1);
        assert(gains[n - 1].0 <= stronger[n - 1].0);
    }
}

/// A stronger pitch gain never disperses more, and without an onset a weak one
/// disperses fully; nor does the state rise by more than a step.
pub proof fn law_strong_pitch_disperses_less(
    d: DispersionView,
    gain_code: Word16,
    weak: Word16,
    strong: Word16,
)
    requires
        dispersion_inv(d),
        weak.0 <= strong.0,
    ensures
        dispersion_state(d, gain_code, weak) <= dispersion_state(d, gain_code, strong),
        0 <= dispersion_state(d, gain_code, weak) <= 2,
        0 <= gain_code.0 <= 3 * d.gain_code.0 && d.gain_code.0 < 10000 && weak.0 < 9830
            ==> dispersion_state(d, gain_code, weak) == 0,
        0 <= gain_code.0 <= 3 * d.gain_code.0 && d.gain_code.0 < 10000 ==> dispersion_state(
            d,
            gain_code,
            weak,
        ) <= d.state + 1,
{
    let a = gains_with(d.gain_pit, weak);
    let b = gains_with(d.gain_pit, strong);
    lemma_weak_count(a, b, 6);
    reveal(crate::fixed_point::spec_sub_s);
    vstd::arithmetic::power2::lemma2_to64();
    lemma_shl(d.gain_code, 1, 2);
}

proof fn lemma_lone_spread(code: Seq<Word16>, pulse: Seq<i16>, at: int, q: int, n: int)
    requires
        code.len() == 64,
        pulse.len() == 64,
        0 <= at < 64,
        0 <= n <= 64,
        forall|i: int| 0 <= i < 64 && i != at ==> #[trigger] code[i] == Word16(0),
    ensures
        spread(code, pulse, q, n) == if at < n && 0 <= q - at < 64 {
            mult_r(code[at], Word16(pulse[q - at]))
        } else {
            Word16(0)
        },
    decreases n,
{
    reveal(crate::fixed_point::spec_add_s);
    if n > 0 {
        lemma_lone_spread(code, pulse, at, q, n - 1);
        if n - 1 != at && 0 <= q - (n - 1) < 64 {
            assert(code[n - 1] == Word16(0));
            reveal(crate::fixed_point::spec_mult_r);
            assert(0 * pulse[q - (n - 1)] == 0);
            assert(mult_r(Word16(0), Word16(pulse[q - (n - 1)])) == Word16(0));
        }
    }
}

/// Of a lone pulse dispersion makes the response, begun at the pulse and
/// wrapped around the subframe.
pub proof fn law_lone_pulse_becomes_the_response(
    code: Seq<Word16>,
    pulse: Seq<i16>,
    at: int,
    i: int,
)
    requires
        code.len() == 64,
        pulse.len() == 64,
        0 <= at < 64,
        0 <= i < 64,
        forall|j: int| 0 <= j < 64 && j != at ==> #[trigger] code[j] == Word16(0),
    ensures
        wrapped(code, pulse)[i] == mult_r(code[at], Word16(pulse[(i - at) % 64])),
{
    reveal(crate::fixed_point::spec_add_s);
    lemma_lone_spread(code, pulse, at, i, 64);
    lemma_lone_spread(code, pulse, at, i + 64, 64);
    if i >= at {
        assert((i - at) % 64 == i - at);
    } else {
        assert((i - at) % 64 == i + 64 - at);
    }
}

/// The sharpened copy is for strongly voiced subframes of the two lowest rates;
/// every other passes as it is.
pub proof fn law_only_strong_low_rates_are_sharpened(
    x: Seq<Word16>,
    adaptive: Seq<Word16>,
    gain_pit: Word16,
    frame_bits: int,
)
    ensures
        frame_bits > 177 || gain_pit.0 <= 8192 ==> blended(x, adaptive, gain_pit, frame_bits) == x,
{
    reveal(blended);
    vstd::arithmetic::power2::lemma2_to64();
    lemma_shl(gain_pit, 1, 2);
}

/// The copy is the adaptive part at the square of the gain, of which a gain of
/// one makes a quarter, rounded.
pub proof fn law_sharp_copy_follows_the_square(adaptive: Word16, gain_pit: Word16)
    requires
        0 <= adaptive.0,
        0 <= gain_pit.0 < 16384,
    ensures
        ({
            let square = gain_pit.0 * gain_pit.0;
            let copy = sharp_sample(adaptive, gain_pit).0;
            &&& 0x4000_0000 * copy <= adaptive.0 * square + 0x2000_0000
            &&& adaptive.0 * square < 0x4000_0000 * (copy + 1)
        }),
{
    vstd::arithmetic::power2::lemma2_to64();
    lemma_shl(gain_pit, 1, 2);
    reveal(crate::fixed_point::spec_mult);
    let a = adaptive.0 as int;
    let g = gain_pit.0 as int;
    let m = mult(adaptive, shl(gain_pit, 1));
    assert(0 <= a * (2 * g) <= 32767 * 32766) by (nonlinear_arith)
        requires
            0 <= a <= 32767,
            0 <= g <= 16383,
    ;
    assert(m.0 == (a * (2 * g)) / 32768);
    let k = m.0 as int;
    assert(0 <= k * g <= 32767 * 16383) by (nonlinear_arith)
        requires
            0 <= k <= 32767,
            0 <= g <= 16383,
    ;
    lemma_l_mac(Word32(0), m, gain_pit);
    lemma_l_shr(l_mult(m, gain_pit), 1, 2);
    lemma_round(l_shr(l_mult(m, gain_pit), 1));
    let copy = sharp_sample(adaptive, gain_pit).0 as int;
    assert(copy == (k * g + 32768) / 65536);
    assert(32768 * k <= a * (2 * g) < 32768 * (k + 1));
    assert(32768 * (k * g) <= 2 * (a * (g * g)) && 2 * (a * (g * g)) <= 32768 * (k * g + g))
        by (nonlinear_arith)
        requires
            32768 * k <= a * (2 * g) < 32768 * (k + 1),
            g >= 0,
    ;
}

/// A signal brought onto the level of silence is silent, and one without
/// energy stays as it is.
pub proof fn law_levelling_follows_the_reference(reference: Seq<Word16>, x: Seq<Word16>, i: int)
    requires
        x.len() == 64,
        0 <= i < 64,
    ensures
        quarter_energy(x, 64).0 == 0 ==> levelled_onto(reference, x) == x,
        quarter_energy(x, 64).0 != 0 && quarter_energy(reference, 64).0 == 0 ==> levelled_onto(
            reference,
            x,
        )[i] == Word16(0),
{
    reveal(levelled_onto);
    reveal(level_gain);
    reveal(crate::fixed_point::spec_extract_h);
    vstd::arithmetic::power2::lemma2_to64();
    assert(x[i].0 * 0 == 0);
    lemma_l_mac(Word32(0), x[i], Word16(0));
    lemma_l_shl(Word32(0), 2, 4);
}

} // verus!
