//! Algebraic codebook search: the pulses that best match a target.

use vstd::prelude::*;
use crate::fixed_point::{
    add_s, extract_h, l_abs, l_add, l_deposit_h, l_mac, l_msu, l_mult, l_shl, l_shr, lemma_l_mac,
    lemma_norm_l, lemma_square_grows, mult, mult_r, negate, norm_l, round, shr, shr_r, DspContext,
    Word16, Word32,
};
use crate::codebook::{even_position, odd_position, two_pulse_code};
use crate::math::{
    accumulate, dot_product12, isqrt_n, lemma_energy_positive, lemma_root_exponent, mac_run,
    spec_dot_product12,
};

verus! {

/// Samples in a subframe.
pub const L_SUBFR: usize = 64;

/// Pitch sharpening factor, 0.85 in Q15.
pub const PITCH_SHARP: i16 = 27853;

/// Positions per track in the four-track layout.
pub const NB_POS: usize = 16;

/// Tracks in the four-track layout.
pub const NB_TRACK: usize = 4;

/// Candidate positions pre-selected per track.
pub const NB_MAX: i16 = 8;

// ---------------------------------------------------------------------------
// Pitch sharpening
// ---------------------------------------------------------------------------

/// `x` with its samples below `n` sharpened: each takes in the already
/// sharpened sample one lag back.
pub open spec fn sharpened(x: Seq<Word16>, lag: int, sharp: Word16, n: int) -> Seq<Word16>
    decreases n,
{
    if n <= lag || n <= 0 {
        x
    } else {
        let p = sharpened(x, lag, sharp, n - 1);
        p.update(n - 1, round(l_mac(l_deposit_h(p[n - 1]), p[n - 1 - lag], sharp)))
    }
}

/// Pitch sharpening: fold a delayed copy of `x` back into itself.
///
/// Applied to the impulse response before the search and to the codeword
/// after it, with [`PITCH_SHARP`]. This is recursive: once `i >= 2 * pitch_lag`
/// the tap reads a sample this same loop has already rewritten.
///
/// A `pitch_lag` at or beyond the subframe length leaves `x` unchanged.
pub fn pitch_sharpen(_ctx: &mut DspContext, x: &mut [Word16], pitch_lag: usize, sharp: Word16)
    ensures
        final(x)@ == sharpened(old(x)@, pitch_lag as int, sharp, old(x)@.len() as int),
{
    let n: usize = x.len();
    let mut i: usize = pitch_lag;
    while i < n
        invariant
            n == x.len(),
            x@.len() == old(x)@.len(),
            pitch_lag <= i,
            i <= n || i == pitch_lag,
            x@ == sharpened(old(x)@, pitch_lag as int, sharp, i as int),
        decreases n - i,
    {
        let acc = l_deposit_h(x[i]);
        let acc = l_mac(acc, x[i - pitch_lag], sharp);
        x[i] = round(acc);
        i = i + 1;
    }
}

/// A lag at or beyond the end of the signal sharpens nothing.
pub proof fn law_long_lag_sharpens_nothing(x: Seq<Word16>, lag: int, sharp: Word16)
    requires
        lag >= x.len(),
    ensures
        sharpened(x, lag, sharp, x.len() as int) == x,
{
}

// ---------------------------------------------------------------------------
// Target correlation
// ---------------------------------------------------------------------------

/// The correlation of the target with the impulse response moved to sample
/// `i`, seeded with one so that it is not zero by default.
pub open spec fn raw_correlation(impulse: Seq<Word16>, target: Seq<Word16>, i: int) -> Word32 {
    mac_run(Word32(1), target, i, impulse, 0, 64 - i)
}

/// The largest magnitude among the first `n` positions of track `t`.
pub open spec fn track_peak(impulse: Seq<Word16>, target: Seq<Word16>, t: int, n: int) -> Word32
    decreases n,
{
    if n <= 0 {
        Word32(0)
    } else {
        let peak = track_peak(impulse, target, t, n - 1);
        let magnitude = l_abs(raw_correlation(impulse, target, t + 4 * (n - 1)));
        if magnitude.0 > peak.0 {
            magnitude
        } else {
            peak
        }
    }
}

/// One plus three eighths of the peaks of the first `t` tracks.
pub open spec fn peak_total(impulse: Seq<Word16>, target: Seq<Word16>, t: int) -> Word32
    decreases t,
{
    if t <= 0 {
        Word32(1)
    } else {
        let quarter = l_shr(track_peak(impulse, target, t - 1, 16), 2);
        l_add(l_add(peak_total(impulse, target, t - 1), quarter), l_shr(quarter, 1))
    }
}

/// The target correlation, scaled to leave four bits above its peaks.
pub open spec fn correlation(impulse: Seq<Word16>, target: Seq<Word16>) -> Seq<Word16> {
    let scale = (norm_l(peak_total(impulse, target, 4)) - 4) as i16;
    Seq::new(64, |i: int| round(l_shl(raw_correlation(impulse, target, i), scale)))
}

/// Correlate the codebook target with the impulse response.
///
/// `impulse` is Q12, `target` carries the subframe's own scaling, and the
/// result is normalised to under 12 significant bits so that six times the sum
/// of the per-track maxima cannot saturate downstream.
#[must_use]
pub fn correlate_target(
    _ctx: &mut DspContext,
    impulse: &[Word16; L_SUBFR],
    target: &[Word16; L_SUBFR],
) -> (dn: [Word16; L_SUBFR])
    ensures
        dn@ == correlation(impulse@, target@),
{
    let mut raw: [Word32; L_SUBFR] = [Word32(0); L_SUBFR];
    let mut total = Word32(1);
    for t in 0..NB_TRACK
        invariant
            total == peak_total(impulse@, target@, t as int),
            forall|i: int|
                0 <= i < 64 && i % 4 < t ==> #[trigger] raw@[i] == raw_correlation(
                    impulse@,
                    target@,
                    i,
                ),
    {
        let mut peak = Word32(0);
        for k in 0..NB_POS
            invariant
                t < 4,
                peak == track_peak(impulse@, target@, t as int, k as int),
                forall|i: int|
                    0 <= i < 64 && (i % 4 < t || i % 4 == t && i / 4 < k) ==> #[trigger] raw@[i]
                        == raw_correlation(impulse@, target@, i),
        {
            let i: usize = t + NB_TRACK * k;
            let acc = accumulate(Word32(1), target, i, impulse, 0, L_SUBFR - i);
            raw[i] = acc;
            let magnitude = l_abs(acc);
            if magnitude.0 > peak.0 {
                peak = magnitude;
            }
        }
        let quarter = l_shr(peak, 2);
        total = l_add(total, quarter);
        total = l_add(total, l_shr(quarter, 1));
    }
    let scale: i16 = norm_l(total) - 4;
    let mut out: [Word16; L_SUBFR] = [Word16(0); L_SUBFR];
    for i in 0..L_SUBFR
        invariant
            scale == norm_l(peak_total(impulse@, target@, 4)) - 4,
            forall|j: int|
                0 <= j < 64 ==> #[trigger] raw@[j] == raw_correlation(impulse@, target@, j),
            forall|j: int| 0 <= j < i ==> out@[j] == correlation(impulse@, target@)[j],
    {
        out[i] = round(l_shl(raw[i], scale));
    }
    assert(out@ =~= correlation(impulse@, target@));
    out
}

// ---------------------------------------------------------------------------
// Signs
// ---------------------------------------------------------------------------

/// The gain that brings the residual's energy to a common scale.
pub open spec fn residual_gain(cn: Seq<Word16>) -> Word16 {
    let (frac, exp) = isqrt_n(spec_dot_product12(cn, cn));
    round(l_shl(frac, (exp + 5) as i16))
}

/// The weighted gain that brings the correlation's energy to that scale.
pub open spec fn correlation_gain(dn: Seq<Word16>, weight: Word16) -> Word16 {
    let (frac, exp) = isqrt_n(spec_dot_product12(dn, dn));
    mult_r(weight, round(l_shl(frac, (exp + 8) as i16)))
}

/// The mix of residual and correlation that decides the sign of sample `i`.
pub open spec fn mixed_at(dn: Seq<Word16>, cn: Seq<Word16>, weight: Word16, i: int) -> Word16 {
    let acc = l_mac(l_mult(residual_gain(cn), cn[i]), correlation_gain(dn, weight), dn[i]);
    extract_h(l_shl(acc, 8))
}

/// Per-sample signs: the largest word where a pulse must be positive, the
/// smallest where negative.
pub open spec fn signs(dn: Seq<Word16>, cn: Seq<Word16>, weight: Word16) -> Seq<Word16> {
    Seq::new(
        64,
        |i: int|
            if mixed_at(dn, cn, weight, i).0 >= 0 {
                Word16(32767)
            } else {
                Word16(-32768i16)
            },
    )
}

/// The correlation with the signs folded in.
pub open spec fn signed_correlation(dn: Seq<Word16>, cn: Seq<Word16>, weight: Word16) -> Seq<
    Word16,
> {
    Seq::new(
        64,
        |i: int|
            if mixed_at(dn, cn, weight, i).0 >= 0 {
                dn[i]
            } else {
                negate(dn[i])
            },
    )
}

/// The magnitude of the mix.
pub open spec fn rectified(dn: Seq<Word16>, cn: Seq<Word16>, weight: Word16) -> Seq<Word16> {
    Seq::new(
        64,
        |i: int|
            if mixed_at(dn, cn, weight, i).0 >= 0 {
                mixed_at(dn, cn, weight, i)
            } else {
                negate(mixed_at(dn, cn, weight, i))
            },
    )
}

/// Fix one sign per sample from a normalised mix of the LTP residual and the
/// target correlation, and fold that sign into `dn` in place.
///
/// Returns the signs, and the magnitude of the mix they were taken on.
pub fn decide_signs(
    dn: &mut [Word16; L_SUBFR],
    cn: &[Word16; L_SUBFR],
    mix_weight: Word16,
) -> (r: ([Word16; L_SUBFR], [Word16; L_SUBFR]))
    ensures
        final(dn)@ == signed_correlation(old(dn)@, cn@, mix_weight),
        r.0@ == signs(old(dn)@, cn@, mix_weight),
        r.1@ == rectified(old(dn)@, cn@, mix_weight),
{
    let ghost dn0 = dn@;
    let residual = dot_product12(cn, cn);
    proof {
        lemma_root_exponent(residual);
    }
    let (frac, exp) = isqrt_n(residual);
    let k_cn = round(l_shl(frac, exp + 5));
    let correlation = dot_product12(dn, dn);
    proof {
        lemma_root_exponent(correlation);
    }
    let (frac, exp) = isqrt_n(correlation);
    let k_dn = mult_r(mix_weight, round(l_shl(frac, exp + 8)));
    let mut sign: [Word16; L_SUBFR] = [Word16(0); L_SUBFR];
    let mut mixed: [Word16; L_SUBFR] = [Word16(0); L_SUBFR];
    for i in 0..L_SUBFR
        invariant
            k_cn == residual_gain(cn@),
            k_dn == correlation_gain(dn0, mix_weight),
            dn0.len() == 64,
            forall|j: int| 0 <= j < i ==> dn@[j] == signed_correlation(dn0, cn@, mix_weight)[j],
            forall|j: int| i <= j < 64 ==> dn@[j] == dn0[j],
            forall|j: int| 0 <= j < i ==> sign@[j] == signs(dn0, cn@, mix_weight)[j],
            forall|j: int| 0 <= j < i ==> mixed@[j] == rectified(dn0, cn@, mix_weight)[j],
    {
        let acc = l_mac(l_mult(k_cn, cn[i]), k_dn, dn[i]);
        let mix = extract_h(l_shl(acc, 8));
        if mix.0 >= 0 {
            sign[i] = Word16(32767);
            mixed[i] = mix;
        } else {
            sign[i] = Word16(-32768i16);
            dn[i] = negate(dn[i]);
            mixed[i] = negate(mix);
        }
    }
    assert(dn@ =~= signed_correlation(dn0, cn@, mix_weight));
    assert(sign@ =~= signs(dn0, cn@, mix_weight));
    assert(mixed@ =~= rectified(dn0, cn@, mix_weight));
    (sign, mixed)
}

// ---------------------------------------------------------------------------
// Energies of the shifted impulse response
// ---------------------------------------------------------------------------

/// The energy of `h` moved to sample `p`.
pub open spec fn energy_at(h: Seq<Word16>, seed: Word32, p: int) -> Word16 {
    extract_h(mac_run(seed, h, 0, h, 0, 64 - p))
}

/// The cross-correlation of `h` moved to samples `a` and `b`.
pub open spec fn cross_at(h: Seq<Word16>, a: int, b: int) -> Word16 {
    if a < b {
        extract_h(mac_run(Word32(0x8000), h, 0, h, b - a, 64 - b))
    } else {
        extract_h(mac_run(Word32(0x8000), h, 0, h, a - b, 64 - a))
    }
}

/// The opposite sign.
pub open spec fn flipped(sign: Word16) -> Word16 {
    if sign.0 < 0 {
        Word16(32767)
    } else {
        Word16(-32768i16)
    }
}

/// The cross term of two pulses with their signs folded in.
pub open spec fn signed_cross(h: Seq<Word16>, sign: Seq<Word16>, a: int, b: int) -> Word16 {
    mult(
        cross_at(h, a, b),
        if sign[a].0 < 0 {
            flipped(sign[b])
        } else {
            sign[b]
        },
    )
}

/// Running energy of the impulse response: entry `n` is the energy after
/// `n + 1` products, so the energy of `h` moved to `p` is entry `63 - p`.
pub fn energy_prefix(h: &[Word16; L_SUBFR], seed: Word32) -> (prefix: [Word16; L_SUBFR])
    ensures
        forall|p: int| 0 <= p < 64 ==> #[trigger] prefix@[63 - p] == energy_at(h@, seed, p),
        forall|n: int|
            0 <= n < 64 ==> #[trigger] prefix@[n] == extract_h(
                mac_run(seed, h@, 0, h@, 0, n + 1),
            ),
{
    let mut acc = seed;
    let mut prefix: [Word16; L_SUBFR] = [Word16(0); L_SUBFR];
    for i in 0..L_SUBFR
        invariant
            acc == mac_run(seed, h@, 0, h@, 0, i as int),
            forall|n: int|
                0 <= n < i ==> #[trigger] prefix@[n] == extract_h(
                    mac_run(seed, h@, 0, h@, 0, n + 1),
                ),
    {
        acc = l_mac(acc, h[i], h[i]);
        prefix[i] = extract_h(acc);
    }
    prefix
}

/// Running cross-correlation of the impulse response with itself at every odd
/// lag, as prefix chains indexed by `(lag - 1) / 2`.
///
/// Two pulses on adjacent tracks are always an odd number of samples apart,
/// which is why only odd lags exist.
pub fn cross_prefix(h: &[Word16; L_SUBFR]) -> (table: [[Word16; L_SUBFR]; 32])
    ensures
        forall|c: int, n: int|
            0 <= c < 32 && 0 <= n < 63 - 2 * c ==> #[trigger] table@[c]@[n] == extract_h(
                mac_run(Word32(0x8000), h@, 0, h@, 2 * c + 1, n + 1),
            ),
{
    let mut table: [[Word16; L_SUBFR]; 32] = [[Word16(0); L_SUBFR]; 32];
    for c in 0..32usize
        invariant
            forall|d: int, n: int|
                0 <= d < c && 0 <= n < 63 - 2 * d ==> #[trigger] table@[d]@[n] == extract_h(
                    mac_run(Word32(0x8000), h@, 0, h@, 2 * d + 1, n + 1),
                ),
    {
        let lag: usize = 2 * c + 1;
        let mut chain: [Word16; L_SUBFR] = [Word16(0); L_SUBFR];
        let mut acc = Word32(0x8000);
        for i in 0..L_SUBFR - lag
            invariant
                c < 32,
                lag == 2 * c + 1,
                acc == mac_run(Word32(0x8000), h@, 0, h@, lag as int, i as int),
                forall|n: int|
                    0 <= n < i ==> #[trigger] chain@[n] == extract_h(
                        mac_run(Word32(0x8000), h@, 0, h@, lag as int, n + 1),
                    ),
        {
            acc = l_mac(acc, h[i], h[i + lag]);
            chain[i] = extract_h(acc);
        }
        table[c] = chain;
    }
    table
}

/// The signed cross term of two pulses, out of the prefix chains.
pub(crate) fn cross_lookup(
    table: &[[Word16; L_SUBFR]; 32],
    sign: &[Word16; L_SUBFR],
    Ghost(h): Ghost<Seq<Word16>>,
    a: usize,
    b: usize,
) -> (r: Word16)
    requires
        a < 64,
        b < 64,
        a % 2 != b % 2,
        forall|c: int, n: int|
            0 <= c < 32 && 0 <= n < 63 - 2 * c ==> #[trigger] table@[c]@[n] == extract_h(
                mac_run(Word32(0x8000), h, 0, h, 2 * c + 1, n + 1),
            ),
    ensures
        r == signed_cross(h, sign@, a as int, b as int),
{
    let (lag, last): (usize, usize) = if a < b {
        (b - a, 63 - b)
    } else {
        (a - b, 63 - a)
    };
    let c: usize = (lag - 1) / 2;
    assert(lag == 2 * c + 1);
    let chain = &table[c];
    let term = chain[last];
    assert(term == table@[c as int]@[last as int]);
    let other = if sign[a].0 < 0 {
        if sign[b].0 < 0 {
            Word16(32767)
        } else {
            Word16(-32768)
        }
    } else {
        sign[b]
    };
    mult(term, other)
}

/// The impulse response moved to `pos` and signed, zero before `pos`.
pub open spec fn tap_at(h: Seq<Word16>, sign: Word16, pos: int, i: int) -> Word16 {
    if i < pos {
        Word16(0)
    } else if sign.0 < 0 {
        negate(h[i - pos])
    } else {
        h[i - pos]
    }
}

/// The impulse response moved to `pos` and signed, zero before `pos`.
pub fn tap(h: &[Word16; L_SUBFR], sign: Word16, pos: usize, i: usize) -> (r: Word16)
    requires
        pos < 64,
        i < 64,
    ensures
        r == tap_at(h@, sign, pos as int, i as int),
{
    if i < pos {
        Word16(0)
    } else if sign.0 < 0 {
        negate(h[i - pos])
    } else {
        h[i - pos]
    }
}

// ---------------------------------------------------------------------------
// The two-pulse codebook
// ---------------------------------------------------------------------------

/// One subframe's algebraic excitation from the 12-bit two-pulse codebook.
#[derive(Clone, Debug, PartialEq, Eq)]
pub struct TwoPulseInnovation {
    /// Algebraic excitation, Q9, with exactly two pulses of ±512.
    pub code: [Word16; L_SUBFR],
    /// Filtered excitation, Q9.
    pub filtered: [Word16; L_SUBFR],
    /// The 12-bit index: sign and position of the even-track pulse in bits
    /// 11..6, sign and position of the odd-track pulse in bits 5..0.
    pub index: u16,
    /// Sample positions of the two pulses: one even, one odd.
    pub positions: [usize; 2],
    /// Whether each pulse is positive.
    pub positive: [bool; 2],
}

/// The response to a pulse pair, Q9.
pub open spec fn pair_response(h: Seq<Word16>, sign: Seq<Word16>, x: int, y: int) -> Seq<Word16> {
    Seq::new(
        64,
        |i: int| shr_r(add_s(tap_at(h, sign[x], x, i), tap_at(h, sign[y], y, i)), 3),
    )
}

/// The best pair among the first `k` of the 32 × 32 pairs in ascending order:
/// its squared correlation, its energy and its two samples. A pair displaces
/// the incumbent only when its ratio of the two is strictly larger.
pub open spec fn two_pulse_pick(
    dn: Seq<Word16>,
    sign: Seq<Word16>,
    h: Seq<Word16>,
    k: int,
) -> (Word16, Word16, int, int)
    decreases k,
{
    if k <= 0 {
        (Word16(-1i16), Word16(1), 0, 1)
    } else {
        let best = two_pulse_pick(dn, sign, h, k - 1);
        let a = 2 * ((k - 1) / 32);
        let b = 2 * ((k - 1) % 32) + 1;
        let seed = Word32(0x1_0000);
        let corr = add_s(dn[a], dn[b]);
        let inner = add_s(shr(energy_at(h, seed, b), 1), signed_cross(h, sign, a, b));
        let energy = add_s(shr(energy_at(h, seed, a), 1), inner);
        let sq = mult(corr, corr);
        if l_msu(l_mult(best.1, sq), best.0, energy).0 > 0 {
            (sq, energy, a, b)
        } else {
            best
        }
    }
}

/// The codeword with pulses at `x` and `y`.
pub open spec fn pulse_pair(sign: Seq<Word16>, x: int, y: int) -> Seq<Word16> {
    Seq::new(
        64,
        |i: int|
            if i == x || i == y {
                if sign[i].0 > 0 {
                    Word16(512)
                } else {
                    Word16(-512i16)
                }
            } else {
                Word16(0)
            },
    )
}

/// The 12-bit index of pulses at `x` and `y`.
pub open spec fn pair_index(sign: Seq<Word16>, x: int, y: int) -> int {
    let i0 = x / 2 + if sign[x].0 > 0 {
        0
    } else {
        32int
    };
    let i1 = y / 2 + if sign[y].0 > 0 {
        0
    } else {
        32int
    };
    i0 * 64 + i1
}

/// One pulse is even and the other odd, whatever was searched.
pub proof fn lemma_pick_samples(dn: Seq<Word16>, sign: Seq<Word16>, h: Seq<Word16>, k: int)
    requires
        k <= 1024,
    ensures
        ({
            let best = two_pulse_pick(dn, sign, h, k);
            &&& 0 <= best.2 < 64 && best.2 % 2 == 0
            &&& 0 <= best.3 < 64 && best.3 % 2 == 1
        }),
    decreases k,
{
    if k > 0 {
        lemma_pick_samples(dn, sign, h, k - 1);
    }
}

/// Search the 12-bit, two-pulse codebook used at 6.60 kbit/s.
///
/// `dn` is the target correlation from [`correlate_target`] and is **modified
/// in place**: the chosen sign is folded into it. `cn` is the LTP residual,
/// `impulse` the Q12 weighted synthesis impulse response. Both pulses are ±512
/// (1.0 in Q9); the filtered codeword is Q9 too.
///
/// All 32 × 32 combinations are tested, in ascending sample order, with the
/// incumbent carried across the whole grid. The defaults `(0, 1)` survive if
/// no candidate is ever accepted.
#[must_use]
pub fn search_two_pulse(
    _ctx: &mut DspContext,
    dn: &mut [Word16; L_SUBFR],
    cn: &[Word16; L_SUBFR],
    impulse: &[Word16; L_SUBFR],
) -> (r: TwoPulseInnovation)
    ensures
        final(dn)@ == signed_correlation(old(dn)@, cn@, Word16(8192)),
        ({
            let sign = signs(old(dn)@, cn@, Word16(8192));
            let best = two_pulse_pick(final(dn)@, sign, impulse@, 1024);
            &&& r.positions@[0] == best.2 && r.positions@[1] == best.3
            &&& r.positive@[0] == (sign[best.2].0 > 0) && r.positive@[1] == (sign[best.3].0 > 0)
            &&& r.code@ == pulse_pair(sign, best.2, best.3)
            &&& r.index == pair_index(sign, best.2, best.3)
            &&& r.filtered@ == pair_response(impulse@, sign, best.2, best.3)
        }),
        r.positions@[0] < 64 && r.positions@[0] % 2 == 0,
        r.positions@[1] < 64 && r.positions@[1] % 2 == 1,
        r.index < 4096,
        forall|i: int|
            0 <= i < 64 ==> two_pulse_code(r.index as int)[i] == #[trigger] r.code@[i].0,
        forall|i: int|
            0 <= i < 64 ==> (#[trigger] final(dn)@[i] == old(dn)@[i] || final(dn)@[i] == negate(
                old(dn)@[i],
            )),
{
    let ghost dn0 = dn@;
    let (sign, _mixed) = decide_signs(dn, cn, Word16(8192));
    let ghost h = impulse@;
    // The seed adds one to every energy: a bias, not a rounding constant.
    let prefix = energy_prefix(impulse, Word32(0x1_0000));
    let chains = cross_prefix(impulse);
    let mut best_sq = Word16(-1);
    let mut best_energy = Word16(1);
    let mut ix: usize = 0;
    let mut iy: usize = 1;
    for n0 in 0..32usize
        invariant
            h == impulse@,
            forall|p: int|
                0 <= p < 64 ==> #[trigger] prefix@[63 - p] == energy_at(h, Word32(0x1_0000), p),
            forall|c: int, n: int|
                0 <= c < 32 && 0 <= n < 63 - 2 * c ==> #[trigger] chains@[c]@[n] == extract_h(
                    mac_run(Word32(0x8000), h, 0, h, 2 * c + 1, n + 1),
                ),
            (best_sq, best_energy, ix as int, iy as int) == two_pulse_pick(
                dn@,
                sign@,
                h,
                32 * n0 as int,
            ),
    {
        let i0: usize = 2 * n0;
        // Halved, so that the cross term carries twice the weight of a pulse's
        // own.
        let energy0 = shr(prefix[63 - i0], 1);
        assert(energy0 == shr(energy_at(h, Word32(0x1_0000), i0 as int), 1));
        for n1 in 0..32usize
            invariant
                n0 < 32,
                i0 == 2 * n0,
                h == impulse@,
                energy0 == shr(energy_at(h, Word32(0x1_0000), i0 as int), 1),
                forall|p: int|
                    0 <= p < 64 ==> #[trigger] prefix@[63 - p] == energy_at(
                        h,
                        Word32(0x1_0000),
                        p,
                    ),
                forall|c: int, n: int|
                    0 <= c < 32 && 0 <= n < 63 - 2 * c ==> #[trigger] chains@[c]@[n] == extract_h(
                        mac_run(Word32(0x8000), h, 0, h, 2 * c + 1, n + 1),
                    ),
                (best_sq, best_energy, ix as int, iy as int) == two_pulse_pick(
                    dn@,
                    sign@,
                    h,
                    32 * n0 + n1,
                ),
        {
            let i1: usize = 2 * n1 + 1;
            let corr = add_s(dn[i0], dn[i1]);
            let energy1 = shr(prefix[63 - i1], 1);
            assert(energy1 == shr(energy_at(h, Word32(0x1_0000), i1 as int), 1));
            let inner = add_s(energy1, cross_lookup(&chains, &sign, Ghost(h), i0, i1));
            let energy = add_s(energy0, inner);
            let sq = mult(corr, corr);
            proof {
                let k = 32 * n0 + n1 + 1;
                assert((k - 1) / 32 == n0 && (k - 1) % 32 == n1);
            }
            if l_msu(l_mult(best_energy, sq), best_sq, energy).0 > 0 {
                best_sq = sq;
                best_energy = energy;
                ix = i0;
                iy = i1;
            }
        }
    }
    proof {
        lemma_pick_samples(dn@, sign@, h, 1024);
    }
    let mut code: [Word16; L_SUBFR] = [Word16(0); L_SUBFR];
    let mut first: usize = ix / 2;
    let mut second: usize = iy / 2;
    let positive: [bool; 2] = [sign[ix].0 > 0, sign[iy].0 > 0];
    if positive[0] {
        code[ix] = Word16(512);
    } else {
        code[ix] = Word16(-512);
        first = first + 32;
    }
    if positive[1] {
        code[iy] = Word16(512);
    } else {
        code[iy] = Word16(-512);
        second = second + 32;
    }
    let mut filtered: [Word16; L_SUBFR] = [Word16(0); L_SUBFR];
    for i in 0..L_SUBFR
        invariant
            ix < 64,
            iy < 64,
            forall|j: int|
                0 <= j < i ==> filtered@[j] == shr_r(
                    add_s(
                        tap_at(impulse@, sign@[ix as int], ix as int, j),
                        tap_at(impulse@, sign@[iy as int], iy as int, j),
                    ),
                    3,
                ),
    {
        let a = tap(impulse, sign[ix], ix, i);
        let b = tap(impulse, sign[iy], iy, i);
        filtered[i] = shr_r(add_s(a, b), 3);
    }
    assert(code@ =~= pulse_pair(sign@, ix as int, iy as int));
    proof {
        law_two_pulse_search_survives(dn0, cn@, impulse@);
    }
    TwoPulseInnovation {
        code,
        filtered,
        index: (first * 64 + second) as u16,
        positions: [ix, iy],
        positive,
    }
}

/// Whatever is searched, the two-pulse codeword survives transmission: one
/// pulse is even and the other odd, the index fits twelve bits and decodes into
/// the codeword, which is silent but for the two pulses. The search leaves each
/// target correlation or its negation.
pub proof fn law_two_pulse_search_survives(
    dn: Seq<Word16>,
    cn: Seq<Word16>,
    impulse: Seq<Word16>,
)
    ensures
        ({
            let signed = signed_correlation(dn, cn, Word16(8192));
            let sign = signs(dn, cn, Word16(8192));
            let best = two_pulse_pick(signed, sign, impulse, 1024);
            let code = pulse_pair(sign, best.2, best.3);
            let index = pair_index(sign, best.2, best.3);
            &&& 0 <= best.2 < 64 && best.2 % 2 == 0
            &&& 0 <= best.3 < 64 && best.3 % 2 == 1
            &&& 0 <= index < 4096
            &&& forall|i: int| 0 <= i < 64 ==> two_pulse_code(index)[i] == #[trigger] code[i].0
            &&& forall|i: int|
                0 <= i < 64 ==> #[trigger] code[i] == if i != best.2 && i != best.3 {
                    Word16(0)
                } else if sign[i].0 > 0 {
                    Word16(512)
                } else {
                    Word16(-512i16)
                }
            &&& forall|i: int|
                0 <= i < 64 ==> (#[trigger] signed[i] == dn[i] || signed[i] == negate(dn[i]))
        }),
{
    let signed = signed_correlation(dn, cn, Word16(8192));
    let sign = signs(dn, cn, Word16(8192));
    let best = two_pulse_pick(signed, sign, impulse, 1024);
    lemma_pick_samples(signed, sign, impulse, 1024);
    law_two_pulse_index_decodes(sign, best.2, best.3);
}

/// The 12-bit index decodes into the codeword it was made from.
pub proof fn law_two_pulse_index_decodes(sign: Seq<Word16>, x: int, y: int)
    requires
        sign.len() == 64,
        0 <= x < 64,
        x % 2 == 0,
        0 <= y < 64,
        y % 2 == 1,
    ensures
        forall|i: int|
            0 <= i < 64 ==> two_pulse_code(pair_index(sign, x, y))[i] == #[trigger] pulse_pair(
                sign,
                x,
                y,
            )[i].0,
{
    let index = pair_index(sign, x, y);
    assert(even_position(index) == x && odd_position(index) == y);
    assert((index / 2048 % 2 == 0) == (sign[x].0 > 0));
    assert((index / 32 % 2 == 0) == (sign[y].0 > 0));
}

// ---------------------------------------------------------------------------
// What the search is for
// ---------------------------------------------------------------------------

/// A signal's gain onto the common scale is not negative.
proof fn lemma_gains_positive(dn: Seq<Word16>, cn: Seq<Word16>, weight: Word16)
    requires
        weight.0 >= 0,
    ensures
        residual_gain(cn).0 >= 0,
        correlation_gain(dn, weight).0 >= 0,
{
    lemma_root_positive(cn, 5);
    lemma_root_positive(dn, 8);
    reveal(crate::fixed_point::spec_mult_r);
    let (frac, exp) = isqrt_n(spec_dot_product12(dn, dn));
    let a = weight.0 as int;
    let b = round(l_shl(frac, (exp + 8) as i16)).0 as int;
    assert(0 <= a * b <= 32767 * 32767) by (nonlinear_arith)
        requires
            0 <= a <= 32767,
            0 <= b <= 32767,
    ;
}

/// A scaled reciprocal root is not negative.
proof fn lemma_root_positive(x: Seq<Word16>, up: i16)
    requires
        0 <= up <= 8,
    ensures
        ({
            let (frac, exp) = isqrt_n(spec_dot_product12(x, x));
            round(l_shl(frac, (exp + up) as i16)).0 >= 0
        }),
{
    reveal(crate::fixed_point::spec_round);
    reveal(crate::fixed_point::spec_l_add);
    reveal(crate::fixed_point::spec_extract_h);
    crate::math::lemma_energy_positive(Word32(1), x, 0, x.len() as int);
    lemma_norm_l(mac_run(Word32(1), x, 0, x, 0, crate::math::common_length(x, x)));
    let value = spec_dot_product12(x, x);
    crate::math::lemma_root_range(value.0, value.1);
    let (frac, exp) = isqrt_n(value);
    crate::fixed_point::lemma_shift_nonnegative(frac, (exp + up) as i16);
}

/// A pulse takes the sign of the signals: positive where the residual and the
/// correlation are both not negative, negative where neither is positive and
/// the mix of them is not lost; and the folded correlation is then never
/// negative but for the word that has no opposite.
pub proof fn law_pulses_take_the_signals_sign(
    dn: Seq<Word16>,
    cn: Seq<Word16>,
    weight: Word16,
    i: int,
)
    requires
        weight.0 >= 0,
        0 <= i < 64,
    ensures
        dn[i].0 >= 0 && cn[i].0 >= 0 ==> signs(dn, cn, weight)[i].0 > 0 && signed_correlation(
            dn,
            cn,
            weight,
        )[i] == dn[i],
        dn[i].0 <= 0 && cn[i].0 <= 0 && (residual_gain(cn).0 > 0 && cn[i].0 < 0
            || correlation_gain(dn, weight).0 > 0 && dn[i].0 < 0) ==> signs(dn, cn, weight)[i].0
            < 0 && signed_correlation(dn, cn, weight)[i].0 >= 0,
{
    lemma_gains_positive(dn, cn, weight);
    reveal(crate::fixed_point::spec_extract_h);
    reveal(crate::fixed_point::spec_l_mac);
    reveal(crate::fixed_point::spec_l_mult);
    reveal(crate::fixed_point::spec_l_add);
    reveal(crate::fixed_point::spec_negate);
    let a = residual_gain(cn);
    let b = correlation_gain(dn, weight);
    let k = a.0 as int;
    let m = b.0 as int;
    let x = cn[i].0 as int;
    let y = dn[i].0 as int;
    assert((x >= 0 ==> k * x >= 0) && (y >= 0 ==> m * y >= 0) && (x <= 0 ==> k * x <= 0) && (y <= 0
        ==> m * y <= 0) && (x < 0 && k > 0 ==> k * x < 0) && (y < 0 && m > 0 ==> m * y < 0)) by (nonlinear_arith)
        requires
            k >= 0,
            m >= 0,
    ;
    let acc = l_mac(l_mult(a, cn[i]), b, dn[i]);
    vstd::arithmetic::power2::lemma2_to64();
    crate::fixed_point::lemma_l_shl(acc, 8, 256);
}

/// The squared correlation and the energy of the pair `k` of the grid: its
/// even sample and its odd one in ascending order.
pub open spec fn grid_score(dn: Seq<Word16>, sign: Seq<Word16>, h: Seq<Word16>, k: int) -> (
    Word16,
    Word16,
) {
    let even = 2 * (k / 32);
    let odd = 2 * (k % 32) + 1;
    let together = add_s(dn[even], dn[odd]);
    (
        mult(together, together),
        add_s(
            shr(energy_at(h, Word32(0x1_0000), even), 1),
            add_s(
                shr(energy_at(h, Word32(0x1_0000), odd), 1),
                signed_cross(h, sign, even, odd),
            ),
        ),
    )
}

/// A square is not negative.
pub proof fn lemma_square_word(a: Word16)
    ensures
        mult(a, a).0 >= 0,
{
    reveal(crate::fixed_point::spec_mult);
    let x = a.0 as int;
    assert(x * x >= 0) by (nonlinear_arith);
}

/// The comparison of two ratios by cross products.
pub proof fn lemma_ratio_test(best: (Word16, Word16), score: (Word16, Word16))
    requires
        best.0.0 >= -1,
        best.1.0 > 0,
        score.0.0 >= 0,
        score.1.0 > 0,
    ensures
        l_msu(l_mult(best.1, score.0), best.0, score.1).0 > 0 <==> score.0.0 * best.1.0 > best.0.0
            * score.1.0,
{
    let a = best.1.0 * score.0.0;
    let b = best.0.0 * score.1.0;
    assert(0 <= best.1.0 * score.0.0 <= 32767 * 32767 && -32767 <= best.0.0 * score.1.0 <= 32767
        * 32767 && best.1.0 * score.0.0 == score.0.0 * best.1.0) by (nonlinear_arith)
        requires
            -1 <= best.0.0 <= 32767,
            0 < best.1.0 <= 32767,
            0 <= score.0.0 <= 32767,
            0 < score.1.0 <= 32767,
    ;
    crate::fixed_point::lemma_l_mac(Word32(0), best.1, score.0);
    crate::fixed_point::lemma_l_mac(l_mult(best.1, score.0), best.0, score.1);
}

/// A ratio that is at least another's keeps that over a third it improves on.
pub proof fn lemma_ratio_chain(a: int, b: int, c: int, d: int, e: int, f: int)
    requires
        b > 0,
        d > 0,
        f > 0,
        a * d >= c * b,
        e * b >= a * f,
    ensures
        e * d >= c * f,
{
    assert(e * d >= c * f) by (nonlinear_arith)
        requires
            b > 0,
            d > 0,
            f > 0,
            a * d >= c * b,
            e * b >= a * f,
    ;
}

/// The two pulses of the searched codeword match best: no pair of the grid has
/// a larger ratio of squared correlation to energy.
pub proof fn law_two_pulses_match_best(
    dn: Seq<Word16>,
    sign: Seq<Word16>,
    h: Seq<Word16>,
    k: int,
    c: int,
)
    requires
        0 <= c < k <= 1024,
        forall|j: int| 0 <= j < k ==> (#[trigger] grid_score(dn, sign, h, j)).1.0 > 0,
    ensures
        ({
            let best = two_pulse_pick(dn, sign, h, k);
            let score = grid_score(dn, sign, h, c);
            &&& best.1.0 > 0
            &&& best.0.0 * score.1.0 >= score.0.0 * best.1.0
            &&& exists|j: int|
                0 <= j < k && #[trigger] grid_score(dn, sign, h, j) == (best.0, best.1) && best.2
                    == 2 * (j / 32) && best.3 == 2 * (j % 32) + 1
        }),
    decreases k,
{
    let score = grid_score(dn, sign, h, k - 1);
    let together = add_s(dn[2 * ((k - 1) / 32)], dn[2 * ((k - 1) % 32) + 1]);
    lemma_square_word(together);
    let best = two_pulse_pick(dn, sign, h, k);
    if k == 1 {
        let before = two_pulse_pick(dn, sign, h, 0);
        assert(before == (Word16(-1i16), Word16(1), 0int, 1int));
        lemma_ratio_test((before.0, before.1), score);
        assert(score.0.0 * 1 > -1 * score.1.0);
        assert(grid_score(dn, sign, h, 0) == (best.0, best.1));
        assert(best.0.0 * score.1.0 >= score.0.0 * best.1.0) by (nonlinear_arith)
            requires
                best.0 == score.0,
                best.1 == score.1,
        ;
    } else {
        let before = two_pulse_pick(dn, sign, h, k - 1);
        let other = if c < k - 1 {
            c
        } else {
            0
        };
        law_two_pulses_match_best(dn, sign, h, k - 1, other);
        let j = choose|j: int|
            0 <= j < k - 1 && #[trigger] grid_score(dn, sign, h, j) == (before.0, before.1)
                && before.2 == 2 * (j / 32) && before.3 == 2 * (j % 32) + 1;
        lemma_square_word(add_s(dn[2 * (j / 32)], dn[2 * (j % 32) + 1]));
        lemma_ratio_test((before.0, before.1), score);
        if score.0.0 * before.1.0 > before.0.0 * score.1.0 {
            assert(grid_score(dn, sign, h, k - 1) == (best.0, best.1));
            let old = grid_score(dn, sign, h, other);
            lemma_ratio_chain(
                before.0.0 as int,
                before.1.0 as int,
                old.0.0 as int,
                old.1.0 as int,
                score.0.0 as int,
                score.1.0 as int,
            );
            if c == k - 1 {
                assert(best.0.0 * score.1.0 >= score.0.0 * best.1.0) by (nonlinear_arith)
                    requires
                        best.0 == score.0,
                        best.1 == score.1,
                ;
            }
        } else {
            assert(grid_score(dn, sign, h, j) == (best.0, best.1));
        }
    }
}

proof fn lemma_sharpened_at(x: Seq<Word16>, lag: int, sharp: Word16, n: int, i: int)
    requires
        1 <= lag,
        0 <= i < x.len(),
        n <= x.len(),
        0 <= sharp.0,
    ensures
        ({
            let y = sharpened(x, lag, sharp, n);
            let sum = 32768 * x[i].0 + if i < lag {
                0
            } else {
                y[i - lag].0 * sharp.0
            };
            &&& y.len() == x.len()
            &&& i >= n ==> y[i] == x[i]
            &&& i < n && -1073741824 <= sum <= 1073709056 ==> -16384 <= 32768 * y[i].0 - sum
                <= 16384
        }),
    decreases n,
{
    if n > 0 && n > lag {
        lemma_sharpened_at(x, lag, sharp, n - 1, i);
        let p = sharpened(x, lag, sharp, n - 1);
        if i == n - 1 {
            reveal(crate::fixed_point::spec_l_deposit_h);
            let back = p[n - 1 - lag];
            let b = back.0 as int;
            let g = sharp.0 as int;
            assert(-0x4000_0000 <= b * g <= 0x3fff_ffff) by (nonlinear_arith)
                requires
                    -32768 <= b <= 32767,
                    0 <= g <= 32767,
            ;
            crate::fixed_point::lemma_l_mac(l_deposit_h(p[n - 1]), back, sharp);
            let acc = l_mac(l_deposit_h(p[n - 1]), back, sharp);
            if -1073741824 <= 32768 * x[i].0 + b * g <= 1073709056 {
                crate::fixed_point::lemma_round(acc);
            }
        }
    }
}

/// Sharpening folds in what lies a period back, once more each period: every
/// sample is the one that was there and a share of the sharpened one a period
/// before it, to the nearest unit.
pub proof fn law_sharpening_repeats_each_period(
    x: Seq<Word16>,
    lag: int,
    sharp: Word16,
    i: int,
)
    requires
        1 <= lag,
        0 <= i < x.len(),
        0 <= sharp.0,
    ensures
        ({
            let y = sharpened(x, lag, sharp, x.len() as int);
            let sum = 32768 * x[i].0 + if i < lag {
                0
            } else {
                y[i - lag].0 * sharp.0
            };
            &&& y.len() == x.len()
            &&& -1073741824 <= sum <= 1073709056 ==> -16384 <= 32768 * y[i].0 - sum <= 16384
        }),
{
    lemma_sharpened_at(x, lag, sharp, x.len() as int, i);
}

proof fn lemma_lone_target(
    impulse: Seq<Word16>,
    target: Seq<Word16>,
    p: int,
    i: int,
    n: int,
)
    requires
        target.len() == 64,
        impulse.len() == 64,
        0 <= i < 64,
        0 <= p < 64,
        0 <= n <= 64 - i,
        -0x3fff_0000 <= target[p].0 * impulse[p - i].0 <= 0x3fff_0000 || p < i,
        forall|j: int| 0 <= j < 64 && j != p ==> #[trigger] target[j] == Word16(0),
    ensures
        mac_run(Word32(1), target, i, impulse, 0, n).0 == if i <= p < i + n {
            1 + 2 * (target[p].0 * impulse[p - i].0)
        } else {
            1
        },
    decreases n,
{
    if n > 0 {
        lemma_lone_target(impulse, target, p, i, n - 1);
        let j = i + n - 1;
        if j != p {
            assert(target[j] == Word16(0));
            assert(0 * impulse[n - 1].0 == 0);
        }
        lemma_l_mac(mac_run(Word32(1), target, i, impulse, 0, n - 1), target[j], impulse[n - 1]);
    }
}

/// A lone sample of the target correlates with every pulse before it, by the
/// impulse response at their distance, and with none behind it.
pub proof fn law_pulses_reach_forward(impulse: Seq<Word16>, target: Seq<Word16>, p: int, i: int)
    requires
        target.len() == 64,
        impulse.len() == 64,
        0 <= i < 64,
        0 <= p < 64,
        -0x3fff_0000 <= target[p].0 * impulse[p - i].0 <= 0x3fff_0000 || p < i,
        forall|j: int| 0 <= j < 64 && j != p ==> #[trigger] target[j] == Word16(0),
    ensures
        i <= p ==> raw_correlation(impulse, target, i).0 == 1 + 2 * (target[p].0 * impulse[p - i].0),
        i > p ==> raw_correlation(impulse, target, i).0 == 1,
{
    lemma_lone_target(impulse, target, p, i, 64 - i);
}

/// Scaling keeps the order: where the target correlates more, so does the
/// scaled correlation, or as much.
pub proof fn law_scaling_keeps_the_order(
    impulse: Seq<Word16>,
    target: Seq<Word16>,
    i: int,
    j: int,
)
    requires
        0 <= i < 64,
        0 <= j < 64,
        raw_correlation(impulse, target, i).0 <= raw_correlation(impulse, target, j).0,
    ensures
        correlation(impulse, target)[i].0 <= correlation(impulse, target)[j].0,
{
    let scale = (norm_l(peak_total(impulse, target, 4)) - 4) as i16;
    lemma_norm_l(peak_total(impulse, target, 4));
    let x = raw_correlation(impulse, target, i);
    let y = raw_correlation(impulse, target, j);
    let a = x.0 as int;
    let b = y.0 as int;
    reveal(crate::fixed_point::spec_l_shl);
    reveal(crate::fixed_point::spec_round);
    reveal(crate::fixed_point::spec_extract_h);
    reveal(crate::fixed_point::spec_l_add);
    if scale >= 0 {
        let p = vstd::arithmetic::power2::pow2(scale as nat) as int;
        assert(a * p <= b * p) by (nonlinear_arith)
            requires
                a <= b,
                0 <= p,
        ;
    } else {
        let p = vstd::arithmetic::power2::pow2((-scale) as nat) as int;
        vstd::arithmetic::power2::lemma_pow2_pos((-scale) as nat);
        assert(a / p <= b / p && -0x8000_0000 <= a / p && b / p <= 0x7fff_ffff) by (nonlinear_arith)
            requires
                -0x8000_0000 <= a <= b <= 0x7fff_ffff,
                1 <= p,
        ;
    }
    assert(l_shl(x, scale).0 <= l_shl(y, scale).0);
}

/// The cross-correlation of two pulses does not depend on their order.
pub proof fn law_crossing_is_mutual(h: Seq<Word16>, a: int, b: int)
    requires
        a != b,
    ensures
        cross_at(h, a, b) == cross_at(h, b, a),
{
}

proof fn lemma_longer_run(h: Seq<Word16>, seed: Word32, m: int, n: int)
    requires
        seed.0 >= 0,
        0 <= m <= n,
    ensures
        0 <= mac_run(seed, h, 0, h, 0, m).0 <= mac_run(seed, h, 0, h, 0, n).0,
    decreases n,
{
    if m < n {
        lemma_longer_run(h, seed, m, n - 1);
        lemma_square_grows(mac_run(seed, h, 0, h, 0, n - 1), h[n - 1]);
    } else {
        lemma_energy_positive(seed, h, 0, m);
    }
}

/// A later pulse has no more energy: less of its response fits the subframe.
pub proof fn law_late_pulses_have_less_energy(h: Seq<Word16>, seed: Word32, p: int, later: int)
    requires
        seed.0 >= 0,
        0 <= p <= later <= 64,
    ensures
        0 <= energy_at(h, seed, later).0 <= energy_at(h, seed, p).0,
{
    lemma_longer_run(h, seed, 64 - later, 64 - p);
    reveal(crate::fixed_point::spec_extract_h);
}

/// The response to a pair is silent before its first pulse, and is an eighth
/// of the signed impulse response from there up to the second.
pub proof fn law_pair_responds_from_its_pulses(
    h: Seq<Word16>,
    sign: Seq<Word16>,
    x: int,
    y: int,
    i: int,
)
    requires
        h.len() == 64,
        0 <= x < y < 64,
        0 <= i < y,
        i >= x ==> -32768 < h[i - x].0,
    ensures
        i < x ==> pair_response(h, sign, x, y)[i] == Word16(0),
        i >= x && sign[x].0 >= 0 ==> -4 <= 8 * pair_response(h, sign, x, y)[i].0 - h[i - x].0 <= 4,
        i >= x && sign[x].0 < 0 ==> -4 <= 8 * pair_response(h, sign, x, y)[i].0 + h[i - x].0 <= 4,
{
    reveal(crate::fixed_point::spec_shr_r);
    reveal(crate::fixed_point::spec_add_s);
    reveal(crate::fixed_point::spec_negate);
    vstd::arithmetic::power2::lemma2_to64();
    let sum = add_s(tap_at(h, sign[x], x, i), tap_at(h, sign[y], y, i));
    let v = sum.0 as int;
    assert(shr_r(sum, 3).0 == (v + 4) / 8);
}

} // verus!
