//! The small filters and measures that the subframe loop uses directly.

use vstd::prelude::*;
use crate::enc::gain_quant::fits_word;
use crate::fixed_point::{
    add_s, div_s, extract_h, l_deposit_h, l_mac, l_msu, l_mult, l_shl, lemma_extract_h_nonnegative,
    lemma_l_mac, lemma_l_shl, lemma_norm_l, lemma_norm_s, lemma_round, lemma_shift_nonnegative,
    lemma_shl, lemma_square_grows, mult, negate, norm_l, norm_s, round, shl, shr, sub_s, Word16,
    Word32,
};
use crate::isf_noise::LP_ORDER;
use crate::math::{
    dot_product12, lemma_dot_exponent, lemma_energy_positive, mac_run, spec_dot_product12,
};
use crate::synthesis::{feedback, lemma_feedback_prefix, L_SUBFR};

verus! {

// ---------------------------------------------------------------------------
// Pre-emphasis
// ---------------------------------------------------------------------------

/// The difference of sample `i` and a share of the one before it.
pub open spec fn difference_sum(x: Seq<Word16>, mu: Word16, memory: Word16, i: int) -> Word32 {
    let before = if i == 0 {
        memory
    } else {
        x[i - 1]
    };
    l_msu(l_deposit_h(x[i]), before, mu)
}

/// A pre-emphasised signal.
pub open spec fn preemph_of(x: Seq<Word16>, mu: Word16, memory: Word16) -> Seq<Word16> {
    Seq::new(x.len(), |i: int| round(difference_sum(x, mu, memory, i)))
}

/// A pre-emphasised signal, doubled.
pub open spec fn preemph2_of(x: Seq<Word16>, mu: Word16, memory: Word16) -> Seq<Word16> {
    Seq::new(x.len(), |i: int| round(l_shl(difference_sum(x, mu, memory, i), 1)))
}

/// Pre-emphasise in place. Descending, because each step reads the sample
/// before it unfiltered.
pub fn preemph(x: &mut [Word16], mu: Word16, memory: &mut Word16)
    requires
        old(x).len() >= 1,
    ensures
        final(x)@ == preemph_of(old(x)@, mu, *old(memory)),
        *final(memory) == old(x)@[old(x)@.len() - 1],
{
    let ghost start = x@;
    let n: usize = x.len();
    let last = x[n - 1];
    let mut i: usize = n - 1;
    while i > 0
        invariant
            i < n,
            n == x@.len(),
            n == start.len(),
            *memory == *old(memory),
            forall|j: int|
                i < j < n ==> #[trigger] x@[j] == round(difference_sum(start, mu, *memory, j)),
            forall|j: int| 0 <= j <= i ==> #[trigger] x@[j] == start[j],
        decreases i,
    {
        x[i] = round(l_msu(l_deposit_h(x[i]), x[i - 1], mu));
        i -= 1;
    }
    x[0] = round(l_msu(l_deposit_h(x[0]), *memory, mu));
    *memory = last;
    assert(x@ =~= preemph_of(start, mu, *old(memory)));
}

/// Pre-emphasise in place and double.
pub fn preemph2(x: &mut [Word16], mu: Word16, memory: &mut Word16)
    requires
        old(x).len() >= 1,
    ensures
        final(x)@ == preemph2_of(old(x)@, mu, *old(memory)),
        *final(memory) == old(x)@[old(x)@.len() - 1],
{
    let ghost start = x@;
    let n: usize = x.len();
    let last = x[n - 1];
    let mut i: usize = n - 1;
    while i > 0
        invariant
            i < n,
            n == x@.len(),
            n == start.len(),
            *memory == *old(memory),
            forall|j: int|
                i < j < n ==> #[trigger] x@[j] == round(
                    l_shl(difference_sum(start, mu, *memory, j), 1),
                ),
            forall|j: int| 0 <= j <= i ==> #[trigger] x@[j] == start[j],
        decreases i,
    {
        x[i] = round(l_shl(l_msu(l_deposit_h(x[i]), x[i - 1], mu), 1));
        i -= 1;
    }
    x[0] = round(l_shl(l_msu(l_deposit_h(x[0]), *memory, mu), 1));
    *memory = last;
    assert(x@ =~= preemph2_of(start, mu, *old(memory)));
}

// ---------------------------------------------------------------------------
// Impulse response
// ---------------------------------------------------------------------------

/// One sample of the weighted synthesis filter's impulse response, from the
/// samples so far.
#[verifier::opaque]
pub open spec fn impulse_sample(numerator: Word16, aq: Seq<Word16>, y: Seq<Word16>) -> Word16 {
    round(l_shl(feedback(l_mult(numerator, Word16(16384)), aq, y, y.len() as int, 16), 3))
}

/// Sixteen zeros and the first `n` samples of the impulse response.
pub open spec fn impulse_run(ap: Seq<Word16>, aq: Seq<Word16>, n: int) -> Seq<Word16>
    decreases n,
{
    if n <= 0 {
        Seq::new(16, |i: int| Word16(0))
    } else {
        let y = impulse_run(ap, aq, n - 1);
        let numerator = if n - 1 < 17 {
            ap[n - 1]
        } else {
            Word16(0)
        };
        y.push(impulse_sample(numerator, aq, y))
    }
}

/// The impulse response of `ap` over `aq`.
pub open spec fn impulse_of(ap: Seq<Word16>, aq: Seq<Word16>) -> Seq<Word16> {
    impulse_run(ap, aq, 64).skip(16)
}

proof fn lemma_impulse_length(ap: Seq<Word16>, aq: Seq<Word16>, n: int)
    requires
        n >= 0,
    ensures
        impulse_run(ap, aq, n).len() == 16 + n,
    decreases n,
{
    if n > 0 {
        lemma_impulse_length(ap, aq, n - 1);
    }
}

/// The impulse response of the weighted synthesis filter.
pub fn impulse_response(ap: &[Word16; 17], aq: &[Word16; 17]) -> (h: [Word16; L_SUBFR])
    ensures
        h@ == impulse_of(ap@, aq@),
{
    let mut chain: [Word16; 80] = [Word16(0); 80];
    let mut h: [Word16; L_SUBFR] = [Word16(0); L_SUBFR];
    for i in 0..L_SUBFR
        invariant
            impulse_run(ap@, aq@, i as int).len() == 16 + i,
            forall|j: int|
                0 <= j < 16 + i ==> #[trigger] chain@[j] == impulse_run(ap@, aq@, i as int)[j],
            forall|j: int| 0 <= j < i ==> #[trigger] h@[j] == chain@[16 + j],
    {
        let ghost run = impulse_run(ap@, aq@, i as int);
        let numerator = if i < 17 {
            ap[i]
        } else {
            Word16(0)
        };
        let seed = l_mult(numerator, Word16(16384));
        let mut acc = seed;
        for j in 1..17usize
            invariant
                i < 64,
                acc == feedback(seed, aq@, chain@, 16 + i, j - 1),
        {
            acc = l_msu(acc, chain[16 + i - j], aq[j]);
        }
        let v = round(l_shl(acc, 3));
        proof {
            reveal(impulse_sample);
            lemma_feedback_prefix(seed, aq@, chain@, run, 16 + i, 16);
            assert(v == impulse_sample(numerator, aq@, run));
        }
        chain[16 + i] = v;
        h[i] = v;
    }
    assert(h@ =~= impulse_of(ap@, aq@));
    h
}

// ---------------------------------------------------------------------------
// Voicing
// ---------------------------------------------------------------------------

/// The energy of a scaled vector at a gain: mantissa and exponent of the
/// adaptive contribution.
pub open spec fn adaptive_energy(excitation: Seq<Word16>, q_exc: i16, gain_pit: Word16) -> (
    Word16,
    int,
) {
    let (energy, exp) = spec_dot_product12(excitation, excitation);
    let product = l_mult(gain_pit, gain_pit);
    let norm = norm_l(product);
    (
        mult(extract_h(energy), extract_h(l_shl(product, norm))),
        exp - 2 * q_exc - norm - 10,
    )
}

/// The energy of the codeword at its gain.
pub open spec fn code_energy(code: Seq<Word16>, gain_code: Word16) -> (Word16, int) {
    let (energy, exp) = spec_dot_product12(code, code);
    let norm = norm_s(gain_code);
    let gain = shl(gain_code, norm);
    (mult(extract_h(energy), mult(gain, gain)), exp - 2 * norm)
}

/// Two energies on a common exponent, with a bit of headroom.
pub open spec fn levelled_energies(a: (Word16, int), b: (Word16, int)) -> (Word16, Word16) {
    let i = a.1 - b.1;
    if i >= 0 {
        (shr(a.0, 1), shr(b.0, (i + 1) as i16))
    } else {
        (shr(a.0, (1 - i) as i16), shr(b.0, 1))
    }
}

/// The voicing of a subframe: from minus one, wholly unvoiced, to one, Q15.
pub open spec fn voicing(
    excitation: Seq<Word16>,
    q_exc: i16,
    gain_pit: Word16,
    code: Seq<Word16>,
    gain_code: Word16,
) -> Word16 {
    let (e1, e2) = levelled_energies(
        adaptive_energy(excitation, q_exc, gain_pit),
        code_energy(code, gain_code),
    );
    let difference = sub_s(e1, e2);
    let total = add_s(add_s(e1, e2), Word16(1));
    if difference.0 >= 0 {
        div_s(difference, total)
    } else {
        negate(div_s(negate(difference), total))
    }
}

/// A product of words that are not negative is not negative.
proof fn lemma_product(a: Word16, b: Word16)
    requires
        a.0 >= 0 && b.0 >= 0 || a == b,
    ensures
        mult(a, b).0 >= 0,
{
    reveal(crate::fixed_point::spec_mult);
    let x = a.0 as int;
    let y = b.0 as int;
    assert(x * y >= 0) by (nonlinear_arith)
        requires
            x >= 0 && y >= 0 || x == y,
    ;
}

/// A word shifted down by at least one place is at most half scale.
proof fn lemma_halved(a: Word16, n: i16)
    requires
        a.0 >= 0,
        n >= 1,
    ensures
        0 <= shr(a, n).0 <= 16383,
{
    reveal(crate::fixed_point::spec_shr);
    let p = vstd::arithmetic::power2::pow2(n as nat) as int;
    vstd::arithmetic::power2::lemma_pow2_unfold(n as nat);
    vstd::arithmetic::power2::lemma_pow2_pos((n - 1) as nat);
    let v = a.0 as int;
    assert(0 <= v / p <= v / 2) by (nonlinear_arith)
        requires
            0 <= v,
            p >= 2,
    ;
}

/// Every sum that levelling the two energies forms out of their exponents fits
/// a word.
pub open spec fn levels_fit(
    excitation: Seq<Word16>,
    q_exc: i16,
    gain_pit: Word16,
    code: Seq<Word16>,
    gain_code: Word16,
) -> bool {
    let exp = spec_dot_product12(excitation, excitation).1;
    let norm = norm_l(l_mult(gain_pit, gain_pit));
    let i = adaptive_energy(excitation, q_exc, gain_pit).1 - code_energy(code, gain_code).1;
    &&& fits_word(2 * q_exc)
    &&& fits_word(exp - 2 * q_exc)
    &&& fits_word(exp - 2 * q_exc - norm)
    &&& fits_word(exp - 2 * q_exc - norm - 10)
    &&& fits_word(i)
    &&& if i >= 0 {
        fits_word(i + 1)
    } else {
        fits_word(1 - i)
    }
}

/// A scaling within eight thousand either way, far beyond any that a signal
/// has, leaves room for every sum.
pub proof fn lemma_levels_fit(
    excitation: Seq<Word16>,
    q_exc: i16,
    gain_pit: Word16,
    code: Seq<Word16>,
    gain_code: Word16,
)
    requires
        -8000 <= q_exc <= 8000,
    ensures
        levels_fit(excitation, q_exc, gain_pit, code, gain_code),
{
    lemma_dot_exponent(excitation, excitation);
    lemma_dot_exponent(code, code);
    crate::fixed_point::lemma_norm_l(l_mult(gain_pit, gain_pit));
    crate::fixed_point::lemma_norm_s(gain_code);
}

/// The voicing of a subframe.
pub fn voice_factor(
    excitation: &[Word16; L_SUBFR],
    q_exc: i16,
    gain_pit: Word16,
    code: &[Word16; L_SUBFR],
    gain_code: Word16,
) -> (r: Word16)
    requires
        levels_fit(excitation@, q_exc, gain_pit, code@, gain_code),
    ensures
        r == voicing(excitation@, q_exc, gain_pit, code@, gain_code),
{
    let (energy, exp) = dot_product12(excitation, excitation);
    let product = l_mult(gain_pit, gain_pit);
    let norm: i16 = norm_l(product);
    let share = extract_h(l_shl(product, norm));
    let ener1 = mult(extract_h(energy), share);
    proof {
        crate::fixed_point::lemma_norm_l(product);
        crate::fixed_point::lemma_extract_h_nonnegative(energy);
        lemma_square(gain_pit);
        crate::fixed_point::lemma_shift_nonnegative(product, norm);
        crate::fixed_point::lemma_extract_h_nonnegative(l_shl(product, norm));
        lemma_product(extract_h(energy), share);
    }
    let exp1: i16 = exp - 2 * q_exc - norm - 10;
    let (energy2, exp2) = dot_product12(code, code);
    let norm2: i16 = norm_s(gain_code);
    let gain = shl(gain_code, norm2);
    let squared = mult(gain, gain);
    let ener2 = mult(extract_h(energy2), squared);
    proof {
        crate::fixed_point::lemma_norm_s(gain_code);
        crate::fixed_point::lemma_extract_h_nonnegative(energy2);
        lemma_product(gain, gain);
        lemma_product(extract_h(energy2), squared);
    }
    let exp2: i16 = exp2 - 2 * norm2;
    let i: i16 = exp1 - exp2;
    let (e1, e2) = if i >= 0 {
        proof {
            lemma_halved(ener1, 1);
            lemma_halved(ener2, (i + 1) as i16);
        }
        (shr(ener1, 1), shr(ener2, i + 1))
    } else {
        proof {
            lemma_halved(ener1, (1 - i) as i16);
            lemma_halved(ener2, 1);
        }
        (shr(ener1, 1 - i), shr(ener2, 1))
    };
    proof {
        reveal(crate::fixed_point::spec_sub_s);
        reveal(crate::fixed_point::spec_add_s);
        reveal(crate::fixed_point::spec_negate);
    }
    let difference = sub_s(e1, e2);
    // The one keeps the denominator from vanishing in silence.
    let total = add_s(add_s(e1, e2), Word16(1));
    if difference.0 >= 0 {
        div_s(difference, total)
    } else {
        negate(div_s(negate(difference), total))
    }
}

/// A doubled square is not negative.
proof fn lemma_square(a: Word16)
    ensures
        l_mult(a, a).0 >= 0,
{
    reveal(crate::fixed_point::spec_l_mult);
    let x = a.0 as int;
    assert(x * x >= 0) by (nonlinear_arith);
}

// ---------------------------------------------------------------------------
// Stability
// ---------------------------------------------------------------------------

/// How far the first `n` frequencies moved, squared.
pub open spec fn movement(now: Seq<Word16>, before: Seq<Word16>, n: int) -> Word32
    decreases n,
{
    if n <= 0 {
        Word32(0)
    } else {
        let d = sub_s(now[n - 1], before[n - 1]);
        l_mac(movement(now, before, n - 1), d, d)
    }
}

/// The stability of a spectrum against the last frame's, Q15, not below zero.
pub open spec fn stability_of(now: Seq<Word16>, before: Seq<Word16>) -> Word16 {
    let moved = mult(extract_h(l_shl(movement(now, before, 15), 8)), Word16(26214));
    let stab = shl(sub_s(Word16(20480), moved), 1);
    if stab.0 < 0 {
        Word16(0)
    } else {
        stab
    }
}

/// How far this frame's frequencies moved from the last. The last one carries
/// half scale and does not enter.
pub fn stability(now: &[Word16; LP_ORDER], before: &[Word16; LP_ORDER]) -> (stab: Word16)
    ensures
        stab == stability_of(now@, before@),
{
    let mut acc = Word32(0);
    for i in 0..15usize
        invariant
            acc == movement(now@, before@, i as int),
    {
        let d = sub_s(now[i], before[i]);
        acc = l_mac(acc, d, d);
    }
    let moved = mult(extract_h(l_shl(acc, 8)), Word16(26214));
    let stab = shl(sub_s(Word16(20480), moved), 1);
    if stab.0 < 0 {
        Word16(0)
    } else {
        stab
    }
}

/// A spectrum that does not move is wholly stable.
pub proof fn law_still_spectrum_is_stable(isf: Seq<Word16>)
    requires
        isf.len() == 16,
    ensures
        stability_of(isf, isf) == Word16(32767),
{
    lemma_no_movement(isf, 15);
    reveal(crate::fixed_point::spec_l_shl);
    reveal(crate::fixed_point::spec_extract_h);
    reveal(crate::fixed_point::spec_mult);
    reveal(crate::fixed_point::spec_sub_s);
    reveal(crate::fixed_point::spec_shl);
    vstd::arithmetic::power2::lemma2_to64();
    assert(0 * 256 == 0int);
    assert(0 * 26214 == 0int);
    assert(20480 * 2 == 40960int);
}

proof fn lemma_no_movement(isf: Seq<Word16>, n: int)
    ensures
        movement(isf, isf, n) == Word32(0),
    decreases n,
{
    reveal(crate::fixed_point::spec_sub_s);
    reveal(crate::fixed_point::spec_l_mac);
    reveal(crate::fixed_point::spec_l_mult);
    reveal(crate::fixed_point::spec_l_add);
    if n > 0 {
        lemma_no_movement(isf, n - 1);
        assert(sub_s(isf[n - 1], isf[n - 1]) == Word16(0));
        assert(0 * 0 == 0int);
        assert(l_mac(Word32(0), Word16(0), Word16(0)) == Word32(0));
    }
}

proof fn lemma_movement(now: Seq<Word16>, before: Seq<Word16>, n: int)
    ensures
        movement(now, before, n).0 >= 0,
    decreases n,
{
    if n > 0 {
        lemma_movement(now, before, n - 1);
        lemma_square_grows(movement(now, before, n - 1), sub_s(now[n - 1], before[n - 1]));
    }
}

/// The further a spectrum moved, the less stable it is.
pub proof fn law_movement_lowers_the_stability(
    now: Seq<Word16>,
    before: Seq<Word16>,
    moved: Seq<Word16>,
    from: Seq<Word16>,
)
    requires
        movement(now, before, 15).0 <= movement(moved, from, 15).0,
    ensures
        stability_of(now, before).0 >= stability_of(moved, from).0 >= 0,
{
    lemma_movement(now, before, 15);
    lemma_movement(moved, from, 15);
    reveal(crate::fixed_point::spec_extract_h);
    reveal(crate::fixed_point::spec_mult);
    reveal(crate::fixed_point::spec_sub_s);
    vstd::arithmetic::power2::lemma2_to64();
    let x = movement(now, before, 15);
    let y = movement(moved, from, 15);
    lemma_l_shl(x, 8, 256);
    lemma_l_shl(y, 8, 256);
    assert(l_shl(x, 8).0 <= l_shl(y, 8).0);
    let a = extract_h(l_shl(x, 8));
    let b = extract_h(l_shl(y, 8));
    assert(a.0 <= b.0);
    assert(Word16(26214).0 == 26214);
    assert(mult(a, Word16(26214)).0 <= mult(b, Word16(26214)).0);
    lemma_shl(sub_s(Word16(20480), mult(a, Word16(26214))), 1, 2);
    lemma_shl(sub_s(Word16(20480), mult(b, Word16(26214))), 1, 2);
}

/// Every frequency's move counts, whichever way it went: one more frequency
/// never lowers the movement, and swapping the two spectra changes nothing.
pub proof fn law_movement_counts_both_ways(now: Seq<Word16>, before: Seq<Word16>, n: int)
    requires
        forall|i: int| 0 <= i < n ==> (#[trigger] now[i]).0 >= 0,
        forall|i: int| 0 <= i < n ==> (#[trigger] before[i]).0 >= 0,
    ensures
        movement(now, before, n) == movement(before, now, n),
        n > 0 ==> movement(now, before, n).0 >= movement(now, before, n - 1).0,
    decreases n,
{
    if n > 0 {
        law_movement_counts_both_ways(now, before, n - 1);
        reveal(crate::fixed_point::spec_sub_s);
        let d = sub_s(now[n - 1], before[n - 1]);
        let e = sub_s(before[n - 1], now[n - 1]);
        lemma_movement(now, before, n - 1);
        lemma_square_grows(movement(now, before, n - 1), d);
        assert(d.0 == -e.0);
        assert(d.0 * d.0 == e.0 * e.0) by (nonlinear_arith)
            requires
                d.0 == -e.0,
        ;
        reveal(crate::fixed_point::spec_l_mac);
        reveal(crate::fixed_point::spec_l_mult);
    }
}

/// A pre-emphasised sample is the sample less its share of the one before it.
pub proof fn law_emphasis_takes_the_share_out(
    x: Seq<Word16>,
    mu: Word16,
    memory: Word16,
    i: int,
)
    requires
        0 <= i < x.len(),
        -16384 < x[i].0 < 16384,
        i > 0 ==> -16384 < x[i - 1].0 < 16384,
        -16384 < memory.0 < 16384,
    ensures
        ({
            let before = if i == 0 {
                memory.0
            } else {
                x[i - 1].0
            };
            let exact = 32768 * x[i].0 - mu.0 * before;
            -16384 <= 32768 * preemph_of(x, mu, memory)[i].0 - exact <= 16384
        }),
{
    reveal(crate::fixed_point::spec_l_deposit_h);
    let before = if i == 0 {
        memory
    } else {
        x[i - 1]
    };
    let b = before.0 as int;
    let m = mu.0 as int;
    assert(-0x2000_0000 <= b * m <= 0x2000_0000 && b * m == m * b) by (nonlinear_arith)
        requires
            -16384 < b < 16384,
            -32768 <= m <= 32767,
    ;
    lemma_l_mac(l_deposit_h(x[i]), before, mu);
    lemma_round(difference_sum(x, mu, memory, i));
}

/// With no gain the codeword has no energy, and the subframe counts as voiced;
/// with no pitch gain it does not.
pub proof fn law_voicing_follows_the_stronger(
    excitation: Seq<Word16>,
    q_exc: i16,
    gain_pit: Word16,
    code: Seq<Word16>,
    gain_code: Word16,
)
    requires
        levels_fit(excitation, q_exc, gain_pit, code, gain_code),
        excitation.len() == 64,
        code.len() == 64,
    ensures
        gain_code.0 == 0 ==> voicing(excitation, q_exc, gain_pit, code, gain_code).0 >= 0,
        gain_pit.0 == 0 ==> voicing(excitation, q_exc, gain_pit, code, gain_code).0 <= 0,
{
    reveal(crate::fixed_point::spec_mult);
    reveal(crate::fixed_point::spec_sub_s);
    reveal(crate::fixed_point::spec_add_s);
    reveal(crate::fixed_point::spec_negate);
    reveal(crate::fixed_point::spec_div_s);
    reveal(crate::fixed_point::spec_l_mult);
    reveal(crate::fixed_point::spec_extract_h);
    vstd::arithmetic::power2::lemma2_to64();
    let a = adaptive_energy(excitation, q_exc, gain_pit);
    let b = code_energy(code, gain_code);
    let (x, _) = spec_dot_product12(excitation, excitation);
    let (y, _) = spec_dot_product12(code, code);
    lemma_energy_positive(Word32(1), excitation, 0, 64);
    lemma_norm_l(mac_run(Word32(1), excitation, 0, excitation, 0, 64));
    lemma_energy_positive(Word32(1), code, 0, 64);
    lemma_norm_l(mac_run(Word32(1), code, 0, code, 0, 64));
    lemma_extract_h_nonnegative(x);
    lemma_extract_h_nonnegative(y);
    let product = l_mult(gain_pit, gain_pit);
    lemma_square(gain_pit);
    lemma_norm_l(product);
    lemma_shift_nonnegative(product, norm_l(product));
    lemma_extract_h_nonnegative(l_shl(product, norm_l(product)));
    lemma_product(extract_h(x), extract_h(l_shl(product, norm_l(product))));
    let gain = shl(gain_code, norm_s(gain_code));
    lemma_product(gain, gain);
    lemma_product(extract_h(y), mult(gain, gain));
    let i = a.1 - b.1;
    if i >= 0 {
        lemma_halved(a.0, 1);
        lemma_halved(b.0, (i + 1) as i16);
    } else {
        lemma_halved(a.0, (1 - i) as i16);
        lemma_halved(b.0, 1);
    }
    if gain_code.0 == 0 {
        lemma_norm_s(gain_code);
        reveal(crate::fixed_point::spec_shl);
        assert(0 * vstd::arithmetic::power2::pow2(norm_s(gain_code) as nat) == 0);
        assert(shl(gain_code, norm_s(gain_code)) == Word16(0));
        assert(0 * 0 == 0int);
        assert(mult(Word16(0), Word16(0)) == Word16(0));
        assert(extract_h(y).0 * 0 == 0);
        assert(b.0 == Word16(0));
        lemma_nothing(if i >= 0 {
            (i + 1) as i16
        } else {
            1
        });
    }
    if gain_pit.0 == 0 {
        assert(0 * 0 == 0int);
        assert(l_mult(gain_pit, gain_pit) == Word32(0));
        lemma_norm_l(Word32(0));
        reveal(crate::fixed_point::spec_l_shl);
        assert(0 * vstd::arithmetic::power2::pow2(norm_l(Word32(0)) as nat) == 0);
        assert(l_shl(Word32(0), norm_l(Word32(0))) == Word32(0));
        assert(extract_h(x).0 * 0 == 0);
        assert(a.0 == Word16(0));
        lemma_nothing(if i >= 0 {
            1
        } else {
            (1 - i) as i16
        });
    }
    let (e1, e2) = levelled_energies(a, b);
    let difference = sub_s(e1, e2);
    let total = add_s(add_s(e1, e2), Word16(1));
    assert(0 <= e1.0 <= 16383 && 0 <= e2.0 <= 16383);
    let d = if difference.0 >= 0 {
        difference.0 as int
    } else {
        -difference.0
    };
    let t = total.0 as int;
    assert(0 <= d < t);
    assert(0 <= (d * 32768) / t < 32768) by (nonlinear_arith)
        requires
            0 <= d < t,
    ;
}

proof fn lemma_nothing(n: i16)
    requires
        n >= 0,
    ensures
        shr(Word16(0), n) == Word16(0),
{
    reveal(crate::fixed_point::spec_shr);
    let p = vstd::arithmetic::power2::pow2(n as nat) as int;
    vstd::arithmetic::power2::lemma_pow2_pos(n as nat);
    assert(0int / p == 0) by (nonlinear_arith)
        requires
            p > 0,
    ;
}

proof fn lemma_silent_feedback(seed: Word32, aq: Seq<Word16>, y: Seq<Word16>, at: int, n: int)
    requires
        0 <= n < aq.len(),
        n <= 16,
        forall|i: int| 1 <= i < aq.len() ==> #[trigger] aq[i] == Word16(0),
    ensures
        feedback(seed, aq, y, at, n) == seed,
    decreases n,
{
    if n > 0 {
        lemma_silent_feedback(seed, aq, y, at, n - 1);
        assert(y[at - n].0 * 0 == 0);
        lemma_l_mac(seed, y[at - n], aq[n]);
    }
}

proof fn lemma_impulse_of_numerator(ap: Seq<Word16>, aq: Seq<Word16>, n: int, i: int)
    requires
        ap.len() == 17,
        aq.len() == 17,
        0 <= i < n <= 64,
        forall|k: int| 0 <= k < 17 ==> -8192 <= (#[trigger] ap[k]).0 <= 8191,
        forall|k: int| 1 <= k < 17 ==> #[trigger] aq[k] == Word16(0),
    ensures
        impulse_run(ap, aq, n).len() == 16 + n,
        impulse_run(ap, aq, n)[16 + i].0 == if i < 17 {
            4 * ap[i].0
        } else {
            0
        },
    decreases n,
{
    lemma_impulse_length(ap, aq, n - 1);
    let y = impulse_run(ap, aq, n - 1);
    let numerator = if n - 1 < 17 {
        ap[n - 1]
    } else {
        Word16(0)
    };
    if i < n - 1 {
        lemma_impulse_of_numerator(ap, aq, n - 1, i);
    } else {
        reveal(impulse_sample);
        vstd::arithmetic::power2::lemma2_to64();
        assert(-8192 <= numerator.0 <= 8191);
        lemma_l_mac(Word32(0), numerator, Word16(16384));
        let start = l_mult(numerator, Word16(16384));
        assert(start.0 == 32768 * numerator.0);
        lemma_silent_feedback(start, aq, y, y.len() as int, 16);
        lemma_l_shl(start, 3, 8);
        lemma_round(l_shl(start, 3));
    }
}

/// Over a predictor that predicts nothing, the impulse response is the
/// numerator, at four times its value, and silence behind it.
pub proof fn law_impulse_begins_with_the_numerator(ap: Seq<Word16>, aq: Seq<Word16>, i: int)
    requires
        ap.len() == 17,
        aq.len() == 17,
        0 <= i < 64,
        forall|k: int| 0 <= k < 17 ==> -8192 <= (#[trigger] ap[k]).0 <= 8191,
        forall|k: int| 1 <= k < 17 ==> #[trigger] aq[k] == Word16(0),
    ensures
        i < 17 ==> impulse_of(ap, aq)[i].0 == 4 * ap[i].0,
        i >= 17 ==> impulse_of(ap, aq)[i].0 == 0,
{
    lemma_impulse_of_numerator(ap, aq, 64, i);
}

} // verus!
