//! The Levinson-Durbin recursion, in double precision.

use vstd::prelude::*;
use crate::fixed_point::{
    abs_s, add_s, div_32, l_abs, l_add, l_comp, l_deposit_h, l_extract, l_negate, l_shl, l_shr,
    l_sub, law_double_products_round_down, law_splits_keep_the_number, lemma_l_mac, lemma_l_shr,
    lemma_norm_l, mpy_32, norm_l, round, wide, Word16, Word32,
};
use crate::isf_noise::LP_ORDER;
use crate::lp::Autocorrelation;

verus! {

/// A reflection coefficient above this magnitude makes the filter unstable.
pub const UNSTABLE: i16 = 32750;

/// The recursion's carried state.
///
/// Only ever read on the unstable path, where the previous frame's filter is
/// emitted again.
#[derive(Clone, Debug, PartialEq, Eq)]
pub struct LevinsonMemory {
    /// The previous frame's predictor but for its leading one, Q12.
    pub previous_a: [Word16; LP_ORDER],
    /// The previous frame's first two reflection coefficients, Q15.
    pub previous_rc: [Word16; 2],
}

impl LevinsonMemory {
    /// Cold-start state: all zero.
    #[must_use]
    pub fn new() -> (mem: Self)
        ensures
            mem.previous_a@ == Seq::new(16, |i: int| Word16(0)),
            mem.previous_rc@ == Seq::new(2, |i: int| Word16(0)),
    {
        let mem = LevinsonMemory {
            previous_a: [Word16(0); LP_ORDER],
            previous_rc: [Word16(0); 2],
        };
        assert(mem.previous_a@ =~= Seq::new(16, |i: int| Word16(0)));
        assert(mem.previous_rc@ =~= Seq::new(2, |i: int| Word16(0)));
        mem
    }
}

impl Default for LevinsonMemory {
    fn default() -> (mem: Self)
        ensures
            mem.previous_a@ == Seq::new(16, |i: int| Word16(0)),
            mem.previous_rc@ == Seq::new(2, |i: int| Word16(0)),
    {
        LevinsonMemory::new()
    }
}

/// The recursion after some order.
pub struct Recursion {
    /// The working coefficients, Q27, upper halves.
    pub hi: Seq<Word16>,
    /// The working coefficients, lower halves.
    pub lo: Seq<Word16>,
    /// The prediction gain, normalised.
    pub gain: (Word16, Word16),
    /// How far the gain was shifted up.
    pub gain_exp: i16,
    /// The reflection coefficients, Q15.
    pub rc: Seq<Word16>,
    /// Whether every order so far was stable.
    pub stable: bool,
}

/// `gain * (1 - k^2)`, renormalised, with its exponent.
#[verifier::opaque]
pub open spec fn shrunk_gain(gain: (Word16, Word16), k: (Word16, Word16)) -> (Word16, Word16, i16) {
    let squared = l_abs(mpy_32(k.0, k.1, k.0, k.1));
    let (hi, lo) = l_extract(l_sub(Word32(0x7fff_ffff), squared));
    let product = mpy_32(gain.0, gain.1, hi, lo);
    let exp = norm_l(product);
    let (hi, lo) = l_extract(l_shl(product, exp));
    (hi, lo, exp)
}

/// A quotient of magnitudes with the sign opposite to `num`'s.
#[verifier::opaque]
pub open spec fn opposed_quotient(num: Word32, den: (Word16, Word16)) -> Word32 {
    let k = div_32(l_abs(num), den.0, den.1);
    if num.0 > 0 {
        l_negate(k)
    } else {
        k
    }
}

/// The recursion after order 1.
pub open spec fn order_one(high: Seq<Word16>, low: Seq<Word16>) -> Recursion {
    let k = opposed_quotient(l_comp(high[1], low[1]), (high[0], low[0]));
    let gain = shrunk_gain((high[0], low[0]), l_extract(k));
    let zeros = Seq::new(17, |i: int| Word16(0));
    Recursion {
        hi: zeros.update(1, l_extract(l_shr(k, 4)).0),
        lo: zeros.update(1, l_extract(l_shr(k, 4)).1),
        gain: (gain.0, gain.1),
        gain_exp: gain.2,
        rc: Seq::new(16, |i: int| Word16(0)).update(0, l_extract(k).0),
        stable: true,
    }
}

/// The sum of products that order `i` is driven by, up to lag `n`.
pub open spec fn driving_sum(
    high: Seq<Word16>,
    low: Seq<Word16>,
    s: Recursion,
    i: int,
    n: int,
) -> Word32
    decreases n,
{
    if n <= 0 {
        Word32(0)
    } else {
        l_add(
            driving_sum(high, low, s, i, n - 1),
            mpy_32(high[n], low[n], s.hi[i - n], s.lo[i - n]),
        )
    }
}

/// The reflection coefficient of order `i`.
pub open spec fn reflection(high: Seq<Word16>, low: Seq<Word16>, s: Recursion, i: int) -> Word32 {
    let error = l_add(l_shl(driving_sum(high, low, s, i, i - 1), 4), l_comp(high[i], low[i]));
    l_shl(opposed_quotient(error, s.gain), s.gain_exp)
}

/// Coefficient `j` after order `i`.
pub open spec fn next_tap(s: Recursion, k: Word32, i: int, j: int) -> (Word16, Word16) {
    if 1 <= j < i {
        let (k_hi, k_lo) = l_extract(k);
        l_extract(l_add(mpy_32(k_hi, k_lo, s.hi[i - j], s.lo[i - j]), l_comp(s.hi[j], s.lo[j])))
    } else if j == i {
        l_extract(l_shr(k, 4))
    } else {
        (s.hi[j], s.lo[j])
    }
}

/// The recursion after order `i`, from the order before it.
pub open spec fn next_order(
    high: Seq<Word16>,
    low: Seq<Word16>,
    s: Recursion,
    i: int,
) -> Recursion {
    let k = reflection(high, low, s, i);
    let rc = s.rc.update(i - 1, l_extract(k).0);
    if abs_s(l_extract(k).0).0 > UNSTABLE {
        Recursion { rc, stable: false, ..s }
    } else {
        let gain = shrunk_gain(s.gain, l_extract(k));
        Recursion {
            hi: Seq::new(17, |j: int| next_tap(s, k, i, j).0),
            lo: Seq::new(17, |j: int| next_tap(s, k, i, j).1),
            gain: (gain.0, gain.1),
            gain_exp: add_s(Word16(s.gain_exp), Word16(gain.2)).0,
            rc,
            stable: true,
        }
    }
}

/// The recursion after order `i`; it stops at the first unstable order.
pub open spec fn recursion(high: Seq<Word16>, low: Seq<Word16>, i: int) -> Recursion
    decreases i,
{
    if i <= 1 {
        order_one(high, low)
    } else {
        let s = recursion(high, low, i - 1);
        if s.stable {
            next_order(high, low, s, i)
        } else {
            s
        }
    }
}

/// Tap `i` of a finished recursion, Q12.
pub open spec fn finished_tap(s: Recursion, i: int) -> Word16 {
    round(l_shl(l_comp(s.hi[i], s.lo[i]), 1))
}

/// The predictor of a finished recursion: the previous one where it was
/// unstable.
pub open spec fn predictor(s: Recursion, previous_a: Seq<Word16>) -> Seq<Word16> {
    Seq::new(
        17,
        |i: int|
            if i == 0 {
                Word16(4096)
            } else if s.stable {
                finished_tap(s, i)
            } else {
                previous_a[i - 1]
            },
    )
}

/// The reflection coefficients of a finished recursion: where it was unstable,
/// the first two are the previous frame's.
pub open spec fn reflections(s: Recursion, previous_rc: Seq<Word16>) -> Seq<Word16> {
    if s.stable {
        s.rc
    } else {
        s.rc.update(0, previous_rc[0]).update(1, previous_rc[1])
    }
}

/// Whether the equations can be solved: the energy is normalised, and the
/// first order leaves a gain that is.
pub open spec fn solvable(high: Seq<Word16>, low: Seq<Word16>) -> bool {
    &&& high[0].0 >= 0x3fff
    &&& order_one(high, low).gain.0.0 >= 0x3fff
    &&& order_one(high, low).gain.1.0 >= 0
}

/// A stable order leaves a normalised gain.
proof fn lemma_gain(gain: (Word16, Word16), k: Word32)
    requires
        gain.0.0 >= 0x3fff,
        gain.1.0 >= 0,
        -32766 <= l_extract(k).0.0 <= 32766,
    ensures
        shrunk_gain(gain, l_extract(k)).0.0 >= 0x4000,
        shrunk_gain(gain, l_extract(k)).1.0 >= 0,
{
    reveal(shrunk_gain);
    reveal(crate::fixed_point::spec_l_extract);
    reveal(crate::fixed_point::spec_mpy_32);
    reveal(crate::fixed_point::spec_l_mac);
    reveal(crate::fixed_point::spec_l_mult);
    reveal(crate::fixed_point::spec_mult);
    reveal(crate::fixed_point::spec_l_add);
    reveal(crate::fixed_point::spec_l_sub);
    reveal(crate::fixed_point::spec_l_abs);
    let (kh, kl) = l_extract(k);
    let h = kh.0 as int;
    let l = kl.0 as int;
    assert(0 <= l < 32768);
    assert(0 <= h * h <= 1073610756) by (nonlinear_arith)
        requires
            -32766 <= h <= 32766,
    ;
    assert(-32767 <= (h * l) / 32768 <= 32766) by (nonlinear_arith)
        requires
            -32766 <= h <= 32766,
            0 <= l < 32768,
    ;
    assert(l * h == h * l) by (nonlinear_arith);
    let m = crate::fixed_point::mult(kh, kl);
    assert(-32767 <= m.0 <= 32766);
    assert(crate::fixed_point::mult(kl, kh) == m);
    let squared = l_abs(mpy_32(kh, kl, kh, kl));
    assert(0 <= squared.0 <= 2147352576);
    let rest = l_sub(Word32(0x7fff_ffff), squared);
    assert(rest.0 >= 131071);
    let (hi, lo) = l_extract(rest);
    assert(hi.0 >= 1 && lo.0 >= 0);
    let a = gain.0.0 as int;
    let b = gain.1.0 as int;
    let c = hi.0 as int;
    let d = lo.0 as int;
    assert(a * c >= 1 && (a * d) / 32768 >= 0 && (b * c) / 32768 >= 0) by (nonlinear_arith)
        requires
            a >= 0x3fff,
            b >= 0,
            c >= 1,
            d >= 0,
    ;
    assert((a * d) / 32768 <= 32767 && (b * c) / 32768 <= 32767) by (nonlinear_arith)
        requires
            0 <= a <= 32767,
            0 <= b <= 32767,
            0 <= c <= 32767,
            0 <= d <= 32767,
    ;
    let product = mpy_32(gain.0, gain.1, hi, lo);
    assert(product.0 > 0);
    lemma_norm_l(product);
}

/// A first coefficient away from one makes the equations solvable.
pub proof fn lemma_first_gain(high: Seq<Word16>, low: Seq<Word16>)
    requires
        high[0].0 >= 0x3fff,
        low[0].0 >= 0,
        ({
            let k = opposed_quotient(l_comp(high[1], low[1]), (high[0], low[0]));
            -32766 <= l_extract(k).0.0 <= 32766
        }),
    ensures
        solvable(high, low),
{
    lemma_gain(
        (high[0], low[0]),
        opposed_quotient(l_comp(high[1], low[1]), (high[0], low[0])),
    );
}

/// `gain * (1 - k^2)`, renormalised, as `(high, low, exponent)`.
///
/// The magnitude matters: the product drops the low halves' share, so near
/// one it can come out slightly negative.
fn prediction_gain(gain_hi: Word16, gain_lo: Word16, k_hi: Word16, k_lo: Word16) -> (r: (
    Word16,
    Word16,
    i16,
))
    ensures
        r == shrunk_gain((gain_hi, gain_lo), (k_hi, k_lo)),
{
    proof {
        reveal(shrunk_gain);
    }
    let squared = l_abs(mpy_32(k_hi, k_lo, k_hi, k_lo));
    let (hi, lo) = l_extract(l_sub(Word32(0x7fff_ffff), squared));
    let product = mpy_32(gain_hi, gain_lo, hi, lo);
    let exp: i16 = norm_l(product);
    let (hi, lo) = l_extract(l_shl(product, exp));
    (hi, lo, exp)
}

/// Divide magnitudes and give the result the sign opposite to `num`'s.
fn oppose(num: Word32, hi: Word16, lo: Word16) -> (k: Word32)
    requires
        hi.0 >= 0x3fff,
    ensures
        k == opposed_quotient(num, (hi, lo)),
{
    proof {
        reveal(opposed_quotient);
    }
    let k = div_32(l_abs(num), hi, lo);
    if num.0 > 0 {
        l_negate(k)
    } else {
        k
    }
}

/// A rejected order keeps its coefficient's high word out of the range that
/// the gain needs; an accepted one does not.
proof fn lemma_accepted(k_hi: Word16)
    requires
        abs_s(k_hi).0 <= UNSTABLE,
    ensures
        -32766 <= k_hi.0 <= 32766,
{
    reveal(crate::fixed_point::spec_abs_s);
}

/// Solve the normal equations for the order-16 predictor.
///
/// Returns seventeen Q12 coefficients that start with one, and sixteen Q15
/// reflection coefficients. Where a reflection coefficient reaches magnitude
/// one the previous frame's coefficients are returned and `mem` is left alone,
/// so a run of unstable frames all emit the same last good filter.
pub fn levinson(r: &Autocorrelation, mem: &mut LevinsonMemory) -> (out: (
    [Word16; 17],
    [Word16; LP_ORDER],
))
    requires
        solvable(r.high@, r.low@),
    ensures
        ({
            let s = recursion(r.high@, r.low@, 16);
            &&& out.0@ == predictor(s, old(mem).previous_a@)
            &&& out.1@ == reflections(s, old(mem).previous_rc@)
            &&& !s.stable ==> *final(mem) == *old(mem)
        }),
        out.0@[0] == Word16(4096),
        final(mem).previous_a@ == out.0@.subrange(1, 17),
        final(mem).previous_rc@ == out.1@.subrange(0, 2),
{
    let ghost high = r.high@;
    let ghost low = r.low@;
    let mut a: [Word16; 17] = [Word16(0); 17];
    a[0] = Word16(4096);
    let mut rc: [Word16; LP_ORDER] = [Word16(0); LP_ORDER];
    let mut a_hi: [Word16; 17] = [Word16(0); 17];
    let mut a_lo: [Word16; 17] = [Word16(0); 17];
    let k = oppose(l_comp(r.high[1], r.low[1]), r.high[0], r.low[0]);
    let (k_hi, k_lo) = l_extract(k);
    rc[0] = k_hi;
    let (hi, lo) = l_extract(l_shr(k, 4));
    a_hi[1] = hi;
    a_lo[1] = lo;
    let (mut gain_hi, mut gain_lo, mut gain_exp) = prediction_gain(r.high[0], r.low[0], k_hi, k_lo);
    assert(a_hi@ =~= order_one(high, low).hi);
    assert(a_lo@ =~= order_one(high, low).lo);
    assert(rc@ =~= order_one(high, low).rc);
    for i in 2..17usize
        invariant
            high == r.high@,
            low == r.low@,
            *mem == *old(mem),
            a@[0] == Word16(4096),
            gain_hi.0 >= 0x3fff,
            gain_lo.0 >= 0,
            recursion(high, low, i - 1) == (Recursion {
                hi: a_hi@,
                lo: a_lo@,
                gain: (gain_hi, gain_lo),
                gain_exp,
                rc: rc@,
                stable: true,
            }),
    {
        let ghost s = recursion(high, low, i - 1);
        let mut sum = Word32(0);
        for j in 1..i
            invariant
                2 <= i <= 16,
                high == r.high@,
                low == r.low@,
                s.hi == a_hi@,
                s.lo == a_lo@,
                sum == driving_sum(high, low, s, i as int, j - 1),
        {
            sum = l_add(sum, mpy_32(r.high[j], r.low[j], a_hi[i - j], a_lo[i - j]));
        }
        let error = l_add(l_shl(sum, 4), l_comp(r.high[i], r.low[i]));
        let k = l_shl(oppose(error, gain_hi, gain_lo), gain_exp);
        assert(k == reflection(high, low, s, i as int));
        let (k_hi, k_lo) = l_extract(k);
        rc[i - 1] = k_hi;
        if abs_s(k_hi).0 > UNSTABLE {
            proof {
                lemma_stopped(high, low, i as int, 16);
            }
            for j in 1..17usize
                invariant
                    a@[0] == Word16(4096),
                    forall|t: int| 1 <= t < j ==> #[trigger] a@[t] == mem.previous_a@[t - 1],
            {
                a[j] = mem.previous_a[j - 1];
            }
            rc[0] = mem.previous_rc[0];
            rc[1] = mem.previous_rc[1];
            assert(a@ =~= predictor(recursion(high, low, 16), old(mem).previous_a@));
            assert(rc@ =~= reflections(recursion(high, low, 16), old(mem).previous_rc@));
            return (a, rc);
        }
        // The update reads what it is about to overwrite, so it fills new
        // arrays.
        let mut an_hi: [Word16; 17] = a_hi;
        let mut an_lo: [Word16; 17] = a_lo;
        for j in 1..i
            invariant
                2 <= i <= 16,
                s.hi == a_hi@,
                s.lo == a_lo@,
                (k_hi, k_lo) == l_extract(k),
                forall|t: int|
                    0 <= t < 17 ==> (#[trigger] an_hi@[t], an_lo@[t]) == if t < j {
                        next_tap(s, k, i as int, t)
                    } else {
                        (s.hi[t], s.lo[t])
                    },
        {
            let term = mpy_32(k_hi, k_lo, a_hi[i - j], a_lo[i - j]);
            let (hi, lo) = l_extract(l_add(term, l_comp(a_hi[j], a_lo[j])));
            an_hi[j] = hi;
            an_lo[j] = lo;
        }
        let (hi, lo) = l_extract(l_shr(k, 4));
        an_hi[i] = hi;
        an_lo[i] = lo;
        let (hi, lo, exp) = prediction_gain(gain_hi, gain_lo, k_hi, k_lo);
        proof {
            lemma_accepted(k_hi);
            lemma_gain((gain_hi, gain_lo), k);
            assert(an_hi@ =~= next_order(high, low, s, i as int).hi);
            assert forall|t: int| 0 <= t < 17 implies #[trigger] an_lo@[t] == next_order(
                high,
                low,
                s,
                i as int,
            ).lo[t] by {
                assert(an_hi@[t] == next_tap(s, k, i as int, t).0);
            }
            assert(an_lo@ =~= next_order(high, low, s, i as int).lo);
            assert(rc@ =~= next_order(high, low, s, i as int).rc);
        }
        gain_hi = hi;
        gain_lo = lo;
        gain_exp = add_s(Word16(gain_exp), Word16(exp)).0;
        a_hi = an_hi;
        a_lo = an_lo;
    }
    let ghost s = recursion(high, low, 16);
    for i in 1..17usize
        invariant
            s.stable,
            s.hi == a_hi@,
            s.lo == a_lo@,
            a@[0] == Word16(4096),
            mem.previous_rc == old(mem).previous_rc,
            forall|t: int| 1 <= t < i ==> #[trigger] a@[t] == finished_tap(s, t),
            forall|t: int| 1 <= t < i ==> #[trigger] mem.previous_a@[t - 1] == a@[t],
    {
        let tap = round(l_shl(l_comp(a_hi[i], a_lo[i]), 1));
        a[i] = tap;
        mem.previous_a[i - 1] = tap;
    }
    mem.previous_rc[0] = rc[0];
    mem.previous_rc[1] = rc[1];
    assert(a@ =~= predictor(s, old(mem).previous_a@));
    assert forall|t: int| 0 <= t < 16 implies mem.previous_a@[t] == a@.subrange(1, 17)[t] by {
        assert(mem.previous_a@[(t + 1) - 1] == a@[t + 1]);
    }
    assert(mem.previous_a@ =~= a@.subrange(1, 17));
    assert(mem.previous_rc@ =~= rc@.subrange(0, 2));
    (a, rc)
}

/// Once an order is unstable the recursion stays where it stopped.
proof fn lemma_stopped(high: Seq<Word16>, low: Seq<Word16>, i: int, n: int)
    requires
        2 <= i <= n,
        !recursion(high, low, i).stable,
    ensures
        recursion(high, low, n) == recursion(high, low, i),
    decreases n,
{
    if n > i {
        lemma_stopped(high, low, i, n - 1);
    }
}

/// Whether order `i` is reached and its reflection coefficient is too large.
pub open spec fn fails_at(high: Seq<Word16>, low: Seq<Word16>, i: int) -> bool {
    let s = recursion(high, low, i - 1);
    s.stable && abs_s(l_extract(reflection(high, low, s, i)).0).0 > UNSTABLE
}

/// The recursion is unstable exactly where some order from the second on has
/// a reflection coefficient that is too large.
pub proof fn law_instability_is_a_large_reflection(high: Seq<Word16>, low: Seq<Word16>, n: int)
    requires
        n >= 1,
    ensures
        !recursion(high, low, n).stable <==> exists|i: int|
            2 <= i <= n && #[trigger] fails_at(high, low, i),
    decreases n,
{
    if n > 1 {
        law_instability_is_a_large_reflection(high, low, n - 1);
        if fails_at(high, low, n) {
            assert(!recursion(high, low, n).stable);
        }
        if exists|i: int| 2 <= i <= n && #[trigger] fails_at(high, low, i) {
            let i = choose|i: int| 2 <= i <= n && #[trigger] fails_at(high, low, i);
            if i < n {
                assert(!recursion(high, low, n - 1).stable);
            }
        }
        if !recursion(high, low, n).stable && recursion(high, low, n - 1).stable {
            assert(fails_at(high, low, n));
        }
    }
}

/// An unstable recursion repeats the last good filter and its first two
/// reflection coefficients, however often it comes.
pub proof fn law_unstable_frames_repeat_the_filter(
    s: Recursion,
    previous_a: Seq<Word16>,
    previous_rc: Seq<Word16>,
)
    requires
        !s.stable,
        s.rc.len() == 16,
        previous_a.len() == 16,
        previous_rc.len() == 2,
    ensures
        predictor(s, previous_a)[0] == Word16(4096),
        predictor(s, previous_a).subrange(1, 17) == previous_a,
        reflections(s, previous_rc).subrange(0, 2) == previous_rc,
{
    assert(predictor(s, previous_a).subrange(1, 17) =~= previous_a);
    assert(reflections(s, previous_rc).subrange(0, 2) =~= previous_rc);
}

/// Each order adds its reflection coefficient's share of the mirrored tap to a
/// tap, short by less than eight; the new tap is a sixteenth of the
/// coefficient, and the taps above stay.
pub proof fn law_orders_add_the_mirrored_taps(s: Recursion, k: Word32, i: int, j: int)
    requires
        2 <= i <= 16,
        1 <= j <= 16,
        s.hi.len() == 17,
        s.lo.len() == 17,
        -0x7ffe_0000 <= k.0 <= 0x7ffe_0000,
        forall|n: int| 0 <= n < 17 ==> -0x2000 < (#[trigger] s.hi[n]).0 < 0x2000,
        forall|n: int| 0 <= n < 17 ==> 0 <= (#[trigger] s.lo[n]).0,
    ensures
        ({
            let (hi, lo) = next_tap(s, k, i, j);
            let change = wide(hi, lo) - wide(s.hi[j], s.lo[j]);
            let (k_hi, k_lo) = l_extract(k);
            let share = wide(k_hi, k_lo) * wide(s.hi[i - j], s.lo[i - j]);
            &&& j < i ==> 0x8000_0000 * change <= share < 0x8000_0000 * (change + 8)
            &&& j == i ==> 16 * wide(hi, lo) <= k.0 < 16 * wide(hi, lo) + 32
            &&& j > i ==> change == 0
        }),
{
    let (k_hi, k_lo) = l_extract(k);
    law_splits_keep_the_number(k);
    vstd::arithmetic::power2::lemma2_to64();
    if j < i {
        let h = s.hi[i - j];
        let l = s.lo[i - j];
        assert(-0x2000 < h.0 < 0x2000 && 0 <= l.0);
        assert(-0x2000 < s.hi[j].0 < 0x2000 && 0 <= s.lo[j].0);
        reveal(crate::fixed_point::spec_l_extract);
        law_double_products_round_down(k_hi, k_lo, h, l);
        let product = mpy_32(k_hi, k_lo, h, l);
        let x = wide(k_hi, k_lo);
        let y = wide(h, l);
        assert(-0x8000_0000 * 0x2000_0000 <= x * y <= 0x8000_0000 * 0x2000_0000) by (nonlinear_arith)
            requires
                -0x8000_0000 <= x <= 0x8000_0000,
                -0x2000_0000 <= y <= 0x2000_0000,
        ;
        assert(-0x2000_0010 <= product.0 <= 0x2000_0010);
        lemma_joined(s.hi[j], s.lo[j]);
        reveal(crate::fixed_point::spec_l_add);
        let sum = l_add(product, l_comp(s.hi[j], s.lo[j]));
        assert(sum.0 == product.0 + wide(s.hi[j], s.lo[j]));
        law_splits_keep_the_number(sum);
    } else if j == i {
        lemma_l_shr(k, 4, 16);
        law_splits_keep_the_number(l_shr(k, 4));
    }
}

proof fn lemma_joined(hi: Word16, lo: Word16)
    requires
        -0x2000 < hi.0 < 0x2000,
        0 <= lo.0,
    ensures
        l_comp(hi, lo).0 == wide(hi, lo),
{
    reveal(crate::fixed_point::spec_l_comp);
    reveal(crate::fixed_point::spec_l_deposit_h);
    assert(lo.0 * 1 == lo.0);
    lemma_l_mac(l_deposit_h(hi), lo, Word16(1));
}

} // verus!
