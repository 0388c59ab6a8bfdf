//! Sums of products, roots and logarithms shared by the codec's stages.

use vstd::prelude::*;
use crate::fixed_point::{
    extract_h, extract_l, l_deposit_h, l_mac, l_msu, l_mult, l_shl, l_shr, l_shr_r, lemma_l_mac,
    lemma_l_shr, lemma_norm_l, lemma_square_grows, negate, norm_l, round, shr, sub_s, Word16,
    Word32,
};

verus! {

/// The accumulator after `n` products of `x` from `xo` with `y` from `yo`.
pub open spec fn mac_run(
    seed: Word32,
    x: Seq<Word16>,
    xo: int,
    y: Seq<Word16>,
    yo: int,
    n: int,
) -> Word32
    decreases n,
{
    if n <= 0 {
        seed
    } else {
        l_mac(mac_run(seed, x, xo, y, yo, n - 1), x[xo + n - 1], y[yo + n - 1])
    }
}

/// The accumulator after `n` products of `x[i]` with `y[k - i]`.
pub open spec fn conv_run(seed: Word32, x: Seq<Word16>, y: Seq<Word16>, k: int, n: int) -> Word32
    decreases n,
{
    if n <= 0 {
        seed
    } else {
        l_mac(conv_run(seed, x, y, k, n - 1), x[n - 1], y[k - (n - 1)])
    }
}

/// Accumulate `n` products of `x` from `xo` with `y` from `yo`.
pub fn accumulate(
    seed: Word32,
    x: &[Word16],
    xo: usize,
    y: &[Word16],
    yo: usize,
    n: usize,
) -> (acc: Word32)
    requires
        xo + n <= x.len(),
        yo + n <= y.len(),
    ensures
        acc == mac_run(seed, x@, xo as int, y@, yo as int, n as int),
{
    let mut acc = seed;
    for i in 0..n
        invariant
            xo + n <= x.len(),
            yo + n <= y.len(),
            acc == mac_run(seed, x@, xo as int, y@, yo as int, i as int),
    {
        acc = l_mac(acc, x[xo + i], y[yo + i]);
    }
    acc
}

/// Accumulate `x[i] * y[k - i]` for `i` below `n`.
pub fn convolve_at(seed: Word32, x: &[Word16], y: &[Word16], k: usize, n: usize) -> (acc: Word32)
    requires
        n <= x.len(),
        n <= k + 1,
        k < y.len(),
    ensures
        acc == conv_run(seed, x@, y@, k as int, n as int),
{
    let mut acc = seed;
    for i in 0..n
        invariant
            n <= x.len(),
            n <= k + 1,
            k < y.len(),
            acc == conv_run(seed, x@, y@, k as int, i as int),
    {
        acc = l_mac(acc, x[i], y[k - i]);
    }
    acc
}

/// One sample scaled by `2^exp`, rounded.
pub open spec fn scaled(x: Word16, exp: i16) -> Word16 {
    round(l_shl(l_deposit_h(x), exp))
}

/// A signal scaled by `2^exp`, rounded sample by sample.
pub open spec fn scaled_seq(x: Seq<Word16>, exp: i16) -> Seq<Word16> {
    Seq::new(x.len(), |i: int| scaled(x[i], exp))
}

/// Scale a signal in place by `2^exp`.
pub fn scale_sig(x: &mut [Word16], exp: i16)
    ensures
        final(x)@ == scaled_seq(old(x)@, exp),
{
    let n: usize = x.len();
    for i in 0..n
        invariant
            n == x@.len(),
            x@.len() == old(x)@.len(),
            forall|j: int| 0 <= j < i ==> x@[j] == scaled(old(x)@[j], exp),
            forall|j: int| i <= j < n ==> x@[j] == old(x)@[j],
    {
        x[i] = round(l_shl(l_deposit_h(x[i]), exp));
    }
}

/// The reciprocal square root at 49 points of `[1/4, 1]`.
pub const ISQRT_TABLE: [i16; 49] = [
    32767, 31790, 30894, 30070, 29309, 28602, 27945, 27330, 26755, 26214, 25705, 25225, 24770,
    24339, 23930, 23541, 23170, 22817, 22479, 22155, 21845, 21548, 21263, 20988, 20724, 20470,
    20225, 19988, 19760, 19539, 19326, 19119, 18919, 18725, 18536, 18354, 18176, 18004, 17837,
    17674, 17515, 17361, 17211, 17064, 16921, 16782, 16646, 16514, 16384,
];

/// Linear interpolation in a table: from `table[i]` towards `table[i + 1]` by
/// the Q15 fraction `a`.
pub open spec fn interpolated(table: Seq<i16>, i: int, a: Word16) -> Word32 {
    l_msu(l_deposit_h(Word16(table[i])), sub_s(Word16(table[i]), Word16(table[i + 1])), a)
}

/// The low fifteen bits of a word.
pub open spec fn low15(a: Word16) -> Word16 {
    Word16((a.0 as int % 32768) as i16)
}

/// The reciprocal square root of `frac * 2^exp` as a fraction and an exponent.
#[verifier::opaque]
pub open spec fn spec_isqrt_n(value: (Word32, i16)) -> (Word32, i16) {
    let (frac, exp) = value;
    if frac.0 <= 0 {
        (Word32(0x7fff_ffff), 0i16)
    } else {
        let frac = if exp as int % 2 == 1 {
            l_shr(frac, 1)
        } else {
            frac
        };
        let exp = negate(shr(sub_s(Word16(exp), Word16(1)), 1)).0;
        let frac = l_shr(frac, 9);
        let i = extract_h(frac).0 - 16;
        let a = low15(extract_l(l_shr(frac, 1)));
        (interpolated(ISQRT_TABLE@, i, a), exp)
    }
}

/// The reciprocal square root of `frac * 2^exp` as a fraction and an exponent.
///
/// `frac` is normalised, or not positive: the root of nothing is the largest
/// fraction.
#[verifier::when_used_as_spec(spec_isqrt_n)]
pub fn isqrt_n(value: (Word32, i16)) -> (r: (Word32, i16))
    requires
        value.0.0 <= 0 || value.0.0 >= 0x4000_0000,
    ensures
        r == spec_isqrt_n(value),
{
    proof {
        reveal(spec_isqrt_n);
    }
    let (frac, exp) = value;
    if frac.0 <= 0 {
        return (Word32(0x7fff_ffff), 0);
    }
    let odd: bool = is_odd(exp);
    let frac = if odd {
        l_shr(frac, 1)
    } else {
        frac
    };
    let exp: i16 = negate(shr(sub_s(Word16(exp), Word16(1)), 1)).0;
    let shifted = l_shr(frac, 9);
    proof {
        lemma_root_index(value.0, odd);
    }
    let i: usize = (extract_h(shifted).0 - 16) as usize;
    let a = low_15(extract_l(l_shr(shifted, 1)));
    let here = Word16(ISQRT_TABLE[i]);
    let step = sub_s(here, Word16(ISQRT_TABLE[i + 1]));
    (l_msu(l_deposit_h(here), step, a), exp)
}

fn is_odd(x: i16) -> (r: bool)
    ensures
        r == (x as int % 2 == 1),
{
    let m: i32 = x as i32 + 32768;
    (m as u32) % 2 == 1
}

fn low_15(a: Word16) -> (r: Word16)
    ensures
        r == low15(a),
{
    if a.0 < 0 {
        Word16((a.0 as i32 + 32768) as i16)
    } else {
        a
    }
}

proof fn lemma_root_index(frac: Word32, halved: bool)
    requires
        frac.0 >= 0x4000_0000,
    ensures
        ({
            let f = if halved {
                l_shr(frac, 1)
            } else {
                frac
            };
            16 <= extract_h(l_shr(f, 9)).0 < 64
        }),
{
    reveal(crate::fixed_point::spec_extract_h);
    vstd::arithmetic::power2::lemma2_to64();
    let f = if halved {
        l_shr(frac, 1)
    } else {
        frac
    };
    lemma_l_shr(frac, 1, 2);
    lemma_l_shr(f, 9, 512);
}

/// A sum of squares and one is positive.
pub proof fn lemma_energy_positive(seed: Word32, x: Seq<Word16>, xo: int, n: int)
    requires
        seed.0 >= 0,
    ensures
        mac_run(seed, x, xo, x, xo, n).0 >= seed.0,
    decreases n,
{
    if n > 0 {
        lemma_energy_positive(seed, x, xo, n - 1);
        lemma_square_grows(mac_run(seed, x, xo, x, xo, n - 1), x[xo + n - 1]);
    }
}

/// The length that two signals share.
pub open spec fn common_length(x: Seq<Word16>, y: Seq<Word16>) -> int {
    if x.len() <= y.len() {
        x.len() as int
    } else {
        y.len() as int
    }
}

/// The normalised inner product of two signals over their common length,
/// seeded with one so that it is never zero by default, and its exponent.
pub open spec fn spec_dot_product12(x: Seq<Word16>, y: Seq<Word16>) -> (Word32, i16) {
    let sum = mac_run(Word32(1), x, 0, y, 0, common_length(x, y));
    (l_shl(sum, norm_l(sum)), (30 - norm_l(sum)) as i16)
}

/// The exponent of an inner product is small.
pub proof fn lemma_dot_exponent(x: Seq<Word16>, y: Seq<Word16>)
    ensures
        -1 <= spec_dot_product12(x, y).1 <= 30,
{
    lemma_norm_l(mac_run(Word32(1), x, 0, y, 0, common_length(x, y)));
}

/// The normalised inner product of two signals and its exponent.
pub fn dot_product12(x: &[Word16], y: &[Word16]) -> (r: (Word32, i16))
    ensures
        r == spec_dot_product12(x@, y@),
        r.0.0 <= 0 || r.0.0 >= 0x4000_0000,
        -1 <= r.1 <= 30,
        x@ == y@ ==> r.0.0 >= 0x4000_0000 && r.1 >= 0,
{
    let count: usize = if x.len() <= y.len() {
        x.len()
    } else {
        y.len()
    };
    let sum = accumulate(Word32(1), x, 0, y, 0, count);
    let shift: i16 = norm_l(sum);
    proof {
        lemma_norm_l(sum);
        if x@ == y@ {
            lemma_energy_positive(Word32(1), x@, 0, x@.len() as int);
        }
    }
    (l_shl(sum, shift), 30 - shift)
}

/// The exponent of a reciprocal root stays small.
pub proof fn lemma_root_exponent(value: (Word32, i16))
    requires
        -200 <= value.1 <= 200,
    ensures
        -101 <= isqrt_n(value).1 <= 101,
        0 <= value.1 <= 30 ==> -14 <= isqrt_n(value).1 <= 1,
{
    reveal(spec_isqrt_n);
    reveal(crate::fixed_point::spec_negate);
    reveal(crate::fixed_point::spec_shr);
    reveal(crate::fixed_point::spec_sub_s);
    vstd::arithmetic::power2::lemma2_to64();
    let e = sub_s(Word16(value.1), Word16(1)).0 as int;
    assert(shr(Word16(e as i16), 1).0 == e / 2);
}

/// The binary logarithm at 33 points of `[1, 2]`, Q15.
pub const LOG2_TABLE: [i16; 33] = [
    0, 1455, 2866, 4236, 5568, 6863, 8124, 9352, 10549, 11716, 12855, 13967, 15054, 16117, 17156,
    18172, 19167, 20142, 21097, 22033, 22951, 23852, 24735, 25603, 26455, 27291, 28113, 28922,
    29716, 30497, 31266, 32023, 32767,
];

/// Two to the power of 33 points of `[0, 1]`, Q14.
pub const POW2_TABLE: [i16; 33] = [
    16384, 16743, 17109, 17484, 17867, 18258, 18658, 19066, 19484, 19911, 20347, 20792, 21247,
    21713, 22188, 22674, 23170, 23678, 24196, 24726, 25268, 25821, 26386, 26964, 27554, 28158,
    28774, 29405, 30048, 30706, 31379, 32066, 32767,
];

/// The binary logarithm: integer part and Q15 fraction; zero of anything that
/// is not positive.
#[verifier::opaque]
pub open spec fn spec_log2(x: Word32) -> (i16, Word16) {
    if x.0 <= 0 {
        (0i16, Word16(0))
    } else {
        let shifted = l_shr(l_shl(x, norm_l(x)), 9);
        let i = extract_h(shifted).0 - 32;
        let a = low15(extract_l(l_shr(shifted, 1)));
        ((30 - norm_l(x)) as i16, extract_h(interpolated(LOG2_TABLE@, i, a)))
    }
}

/// The binary logarithm of an accumulator.
#[verifier::when_used_as_spec(spec_log2)]
pub fn log2(x: Word32) -> (r: (i16, Word16))
    ensures
        r == spec_log2(x),
        0 <= r.0 <= 30,
{
    proof {
        reveal(spec_log2);
        lemma_norm_l(x);
    }
    if x.0 <= 0 {
        return (0, Word16(0));
    }
    let exp: i16 = norm_l(x);
    let normalised = l_shl(x, exp);
    let shifted = l_shr(normalised, 9);
    proof {
        lemma_log_index(normalised);
    }
    let i: usize = (extract_h(shifted).0 - 32) as usize;
    let a = low_15(extract_l(l_shr(shifted, 1)));
    let here = Word16(LOG2_TABLE[i]);
    let step = sub_s(here, Word16(LOG2_TABLE[i + 1]));
    (30 - exp, extract_h(l_msu(l_deposit_h(here), step, a)))
}

proof fn lemma_log_index(x: Word32)
    requires
        x.0 >= 0x4000_0000,
    ensures
        32 <= extract_h(l_shr(x, 9)).0 < 64,
{
    reveal(crate::fixed_point::spec_extract_h);
    vstd::arithmetic::power2::lemma2_to64();
    lemma_l_shr(x, 9, 512);
}

/// `2^(exponent + fraction)`, the fraction in Q15.
#[verifier::opaque]
pub open spec fn spec_pow2(exponent: i16, fraction: Word16) -> Word32 {
    let x = l_mult(fraction, Word16(32));
    let i = extract_h(x).0 as int;
    let a = low15(extract_l(l_shr(x, 1)));
    l_shr_r(interpolated(POW2_TABLE@, i, a), sub_s(Word16(30), Word16(exponent)).0)
}

/// `2^(exponent + fraction)`, the fraction in Q15 and not negative.
#[verifier::when_used_as_spec(spec_pow2)]
pub fn pow2(exponent: i16, fraction: Word16) -> (r: Word32)
    requires
        fraction.0 >= 0,
    ensures
        r == spec_pow2(exponent, fraction),
{
    proof {
        reveal(spec_pow2);
        lemma_pow_index(fraction);
    }
    let x = l_mult(fraction, Word16(32));
    let i: usize = extract_h(x).0 as usize;
    let a = low_15(extract_l(l_shr(x, 1)));
    let here = Word16(POW2_TABLE[i]);
    let step = sub_s(here, Word16(POW2_TABLE[i + 1]));
    l_shr_r(l_msu(l_deposit_h(here), step, a), sub_s(Word16(30), Word16(exponent)).0)
}

proof fn lemma_pow_index(fraction: Word16)
    requires
        fraction.0 >= 0,
    ensures
        0 <= extract_h(l_mult(fraction, Word16(32))).0 < 32,
{
    reveal(crate::fixed_point::spec_extract_h);
    reveal(crate::fixed_point::spec_l_mult);
    let thirty_two = Word16(32);
    assert(fraction.0 * thirty_two.0 == 32 * fraction.0) by (nonlinear_arith)
        requires
            thirty_two.0 == 32,
    ;
    assert(l_mult(fraction, thirty_two).0 == 64 * fraction.0);
}

// ---------------------------------------------------------------------------
// Laws
// ---------------------------------------------------------------------------

/// Whether the first `n + 1` entries of a table fall.
pub open spec fn falling(table: Seq<i16>, n: int) -> bool
    decreases n,
{
    n <= 0 || falling(table, n - 1) && table[n - 1] >= table[n]
}

/// Any later entry of a falling table is no larger.
pub proof fn lemma_falling(table: Seq<i16>, n: int, i: int, j: int)
    requires
        falling(table, n),
        0 <= i <= j <= n,
    ensures
        table[i] >= table[j],
    decreases n,
{
    if i < j {
        if j < n {
            lemma_falling(table, n - 1, i, j);
        } else {
            lemma_falling(table, n - 1, i, j - 1);
        }
    }
}

/// The table of roots falls.
proof fn lemma_roots_fall()
    ensures
        falling(ISQRT_TABLE@, 48),
{
    reveal_with_fuel(falling, 50);
}

/// Where a fraction lies in the table of roots, in 32768ths of a step.
spec fn root_place(frac: Word32, exp: i16) -> int {
    if exp as int % 2 == 1 {
        frac.0 as int / 2048
    } else {
        frac.0 as int / 1024
    }
}

/// The root by its place in the table.
proof fn lemma_root_value(frac: Word32, exp: i16)
    requires
        frac.0 >= 0x4000_0000,
        -200 <= exp <= 200,
    ensures
        ({
            let n = root_place(frac, exp);
            let i = n / 32768 - 16;
            let here = ISQRT_TABLE@[i];
            let step = here - ISQRT_TABLE@[i + 1];
            &&& 0 <= i < 48
            &&& exp as int % 2 == 1 ==> i < 16
            &&& exp as int % 2 == 0 ==> i >= 16
            &&& isqrt_n((frac, exp)).0.0 == 65536 * here - 2 * (step * (n % 32768))
            &&& isqrt_n((frac, exp)).1 == -((exp - 1) / 2)
            &&& 0 <= step
            &&& 65536 * ISQRT_TABLE@[i + 1] <= isqrt_n((frac, exp)).0.0 <= 65536 * here
        }),
{
    reveal(spec_isqrt_n);
    reveal(crate::fixed_point::spec_extract_h);
    reveal(crate::fixed_point::spec_extract_l);
    reveal(crate::fixed_point::spec_sub_s);
    reveal(crate::fixed_point::spec_negate);
    reveal(crate::fixed_point::spec_shr);
    reveal(crate::fixed_point::spec_l_msu);
    reveal(crate::fixed_point::spec_l_sub);
    reveal(crate::fixed_point::spec_l_mult);
    reveal(crate::fixed_point::spec_l_deposit_h);
    vstd::arithmetic::power2::lemma2_to64();
    lemma_roots_fall();
    let odd = exp as int % 2 == 1;
    lemma_root_index(frac, odd);
    let f = if odd {
        l_shr(frac, 1)
    } else {
        frac
    };
    lemma_l_shr(frac, 1, 2);
    lemma_l_shr(f, 9, 512);
    let g = l_shr(f, 9);
    lemma_l_shr(g, 1, 2);
    let n = root_place(frac, exp);
    assert(l_shr(g, 1).0 == n);
    let i = n / 32768 - 16;
    assert(i == extract_h(g).0 - 16);
    let a = low15(extract_l(l_shr(g, 1)));
    assert(a.0 == n % 32768);
    lemma_falling(ISQRT_TABLE@, 48, i, i + 1);
    lemma_falling(ISQRT_TABLE@, 48, 0, i);
    lemma_falling(ISQRT_TABLE@, 48, i + 1, 48);
    let here = ISQRT_TABLE@[i] as int;
    let step = here - ISQRT_TABLE@[i + 1];
    let x = a.0 as int;
    assert(0 <= step * x <= step * 32768) by (nonlinear_arith)
        requires
            0 <= step,
            0 <= x <= 32768,
    ;
    let e = exp - 1;
    assert(shr(Word16(e as i16), 1).0 == e / 2);
}

/// Among values of one exponent the root of a larger one is no larger.
proof fn lemma_root_falls(frac: Word32, larger: Word32, exp: i16)
    requires
        0x4000_0000 <= frac.0 <= larger.0,
        -200 <= exp <= 200,
    ensures
        isqrt_n((larger, exp)).0.0 <= isqrt_n((frac, exp)).0.0,
{
    lemma_root_value(frac, exp);
    lemma_root_value(larger, exp);
    lemma_roots_fall();
    let n = root_place(frac, exp);
    let m = root_place(larger, exp);
    let i = n / 32768 - 16;
    let k = m / 32768 - 16;
    assert(n <= m);
    if i < k {
        lemma_falling(ISQRT_TABLE@, 48, i + 1, k);
    } else {
        let step = ISQRT_TABLE@[i] - ISQRT_TABLE@[i + 1];
        let x = n % 32768;
        let y = m % 32768;
        assert(step * x <= step * y) by (nonlinear_arith)
            requires
                0 <= step,
                x <= y,
        ;
    }
}

/// The reciprocal root of a value as a word, one at 32767.
pub open spec fn root_word(value: (Word32, i16)) -> Word16 {
    extract_h(l_shl(isqrt_n(value).0, isqrt_n(value).1))
}

/// The word of a root by its exponent.
proof fn lemma_root_word(frac: Word32, exp: i16)
    requires
        frac.0 >= 0x4000_0000,
        -60 <= exp <= 60,
    ensures
        exp <= 0 ==> root_word((frac, exp)).0 == 32767,
        exp >= 1 ==> root_word((frac, exp)).0 == (isqrt_n((frac, exp)).0.0 as int / vstd::arithmetic::power2::pow2(
            ((exp - 1) / 2) as nat,
        ) as int) / 65536,
{
    reveal(crate::fixed_point::spec_extract_h);
    reveal(crate::fixed_point::spec_l_shl);
    lemma_root_value(frac, exp);
    lemma_roots_fall();
    let i = root_place(frac, exp) / 32768 - 16;
    lemma_falling(ISQRT_TABLE@, 48, i + 1, 48);
    lemma_falling(ISQRT_TABLE@, 48, 0, i);
    let r = isqrt_n((frac, exp)).0.0 as int;
    assert(0x4000_0000 <= r <= 0x7fff_0000);
    if exp <= 0 {
        let m = -((exp - 1) / 2);
        let p = vstd::arithmetic::power2::pow2(m as nat) as int;
        vstd::arithmetic::power2::lemma_pow2_unfold(m as nat);
        vstd::arithmetic::power2::lemma_pow2_pos((m - 1) as nat);
        assert(r * p >= 0x8000_0000) by (nonlinear_arith)
            requires
                r >= 0x4000_0000,
                p >= 2,
        ;
    } else {
        let m = (exp - 1) / 2;
        let p = vstd::arithmetic::power2::pow2(m as nat) as int;
        vstd::arithmetic::power2::lemma_pow2_pos(m as nat);
        assert(0 <= r / p <= r) by (nonlinear_arith)
            requires
                r >= 0,
                p >= 1,
        ;
        if m == 0 {
            vstd::arithmetic::power2::lemma2_to64();
            assert(r * 1 == r && r / 1 == r);
            assert(p == 1);
            assert(r * p == r) by (nonlinear_arith)
                requires
                    p == 1,
            ;
        }
    }
}

/// The word of a root is not negative, and at most its exponent's power of a
/// half.
pub proof fn lemma_root_bounds(frac: Word32, exp: i16)
    requires
        frac.0 >= 0x4000_0000,
        -60 <= exp <= 60,
    ensures
        0 <= root_word((frac, exp)).0,
        exp == 7 ==> root_word((frac, exp)).0 <= 4095,
{
    lemma_root_word(frac, exp);
    lemma_root_value(frac, exp);
    lemma_roots_fall();
    vstd::arithmetic::power2::lemma2_to64();
    let i = root_place(frac, exp) / 32768 - 16;
    lemma_falling(ISQRT_TABLE@, 48, 0, i);
    lemma_falling(ISQRT_TABLE@, 48, i + 1, 48);
    let r = isqrt_n((frac, exp)).0.0 as int;
    if exp >= 1 {
        let p = vstd::arithmetic::power2::pow2(((exp - 1) / 2) as nat) as int;
        vstd::arithmetic::power2::lemma_pow2_pos(((exp - 1) / 2) as nat);
        assert(r / p >= 0) by (nonlinear_arith)
            requires
                r >= 0,
                p >= 1,
        ;
    }
    if exp == 7 {
        assert((r / 8) / 65536 <= 4095);
    }
}

/// A reciprocal root is a normalised fraction, and its exponent small.
pub proof fn lemma_root_range(frac: Word32, exp: i16)
    requires
        frac.0 >= 0x4000_0000,
        -200 <= exp <= 200,
    ensures
        0x4000_0000 <= isqrt_n((frac, exp)).0.0 <= 0x7fff_0000,
        isqrt_n((frac, exp)).1 == -((exp - 1) / 2),
{
    lemma_root_value(frac, exp);
    lemma_roots_fall();
    let i = root_place(frac, exp) / 32768 - 16;
    lemma_falling(ISQRT_TABLE@, 48, 0, i);
    lemma_falling(ISQRT_TABLE@, 48, i + 1, 48);
}

/// Dividing twice by a step keeps the order.
proof fn lemma_scaled_order(x: int, y: int, p: int)
    requires
        x <= y,
        p >= 1,
    ensures
        (x / p) / 65536 <= (y / p) / 65536,
{
    assert(x / p <= y / p) by (nonlinear_arith)
        requires
            x <= y,
            p >= 1,
    ;
}

/// The root of a value of the next exponent is no larger.
proof fn lemma_root_next(frac: Word32, larger: Word32, exp: i16)
    requires
        frac.0 >= 0x4000_0000,
        larger.0 >= 0x4000_0000,
        -60 <= exp < 60,
    ensures
        root_word((larger, (exp + 1) as i16)).0 <= root_word((frac, exp)).0,
{
    let next = (exp + 1) as i16;
    lemma_root_word(frac, exp);
    lemma_root_word(larger, next);
    lemma_root_value(frac, exp);
    lemma_root_value(larger, next);
    lemma_roots_fall();
    let r = isqrt_n((frac, exp)).0.0 as int;
    let s = isqrt_n((larger, next)).0.0 as int;
    let i = root_place(frac, exp) / 32768 - 16;
    let k = root_place(larger, next) / 32768 - 16;
    if exp <= 0 {
        reveal(crate::fixed_point::spec_extract_h);
    } else {
        let m = (exp - 1) / 2;
        let p = vstd::arithmetic::power2::pow2(m as nat) as int;
        vstd::arithmetic::power2::lemma_pow2_pos(m as nat);
        if exp as int % 2 == 1 {
            // Both shift alike, and the middle of the table parts them.
            assert((next - 1) / 2 == m);
            lemma_falling(ISQRT_TABLE@, 48, i + 1, 16);
            lemma_falling(ISQRT_TABLE@, 48, 16, k);
            lemma_scaled_order(s, r, p);
        } else {
            // The next one shifts once more, and a half is the table's end.
            assert((next - 1) / 2 == m + 1);
            vstd::arithmetic::power2::lemma_pow2_unfold((m + 1) as nat);
            lemma_falling(ISQRT_TABLE@, 48, i + 1, 48);
            lemma_falling(ISQRT_TABLE@, 48, 0, k);
            assert(s / (2 * p) == (s / 2) / p) by {
                vstd::arithmetic::div_mod::lemma_div_denominator(s, 2, p);
            }
            lemma_scaled_order(s / 2, r, p);
        }
    }
}

/// The root of a larger value is no larger, across exponents too.
pub proof fn law_roots_of_larger_values_are_smaller(
    frac: Word32,
    exp: i16,
    larger: Word32,
    larger_exp: i16,
)
    requires
        frac.0 >= 0x4000_0000,
        larger.0 >= 0x4000_0000,
        -60 <= exp <= larger_exp <= 60,
        exp == larger_exp ==> frac.0 <= larger.0,
    ensures
        root_word((larger, larger_exp)).0 <= root_word((frac, exp)).0,
    decreases larger_exp - exp,
{
    if exp == larger_exp {
        lemma_root_falls(frac, larger, exp);
        lemma_root_word(frac, exp);
        lemma_root_word(larger, exp);
        if exp >= 1 {
            let p = vstd::arithmetic::power2::pow2(((exp - 1) / 2) as nat) as int;
            vstd::arithmetic::power2::lemma_pow2_pos(((exp - 1) / 2) as nat);
            lemma_scaled_order(isqrt_n((larger, exp)).0.0 as int, isqrt_n((frac, exp)).0.0 as int, p);
        }
    } else if exp + 1 == larger_exp {
        lemma_root_next(frac, larger, exp);
    } else {
        lemma_root_next(frac, frac, exp);
        law_roots_of_larger_values_are_smaller(frac, (exp + 1) as i16, larger, larger_exp);
    }
}

/// Whether the first `n + 1` entries of a table rise.
pub open spec fn rising(table: Seq<i16>, n: int) -> bool
    decreases n,
{
    n <= 0 || rising(table, n - 1) && table[n - 1] <= table[n]
}

/// Any later entry of a rising table is no smaller.
pub proof fn lemma_rising(table: Seq<i16>, n: int, i: int, j: int)
    requires
        rising(table, n),
        0 <= i <= j <= n,
    ensures
        table[i] <= table[j],
    decreases n,
{
    if i < j {
        if j < n {
            lemma_rising(table, n - 1, i, j);
        } else {
            lemma_rising(table, n - 1, i, j - 1);
        }
    }
}

proof fn lemma_logarithms_rise()
    ensures
        rising(LOG2_TABLE@, 32),
{
    reveal_with_fuel(rising, 34);
}

/// The logarithm of a normalised value by its place in the table.
proof fn lemma_log_value(x: Word32)
    requires
        x.0 > 0,
    ensures
        ({
            let n = (x.0 * vstd::arithmetic::power2::pow2(norm_l(x) as nat)) / 1024;
            let i = n / 32768 - 32;
            let here = LOG2_TABLE@[i];
            let step = LOG2_TABLE@[i + 1] - here;
            &&& 0 <= i < 32
            &&& log2(x).0 == 30 - norm_l(x)
            &&& log2(x).1.0 == (65536 * here + 2 * (step * (n % 32768))) / 65536
            &&& 0 <= step
        }),
{
    reveal(spec_log2);
    reveal(crate::fixed_point::spec_extract_h);
    reveal(crate::fixed_point::spec_extract_l);
    reveal(crate::fixed_point::spec_sub_s);
    reveal(crate::fixed_point::spec_l_msu);
    reveal(crate::fixed_point::spec_l_sub);
    reveal(crate::fixed_point::spec_l_mult);
    reveal(crate::fixed_point::spec_l_deposit_h);
    vstd::arithmetic::power2::lemma2_to64();
    lemma_logarithms_rise();
    crate::fixed_point::lemma_normalised(x);
    let normal = l_shl(x, norm_l(x));
    lemma_log_index(normal);
    lemma_l_shr(normal, 9, 512);
    let g = l_shr(normal, 9);
    lemma_l_shr(g, 1, 2);
    let n = normal.0 as int / 1024;
    assert(l_shr(g, 1).0 == n);
    let i = n / 32768 - 32;
    assert(i == extract_h(g).0 - 32);
    let a = low15(extract_l(l_shr(g, 1)));
    assert(a.0 == n % 32768);
    lemma_rising(LOG2_TABLE@, 32, i, i + 1);
    lemma_rising(LOG2_TABLE@, 32, 0, i);
    lemma_rising(LOG2_TABLE@, 32, i + 1, 32);
    let here = LOG2_TABLE@[i] as int;
    let step = LOG2_TABLE@[i + 1] - here;
    let y = a.0 as int;
    assert(0 <= step * y <= step * 32768 && (-step) * y == -(step * y)) by (nonlinear_arith)
        requires
            0 <= step,
            0 <= y <= 32768,
    ;
}

/// The fraction of a logarithm is not negative.
pub proof fn lemma_logarithm_fraction(x: Word32)
    requires
        x.0 > 0,
    ensures
        0 <= log2(x).1.0,
{
    lemma_log_value(x);
    lemma_logarithms_rise();
    let n = (x.0 * vstd::arithmetic::power2::pow2(norm_l(x) as nat)) / 1024;
    let i = n / 32768 - 32;
    lemma_rising(LOG2_TABLE@, 32, 0, i);
    let step = LOG2_TABLE@[i + 1] - LOG2_TABLE@[i];
    let y = n % 32768;
    assert(0 <= step * y) by (nonlinear_arith)
        requires
            0 <= step,
            0 <= y,
    ;
}

/// The logarithm's whole part counts the doublings: the value lies between its
/// power of two and the next. The logarithm of a larger value is no smaller.
pub proof fn law_logarithm_rises(x: Word32, y: Word32)
    requires
        0 < x.0 <= y.0,
    ensures
        0 <= log2(x).0 <= log2(y).0 <= 30,
        log2(x).0 == log2(y).0 ==> log2(x).1.0 <= log2(y).1.0,
        vstd::arithmetic::power2::pow2(log2(x).0 as nat) <= x.0,
        x.0 < 2 * vstd::arithmetic::power2::pow2(log2(x).0 as nat),
{
    lemma_log_value(x);
    lemma_log_value(y);
    crate::fixed_point::lemma_normalised(x);
    crate::fixed_point::lemma_normalised(y);
    let m = norm_l(x) as nat;
    let n = norm_l(y) as nat;
    let p = vstd::arithmetic::power2::pow2(m) as int;
    let q = vstd::arithmetic::power2::pow2(n) as int;
    let a = x.0 as int;
    let b = y.0 as int;
    vstd::arithmetic::power2::lemma2_to64();
    let w = vstd::arithmetic::power2::pow2((30 - m) as nat) as int;
    vstd::arithmetic::power2::lemma_pow2_adds((30 - m) as nat, m);
    assert(w * p == 0x4000_0000);
    assert(w <= a && a < 2 * w) by (nonlinear_arith)
        requires
            w * p == 0x4000_0000,
            0x4000_0000 <= a * p <= 0x7fff_ffff,
            p >= 1,
    ;
    if m < n {
        vstd::arithmetic::power2::lemma_pow2_unfold(n);
        if m < n - 1 {
            vstd::arithmetic::power2::lemma_pow2_strictly_increases(m, (n - 1) as nat);
        }
        assert(2 * (a * p) <= b * q) by (nonlinear_arith)
            requires
                1 <= a <= b,
                1 <= p,
                2 * p <= q,
        ;
    }
    if m == n {
        assert(a * p <= b * p) by (nonlinear_arith)
            requires
                a <= b,
                p >= 1,
        ;
        let s = (a * p) / 1024;
        let t = (b * p) / 1024;
        let i = s / 32768 - 32;
        let k = t / 32768 - 32;
        lemma_logarithms_rise();
        let step = LOG2_TABLE@[i + 1] - LOG2_TABLE@[i];
        let u = s % 32768;
        let v = t % 32768;
        if i < k {
            lemma_rising(LOG2_TABLE@, 32, i + 1, k);
            assert(step * u <= step * 32768) by (nonlinear_arith)
                requires
                    0 <= step,
                    u <= 32768,
            ;
            let other = LOG2_TABLE@[k + 1] - LOG2_TABLE@[k];
            assert(0 <= other * v) by (nonlinear_arith)
                requires
                    0 <= other,
                    0 <= v,
            ;
        } else {
            assert(step * u <= step * v) by (nonlinear_arith)
                requires
                    0 <= step,
                    u <= v,
            ;
        }
    }
}

proof fn lemma_powers_rise()
    ensures
        rising(POW2_TABLE@, 32),
{
    reveal_with_fuel(rising, 34);
}

/// The mantissa of a power of two by its fraction, on the scale of the table.
spec fn power_mantissa(fraction: Word16) -> int {
    let i = fraction.0 as int / 1024;
    let a = 32 * (fraction.0 as int % 1024);
    65536 * POW2_TABLE@[i] + 2 * ((POW2_TABLE@[i + 1] - POW2_TABLE@[i]) * a)
}

proof fn lemma_power_value(exponent: i16, fraction: Word16)
    requires
        0 <= exponent <= 30,
        0 <= fraction.0,
    ensures
        0x4000_0000 <= power_mantissa(fraction) <= 65536 * 32767,
        pow2(exponent, fraction) == l_shr_r(
            Word32(power_mantissa(fraction) as i32),
            (30 - exponent) as i16,
        ),
{
    reveal(spec_pow2);
    reveal(crate::fixed_point::spec_l_mult);
    reveal(crate::fixed_point::spec_extract_h);
    reveal(crate::fixed_point::spec_extract_l);
    reveal(crate::fixed_point::spec_sub_s);
    reveal(crate::fixed_point::spec_l_deposit_h);
    vstd::arithmetic::power2::lemma2_to64();
    lemma_powers_rise();
    let f = fraction.0 as int;
    assert(Word16(32).0 == 32);
    let x = l_mult(fraction, Word16(32));
    assert(x.0 == 64 * f);
    lemma_l_shr(x, 1, 2);
    let i = f / 1024;
    let a = 32 * (f % 1024);
    assert(extract_h(x).0 == i);
    let half = l_shr(x, 1);
    assert(half.0 == 32 * f);
    assert(half.0 == 32768 * i + a);
    let low = low15(extract_l(half));
    assert(low.0 == a);
    lemma_rising(POW2_TABLE@, 32, 0, i);
    lemma_rising(POW2_TABLE@, 32, i, i + 1);
    lemma_rising(POW2_TABLE@, 32, i + 1, 32);
    let here = POW2_TABLE@[i] as int;
    let next = POW2_TABLE@[i + 1] as int;
    let d = next - here;
    assert(0 <= d * a <= d * 32768) by (nonlinear_arith)
        requires
            0 <= d,
            0 <= a <= 32768,
    ;
    let step = sub_s(Word16(POW2_TABLE@[i]), Word16(POW2_TABLE@[i + 1]));
    assert(step.0 == -d);
    assert(step.0 * low.0 == -(d * a)) by (nonlinear_arith)
        requires
            step.0 == -d,
            low.0 == a,
    ;
    lemma_l_mac(l_deposit_h(Word16(POW2_TABLE@[i])), step, low);
}

proof fn lemma_mantissas_rise(f: Word16, g: Word16)
    requires
        0 <= f.0 <= g.0,
    ensures
        power_mantissa(f) <= power_mantissa(g),
{
    lemma_powers_rise();
    let i = f.0 as int / 1024;
    let j = g.0 as int / 1024;
    let a = 32 * (f.0 as int % 1024);
    let b = 32 * (g.0 as int % 1024);
    lemma_rising(POW2_TABLE@, 32, i, i + 1);
    lemma_rising(POW2_TABLE@, 32, j, j + 1);
    let d = POW2_TABLE@[i + 1] - POW2_TABLE@[i];
    let e = POW2_TABLE@[j + 1] - POW2_TABLE@[j];
    if i < j {
        lemma_rising(POW2_TABLE@, 32, i + 1, j);
        assert(d * a <= d * 32768 && 0 <= e * b) by (nonlinear_arith)
            requires
                0 <= d,
                0 <= e,
                a <= 32768,
                0 <= b,
        ;
    } else {
        assert(d * a <= d * b) by (nonlinear_arith)
            requires
                0 <= d,
                a <= b,
        ;
    }
}

/// A power of two rises with its fraction, from the power of its exponent to
/// at most the next.
pub proof fn law_power_rises(exponent: i16, fraction: Word16, larger: Word16)
    requires
        0 <= exponent <= 30,
        0 <= fraction.0 <= larger.0,
    ensures
        pow2(exponent, fraction).0 <= pow2(exponent, larger).0,
        vstd::arithmetic::power2::pow2(exponent as nat) <= pow2(exponent, fraction).0,
        pow2(exponent, larger).0 <= 2 * vstd::arithmetic::power2::pow2(exponent as nat),
        exponent <= 14 ==> pow2(exponent, larger).0 <= 32767,
{
    lemma_power_value(exponent, fraction);
    lemma_power_value(exponent, larger);
    lemma_mantissas_rise(fraction, larger);
    vstd::arithmetic::power2::lemma2_to64();
    let n = (30 - exponent) as i16;
    let x = power_mantissa(fraction);
    let y = power_mantissa(larger);
    let w = vstd::arithmetic::power2::pow2(exponent as nat) as int;
    vstd::arithmetic::power2::lemma_pow2_pos(exponent as nat);
    if n == 0 {
        reveal(crate::fixed_point::spec_l_shr_r);
        lemma_l_shr(Word32(x as i32), 0, 1);
        lemma_l_shr(Word32(y as i32), 0, 1);
    } else {
        reveal(crate::fixed_point::spec_l_shr_r);
        let p = vstd::arithmetic::power2::pow2(n as nat) as int;
        let h = vstd::arithmetic::power2::pow2((n - 1) as nat) as int;
        vstd::arithmetic::power2::lemma_pow2_unfold(n as nat);
        vstd::arithmetic::power2::lemma_pow2_pos((n - 1) as nat);
        vstd::arithmetic::power2::lemma_pow2_adds(exponent as nat, n as nat);
        assert(w * p == 0x4000_0000 && p == 2 * h);
        assert(w <= (x + h) / p <= (y + h) / p && (y + h) / p <= 2 * w) by (nonlinear_arith)
            requires
                w * p == 0x4000_0000,
                p == 2 * h,
                h >= 1,
                w >= 1,
                0x4000_0000 <= x <= y,
                y <= 0x7fff_0000,
        ;
        assert(0 <= w <= 0x4000_0000) by (nonlinear_arith)
            requires
                w * p == 0x4000_0000,
                p >= 1,
                w >= 1,
        ;
        if exponent <= 14 {
            if exponent < 14 {
                vstd::arithmetic::power2::lemma_pow2_strictly_increases(exponent as nat, 14);
            }
            assert(p >= 65536) by (nonlinear_arith)
                requires
                    w * p == 0x4000_0000,
                    0 < w <= 16384,
            ;
            assert((y + h) / p <= 32767) by (nonlinear_arith)
                requires
                    0 <= y <= 65536 * 32767,
                    p >= 65536,
                    p == 2 * h,
            ;
        }
    }
}

/// Scaling up multiplies and saturates; scaling down divides and rounds.
pub proof fn law_scaling_is_by_powers(x: Word16, n: i16)
    requires
        0 <= n <= 15,
    ensures
        ({
            let p = vstd::arithmetic::power2::pow2(n as nat) as int;
            let up = x.0 * p;
            let down = scaled(x, (-n) as i16).0;
            &&& -32768 <= up <= 32767 ==> scaled(x, n).0 == up
            &&& up > 32767 ==> scaled(x, n).0 == 32767
            &&& up < -32768 ==> scaled(x, n).0 == -32768
            &&& 2 * (down * p) <= 2 * x.0 + p
            &&& 2 * x.0 < 2 * (down * p) + p
        }),
{
    reveal(crate::fixed_point::spec_l_deposit_h);
    reveal(crate::fixed_point::spec_l_shl);
    reveal(crate::fixed_point::spec_round);
    reveal(crate::fixed_point::spec_extract_h);
    reveal(crate::fixed_point::spec_l_add);
    vstd::arithmetic::power2::lemma2_to64();
    let v = x.0 as int;
    let p = vstd::arithmetic::power2::pow2(n as nat) as int;
    vstd::arithmetic::power2::lemma_pow2_pos(n as nat);
    assert((65536 * v) * p == 65536 * (v * p)) by (nonlinear_arith);
    if n == 0 {
        assert(v * 1 == v);
        assert(scaled(x, 0).0 == v);
        assert(v * p == v);
    } else {
        let k = vstd::arithmetic::power2::pow2((16 - n) as nat) as int;
        vstd::arithmetic::power2::lemma_pow2_adds((16 - n) as nat, n as nat);
        vstd::arithmetic::power2::lemma_pow2_pos((16 - n) as nat);
        assert(k * p == 65536);
        assert((65536 * v) / p == k * v && -0x8000_0000 <= k * v <= 0x7fff_0000) by (nonlinear_arith)
            requires
                k * p == 65536,
                p >= 2,
                k >= 2,
                -32768 <= v <= 32767,
        ;
        let down = scaled(x, (-n) as i16).0 as int;
        assert(k >= 2 && k <= 32768) by (nonlinear_arith)
            requires
                k * p == 65536,
                p >= 2,
                2 <= k,
        ;
        assert(-0x4000_0000 <= k * v <= 0x4000_0000) by (nonlinear_arith)
            requires
                2 <= k <= 32768,
                -32768 <= v <= 32767,
        ;
        assert(down == (k * v + 32768) / 65536);
        assert(65536 * down <= k * v + 32768 < 65536 * down + 65536);
        assert(2 * (down * p) <= 2 * v + p && 2 * v < 2 * (down * p) + p) by (nonlinear_arith)
            requires
                k * p == 65536,
                k >= 2,
                p >= 2,
                65536 * down <= k * v + 32768 < 65536 * down + 65536,
        ;
    }
}

} // verus!
