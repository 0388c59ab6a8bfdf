//! The 16- and 32-bit saturating basic operators.
//!
//! Each operator has a specification over mathematical integers: compute
//! exactly, then saturate or floor. The specifications are opaque, so that a
//! filter built out of hundreds of operators is reasoned about as a term over
//! them; the lemmas at the end of the file say what callers need of ranges.

use vstd::prelude::*;
use vstd::arithmetic::power2::pow2;
use vstd::arithmetic::power2::{
    lemma2_to64, lemma_pow2_adds, lemma_pow2_pos, lemma_pow2_strictly_increases, lemma_pow2_unfold,
};

verus! {

/// A 16-bit signal word.
#[derive(Clone, Copy, Debug, PartialEq, Eq, Structural)]
pub struct Word16(pub i16);

/// A 32-bit accumulator word.
#[derive(Clone, Copy, Debug, PartialEq, Eq, Structural)]
pub struct Word32(pub i32);

/// The arithmetic context that stages carry.
///
/// Every operator of this codec saturates, whatever the context, and no stage
/// asks whether one did: the context has no state.
#[derive(Clone, Copy, Debug, PartialEq, Eq, Structural)]
pub struct DspContext {}

impl DspContext {
    /// A fresh context.
    pub fn new() -> (ctx: DspContext)
        ensures
            ctx == (DspContext {}),
    {
        DspContext {  }
    }
}

impl Default for DspContext {
    fn default() -> (ctx: DspContext)
        ensures
            ctx == (DspContext {}),
    {
        DspContext {  }
    }
}

impl Default for Word16 {
    fn default() -> (w: Word16)
        ensures
            w == Word16(0),
    {
        Word16(0)
    }
}

impl Default for Word32 {
    fn default() -> (w: Word32)
        ensures
            w == Word32(0),
    {
        Word32(0)
    }
}

/// The nearest 16-bit value.
pub open spec fn sat16(x: int) -> i16 {
    if x > 32767 {
        32767i16
    } else if x < -32768 {
        -32768i16
    } else {
        x as i16
    }
}

/// The nearest 32-bit value.
pub open spec fn sat32(x: int) -> i32 {
    if x > 0x7fff_ffff {
        0x7fff_ffffi32
    } else if x < -0x8000_0000 {
        -0x8000_0000i32
    } else {
        x as i32
    }
}

fn saturate16(x: i32) -> (r: i16)
    ensures
        r == sat16(x as int),
{
    if x > 32767 {
        32767
    } else if x < -32768 {
        -32768
    } else {
        x as i16
    }
}

fn saturate32(x: i64) -> (r: i32)
    ensures
        r == sat32(x as int),
{
    if x > 0x7fff_ffff {
        0x7fff_ffff
    } else if x < -0x8000_0000 {
        -0x8000_0000
    } else {
        x as i32
    }
}

/// `2^n`.
fn power(n: u32) -> (p: i64)
    requires
        n <= 32,
    ensures
        p == pow2(n as nat),
        1 <= p <= 0x1_0000_0000,
{
    let mut p: i64 = 1;
    let mut i: u32 = 0;
    proof {
        lemma2_to64();
    }
    while i < n
        invariant
            i <= n <= 32,
            p == pow2(i as nat),
            1 <= p <= 0x1_0000_0000,
        decreases n - i,
    {
        proof {
            lemma2_to64();
            lemma_pow2_adds(i as nat, 1);
            if i < 31 {
                lemma_pow2_strictly_increases((i + 1) as nat, 32);
            }
        }
        p = p * 2;
        i = i + 1;
    }
    p
}

/// Quotient rounded towards negative infinity.
fn floor_div(x: i64, p: i64) -> (q: i64)
    requires
        -0x8000_0000_0000 <= x <= 0x8000_0000_0000,
        1 <= p <= 0x1_0000_0000,
    ensures
        q == x as int / p as int,
{
    if x >= 0 {
        let q: u64 = (x as u64) / (p as u64);
        proof {
            assert(0 <= x as int / p as int <= x) by (nonlinear_arith)
                requires
                    x >= 0,
                    p >= 1,
            ;
        }
        q as i64
    } else {
        let m: i64 = -1 - x;
        let q: u64 = (m as u64) / (p as u64);
        proof {
            assert(0 <= m as int / p as int <= m) by (nonlinear_arith)
                requires
                    m >= 0,
                    p >= 1,
            ;
            assert(x as int / p as int == -1 - m as int / p as int) by (nonlinear_arith)
                requires
                    m == -1 - x,
                    p >= 1,
            ;
        }
        -1 - q as i64
    }
}

// ---------------------------------------------------------------------------
// Specifications
// ---------------------------------------------------------------------------

/// Saturating 16-bit sum.
#[verifier::opaque]
pub open spec fn spec_add_s(a: Word16, b: Word16) -> Word16 {
    Word16(sat16(a.0 + b.0))
}

/// Saturating 16-bit difference.
#[verifier::opaque]
pub open spec fn spec_sub_s(a: Word16, b: Word16) -> Word16 {
    Word16(sat16(a.0 - b.0))
}

/// Q15 product, floored.
#[verifier::opaque]
pub open spec fn spec_mult(a: Word16, b: Word16) -> Word16 {
    Word16(sat16((a.0 * b.0) / 32768))
}

/// Q15 product, rounded.
#[verifier::opaque]
pub open spec fn spec_mult_r(a: Word16, b: Word16) -> Word16 {
    Word16(sat16((a.0 * b.0 + 16384) / 32768))
}

/// Saturating negation.
#[verifier::opaque]
pub open spec fn spec_negate(a: Word16) -> Word16 {
    Word16(sat16(-a.0))
}

/// Saturating magnitude.
#[verifier::opaque]
pub open spec fn spec_abs_s(a: Word16) -> Word16 {
    Word16(sat16(if a.0 < 0 { -a.0 } else { a.0 as int }))
}

/// Upper half of an accumulator.
#[verifier::opaque]
pub open spec fn spec_extract_h(x: Word32) -> Word16 {
    Word16((x.0 as int / 65536) as i16)
}

/// Lower half of an accumulator, as a signed word.
#[verifier::opaque]
pub open spec fn spec_extract_l(x: Word32) -> Word16 {
    let low = x.0 as int % 65536;
    Word16((if low >= 32768 { low - 65536 } else { low }) as i16)
}

/// A word in the upper half of an accumulator.
#[verifier::opaque]
pub open spec fn spec_l_deposit_h(a: Word16) -> Word32 {
    Word32((a.0 * 65536) as i32)
}

/// A word in the lower half of an accumulator, sign extended.
#[verifier::opaque]
pub open spec fn spec_l_deposit_l(a: Word16) -> Word32 {
    Word32(a.0 as i32)
}

/// Saturating 32-bit sum.
#[verifier::opaque]
pub open spec fn spec_l_add(x: Word32, y: Word32) -> Word32 {
    Word32(sat32(x.0 + y.0))
}

/// Saturating 32-bit difference.
#[verifier::opaque]
pub open spec fn spec_l_sub(x: Word32, y: Word32) -> Word32 {
    Word32(sat32(x.0 - y.0))
}

/// Saturating 32-bit negation.
#[verifier::opaque]
pub open spec fn spec_l_negate(x: Word32) -> Word32 {
    Word32(sat32(-x.0))
}

/// Saturating 32-bit magnitude.
#[verifier::opaque]
pub open spec fn spec_l_abs(x: Word32) -> Word32 {
    Word32(sat32(if x.0 < 0 { -x.0 } else { x.0 as int }))
}

/// Doubled product.
#[verifier::opaque]
pub open spec fn spec_l_mult(a: Word16, b: Word16) -> Word32 {
    Word32(sat32(2 * (a.0 * b.0)))
}

/// Multiply and accumulate.
#[verifier::opaque]
pub open spec fn spec_l_mac(acc: Word32, a: Word16, b: Word16) -> Word32 {
    l_add(acc, l_mult(a, b))
}

/// Multiply and subtract.
#[verifier::opaque]
pub open spec fn spec_l_msu(acc: Word32, a: Word16, b: Word16) -> Word32 {
    l_sub(acc, l_mult(a, b))
}

/// Upper half after rounding.
#[verifier::opaque]
pub open spec fn spec_round(x: Word32) -> Word16 {
    extract_h(l_add(x, Word32(0x8000)))
}

/// Saturating 16-bit left shift; a negative count shifts right.
#[verifier::opaque]
pub open spec fn spec_shl(a: Word16, n: i16) -> Word16 {
    if n >= 0 {
        Word16(sat16(a.0 * pow2(n as nat)))
    } else {
        Word16((a.0 as int / pow2((-n) as nat) as int) as i16)
    }
}

/// Arithmetic 16-bit right shift; a negative count shifts left.
#[verifier::opaque]
pub open spec fn spec_shr(a: Word16, n: i16) -> Word16 {
    if n >= 0 {
        Word16((a.0 as int / pow2(n as nat) as int) as i16)
    } else {
        Word16(sat16(a.0 * pow2((-n) as nat)))
    }
}

/// Arithmetic 16-bit right shift, rounded half up; nothing is left of a word
/// shifted by more than fifteen.
#[verifier::opaque]
pub open spec fn spec_shr_r(a: Word16, n: i16) -> Word16 {
    if n > 15 {
        Word16(0)
    } else if n > 0 {
        Word16(((a.0 + pow2((n - 1) as nat)) / pow2(n as nat) as int) as i16)
    } else {
        shr(a, n)
    }
}

/// Arithmetic 32-bit right shift, rounded half up; nothing is left of an
/// accumulator shifted by more than thirty-one.
#[verifier::opaque]
pub open spec fn spec_l_shr_r(x: Word32, n: i16) -> Word32 {
    if n > 31 {
        Word32(0)
    } else if n > 0 {
        Word32(((x.0 + pow2((n - 1) as nat)) / pow2(n as nat) as int) as i32)
    } else {
        l_shr(x, n)
    }
}

/// Saturating 32-bit left shift; a negative count shifts right.
#[verifier::opaque]
pub open spec fn spec_l_shl(x: Word32, n: i16) -> Word32 {
    if n >= 0 {
        Word32(sat32(x.0 * pow2(n as nat)))
    } else {
        Word32((x.0 as int / pow2((-n) as nat) as int) as i32)
    }
}

/// Arithmetic 32-bit right shift; a negative count shifts left.
#[verifier::opaque]
pub open spec fn spec_l_shr(x: Word32, n: i16) -> Word32 {
    if n >= 0 {
        Word32((x.0 as int / pow2(n as nat) as int) as i32)
    } else {
        Word32(sat32(x.0 * pow2((-n) as nat)))
    }
}

/// How often `m` can be doubled before it reaches `half`.
pub open spec fn doublings(m: int, half: int) -> int
    decreases
        if m < half {
            half - m
        } else {
            0
        },
{
    if 0 < m < half {
        1 + doublings(2 * m, half)
    } else {
        0
    }
}

/// The left shift that normalises a 16-bit word; 0 for zero.
#[verifier::opaque]
pub open spec fn spec_norm_s(a: Word16) -> i16 {
    if a.0 == -1 {
        15
    } else if a.0 < 0 {
        doublings(-1 - a.0, 0x4000) as i16
    } else {
        doublings(a.0 as int, 0x4000) as i16
    }
}

/// The left shift that normalises a 32-bit word; 0 for zero.
#[verifier::opaque]
pub open spec fn spec_norm_l(x: Word32) -> i16 {
    if x.0 == -1 {
        31
    } else if x.0 < 0 {
        doublings(-1 - x.0, 0x4000_0000) as i16
    } else {
        doublings(x.0 as int, 0x4000_0000) as i16
    }
}

/// Q15 quotient of a proper fraction.
#[verifier::opaque]
pub open spec fn spec_div_s(num: Word16, den: Word16) -> Word16 {
    if num.0 == den.0 {
        Word16(32767)
    } else {
        Word16(((num.0 * 32768) / den.0 as int) as i16)
    }
}

/// The double-precision split of an accumulator.
#[verifier::opaque]
pub open spec fn spec_l_extract(x: Word32) -> (Word16, Word16) {
    (Word16((x.0 as int / 65536) as i16), Word16(((x.0 as int % 65536) / 2) as i16))
}

/// The accumulator of a double-precision split.
#[verifier::opaque]
pub open spec fn spec_l_comp(hi: Word16, lo: Word16) -> Word32 {
    l_mac(l_deposit_h(hi), lo, Word16(1))
}

/// Product of two double-precision numbers.
#[verifier::opaque]
pub open spec fn spec_mpy_32(h1: Word16, l1: Word16, h2: Word16, l2: Word16) -> Word32 {
    l_mac(l_mac(l_mult(h1, h2), mult(h1, l2), Word16(1)), mult(l1, h2), Word16(1))
}

/// Product of a double-precision number and a word.
#[verifier::opaque]
pub open spec fn spec_mpy_32_16(hi: Word16, lo: Word16, n: Word16) -> Word32 {
    l_mac(l_mult(hi, n), mult(lo, n), Word16(1))
}

/// Quotient of an accumulator by a normalised double-precision number: one
/// Newton step on a 16-bit reciprocal.
#[verifier::opaque]
pub open spec fn spec_div_32(num: Word32, hi: Word16, lo: Word16) -> Word32 {
    let approx = div_s(Word16(0x3fff), hi);
    let error = l_sub(Word32(0x7fff_ffff), mpy_32_16(hi, lo, approx));
    let (e_hi, e_lo) = l_extract(error);
    let (r_hi, r_lo) = l_extract(mpy_32_16(e_hi, e_lo, approx));
    let (n_hi, n_lo) = l_extract(num);
    l_shl(mpy_32(n_hi, n_lo, r_hi, r_lo), 2)
}

// ---------------------------------------------------------------------------
// Operators
// ---------------------------------------------------------------------------

/// Saturating 16-bit sum.
#[verifier::when_used_as_spec(spec_add_s)]
pub fn add_s(a: Word16, b: Word16) -> (r: Word16)
    ensures
        r == spec_add_s(a, b),
{
    proof {
        reveal(spec_add_s);
    }
    Word16(saturate16(a.0 as i32 + b.0 as i32))
}

/// Saturating 16-bit difference.
#[verifier::when_used_as_spec(spec_sub_s)]
pub fn sub_s(a: Word16, b: Word16) -> (r: Word16)
    ensures
        r == spec_sub_s(a, b),
{
    proof {
        reveal(spec_sub_s);
    }
    Word16(saturate16(a.0 as i32 - b.0 as i32))
}

proof fn lemma_product_range(a: i16, b: i16)
    ensures
        -0x4000_0000 <= a * b <= 0x4000_0000,
{
    assert(-0x4000_0000 <= a * b <= 0x4000_0000) by (nonlinear_arith)
        requires
            -32768 <= a <= 32767,
            -32768 <= b <= 32767,
    ;
}

/// Q15 product, floored.
#[verifier::when_used_as_spec(spec_mult)]
pub fn mult(a: Word16, b: Word16) -> (r: Word16)
    ensures
        r == spec_mult(a, b),
{
    proof {
        reveal(spec_mult);
        lemma_product_range(a.0, b.0);
    }
    let p: i32 = a.0 as i32 * b.0 as i32;
    Word16(saturate16(floor_div(p as i64, 32768) as i32))
}

/// Q15 product, rounded.
#[verifier::when_used_as_spec(spec_mult_r)]
pub fn mult_r(a: Word16, b: Word16) -> (r: Word16)
    ensures
        r == spec_mult_r(a, b),
{
    proof {
        reveal(spec_mult_r);
        lemma_product_range(a.0, b.0);
    }
    let p: i32 = a.0 as i32 * b.0 as i32;
    Word16(saturate16(floor_div(p as i64 + 16384, 32768) as i32))
}

/// Saturating negation.
#[verifier::when_used_as_spec(spec_negate)]
pub fn negate(a: Word16) -> (r: Word16)
    ensures
        r == spec_negate(a),
{
    proof {
        reveal(spec_negate);
    }
    Word16(saturate16(-(a.0 as i32)))
}

/// Saturating magnitude.
#[verifier::when_used_as_spec(spec_abs_s)]
pub fn abs_s(a: Word16) -> (r: Word16)
    ensures
        r == spec_abs_s(a),
{
    proof {
        reveal(spec_abs_s);
    }
    if a.0 < 0 {
        Word16(saturate16(-(a.0 as i32)))
    } else {
        a
    }
}

/// Upper half of an accumulator.
#[verifier::when_used_as_spec(spec_extract_h)]
pub fn extract_h(x: Word32) -> (r: Word16)
    ensures
        r == spec_extract_h(x),
{
    proof {
        reveal(spec_extract_h);
    }
    Word16(floor_div(x.0 as i64, 65536) as i16)
}

/// Lower half of an accumulator, as a signed word.
#[verifier::when_used_as_spec(spec_extract_l)]
pub fn extract_l(x: Word32) -> (r: Word16)
    ensures
        r == spec_extract_l(x),
{
    proof {
        reveal(spec_extract_l);
    }
    let high: i64 = floor_div(x.0 as i64, 65536);
    let low: i64 = x.0 as i64 - high * 65536;
    if low >= 32768 {
        Word16((low - 65536) as i16)
    } else {
        Word16(low as i16)
    }
}

/// A word in the upper half of an accumulator.
#[verifier::when_used_as_spec(spec_l_deposit_h)]
pub fn l_deposit_h(a: Word16) -> (r: Word32)
    ensures
        r == spec_l_deposit_h(a),
{
    proof {
        reveal(spec_l_deposit_h);
    }
    Word32(a.0 as i32 * 65536)
}

/// A word in the lower half of an accumulator, sign extended.
#[verifier::when_used_as_spec(spec_l_deposit_l)]
pub fn l_deposit_l(a: Word16) -> (r: Word32)
    ensures
        r == spec_l_deposit_l(a),
{
    proof {
        reveal(spec_l_deposit_l);
    }
    Word32(a.0 as i32)
}

/// Saturating 32-bit sum.
#[verifier::when_used_as_spec(spec_l_add)]
pub fn l_add(x: Word32, y: Word32) -> (r: Word32)
    ensures
        r == spec_l_add(x, y),
{
    proof {
        reveal(spec_l_add);
    }
    Word32(saturate32(x.0 as i64 + y.0 as i64))
}

/// Saturating 32-bit difference.
#[verifier::when_used_as_spec(spec_l_sub)]
pub fn l_sub(x: Word32, y: Word32) -> (r: Word32)
    ensures
        r == spec_l_sub(x, y),
{
    proof {
        reveal(spec_l_sub);
    }
    Word32(saturate32(x.0 as i64 - y.0 as i64))
}

/// Saturating 32-bit negation.
#[verifier::when_used_as_spec(spec_l_negate)]
pub fn l_negate(x: Word32) -> (r: Word32)
    ensures
        r == spec_l_negate(x),
{
    proof {
        reveal(spec_l_negate);
    }
    Word32(saturate32(-(x.0 as i64)))
}

/// Saturating 32-bit magnitude.
#[verifier::when_used_as_spec(spec_l_abs)]
pub fn l_abs(x: Word32) -> (r: Word32)
    ensures
        r == spec_l_abs(x),
{
    proof {
        reveal(spec_l_abs);
    }
    if x.0 < 0 {
        Word32(saturate32(-(x.0 as i64)))
    } else {
        x
    }
}

/// Doubled product.
#[verifier::when_used_as_spec(spec_l_mult)]
pub fn l_mult(a: Word16, b: Word16) -> (r: Word32)
    ensures
        r == spec_l_mult(a, b),
{
    proof {
        reveal(spec_l_mult);
        lemma_product_range(a.0, b.0);
    }
    let p: i32 = a.0 as i32 * b.0 as i32;
    Word32(saturate32(2 * p as i64))
}

/// Multiply and accumulate.
#[verifier::when_used_as_spec(spec_l_mac)]
pub fn l_mac(acc: Word32, a: Word16, b: Word16) -> (r: Word32)
    ensures
        r == spec_l_mac(acc, a, b),
{
    proof {
        reveal(spec_l_mac);
    }
    l_add(acc, l_mult(a, b))
}

/// Multiply and subtract.
#[verifier::when_used_as_spec(spec_l_msu)]
pub fn l_msu(acc: Word32, a: Word16, b: Word16) -> (r: Word32)
    ensures
        r == spec_l_msu(acc, a, b),
{
    proof {
        reveal(spec_l_msu);
    }
    l_sub(acc, l_mult(a, b))
}

/// Upper half after rounding.
#[verifier::when_used_as_spec(spec_round)]
pub fn round(x: Word32) -> (r: Word16)
    ensures
        r == spec_round(x),
{
    proof {
        reveal(spec_round);
    }
    extract_h(l_add(x, Word32(0x8000)))
}

proof fn lemma_pow2_at_least(n: nat, k: nat)
    requires
        k <= n,
    ensures
        pow2(k) <= pow2(n),
        pow2(k) > 0,
{
    lemma_pow2_pos(k);
    if k < n {
        lemma_pow2_strictly_increases(k, n);
    }
}

/// `sat32(x * 2^n)`.
fn scale_up(x: i32, n: u32) -> (r: i32)
    ensures
        r == sat32(x * pow2(n as nat)),
{
    if n >= 32 {
        proof {
            lemma2_to64();
            lemma_pow2_at_least(n as nat, 32);
            let p = pow2(n as nat) as int;
            assert(x > 0 ==> x * p >= p) by (nonlinear_arith)
                requires
                    p > 0,
            ;
            assert(x < 0 ==> x * p <= -p) by (nonlinear_arith)
                requires
                    p > 0,
            ;
            assert(x == 0 ==> x * p == 0) by (nonlinear_arith);
        }
        if x > 0 {
            0x7fff_ffff
        } else if x < 0 {
            -0x8000_0000
        } else {
            0
        }
    } else {
        let p: i64 = power(n);
        assert(-0x8000_0000_0000_0000 <= x * p <= 0x7fff_ffff_ffff_ffff) by (nonlinear_arith)
            requires
                -0x8000_0000 <= x <= 0x7fff_ffff,
                1 <= p <= 0x1_0000_0000,
        ;
        saturate32(x as i64 * p)
    }
}

/// `x / 2^n`, floored.
fn scale_down(x: i32, n: u32) -> (r: i32)
    ensures
        r == x as int / pow2(n as nat) as int,
{
    if n >= 32 {
        proof {
            lemma2_to64();
            lemma_pow2_at_least(n as nat, 32);
            let p = pow2(n as nat) as int;
            assert(x >= 0 ==> x as int / p == 0) by (nonlinear_arith)
                requires
                    x <= 0x7fff_ffff,
                    p >= 0x1_0000_0000,
            ;
            assert(x < 0 ==> x as int / p == -1) by (nonlinear_arith)
                requires
                    x >= -0x8000_0000,
                    p >= 0x1_0000_0000,
            ;
        }
        if x < 0 {
            -1
        } else {
            0
        }
    } else {
        let p: i64 = power(n);
        proof {
            assert(-0x8000_0000 <= x as int / p as int <= 0x7fff_ffff) by (nonlinear_arith)
                requires
                    -0x8000_0000 <= x <= 0x7fff_ffff,
                    p >= 1,
            ;
        }
        floor_div(x as i64, p) as i32
    }
}

proof fn lemma_floor_in_i16(x: i16, n: nat)
    ensures
        -32768 <= x as int / pow2(n) as int <= 32767,
{
    lemma_pow2_pos(n);
    let p = pow2(n) as int;
    assert(-32768 <= x as int / p <= 32767) by (nonlinear_arith)
        requires
            -32768 <= x <= 32767,
            p >= 1,
    ;
}

/// Saturating 16-bit left shift; a negative count shifts right.
#[verifier::when_used_as_spec(spec_shl)]
pub fn shl(a: Word16, n: i16) -> (r: Word16)
    ensures
        r == spec_shl(a, n),
{
    proof {
        reveal(spec_shl);
    }
    if n >= 0 {
        Word16(saturate16(scale_up(a.0 as i32, n as u32)))
    } else {
        proof {
            lemma_floor_in_i16(a.0, (-n) as nat);
        }
        Word16(scale_down(a.0 as i32, (-(n as i32)) as u32) as i16)
    }
}

/// Arithmetic 16-bit right shift; a negative count shifts left.
#[verifier::when_used_as_spec(spec_shr)]
pub fn shr(a: Word16, n: i16) -> (r: Word16)
    ensures
        r == spec_shr(a, n),
{
    proof {
        reveal(spec_shr);
    }
    if n >= 0 {
        proof {
            lemma_floor_in_i16(a.0, n as nat);
        }
        Word16(scale_down(a.0 as i32, n as u32) as i16)
    } else {
        Word16(saturate16(scale_up(a.0 as i32, (-(n as i32)) as u32)))
    }
}

/// Saturating 32-bit left shift; a negative count shifts right.
#[verifier::when_used_as_spec(spec_l_shl)]
pub fn l_shl(x: Word32, n: i16) -> (r: Word32)
    ensures
        r == spec_l_shl(x, n),
{
    proof {
        reveal(spec_l_shl);
    }
    if n >= 0 {
        Word32(scale_up(x.0, n as u32))
    } else {
        Word32(scale_down(x.0, (-(n as i32)) as u32))
    }
}

/// Arithmetic 32-bit right shift; a negative count shifts left.
#[verifier::when_used_as_spec(spec_l_shr)]
pub fn l_shr(x: Word32, n: i16) -> (r: Word32)
    ensures
        r == spec_l_shr(x, n),
{
    proof {
        reveal(spec_l_shr);
    }
    if n >= 0 {
        Word32(scale_down(x.0, n as u32))
    } else {
        Word32(scale_up(x.0, (-(n as i32)) as u32))
    }
}

/// `floor((x + 2^(n-1)) / 2^n)` stays in a 32-bit word.
proof fn lemma_rounded_range(x: int, n: nat, m: int)
    requires
        1 <= n <= 31,
        -m <= x < m,
        m >= 1,
    ensures
        -m <= (x + pow2((n - 1) as nat)) / pow2(n) as int <= m,
        n >= 1 && m >= 2 ==> (x + pow2((n - 1) as nat)) / pow2(n) as int <= m - 1,
        pow2(n) == 2 * pow2((n - 1) as nat),
        pow2(n) <= 0x8000_0000,
{
    lemma2_to64();
    lemma_pow2_pos((n - 1) as nat);
    lemma_pow2_adds((n - 1) as nat, 1);
    lemma_pow2_at_least(31, n);
    let h = pow2((n - 1) as nat) as int;
    assert(-m <= (x + h) / (2 * h) <= m && (m >= 2 ==> (x + h) / (2 * h) <= m - 1)) by (nonlinear_arith)
        requires
            -m <= x < m,
            m >= 1,
            h >= 1,
    ;
}

/// Arithmetic 16-bit right shift, rounded half up.
#[verifier::when_used_as_spec(spec_shr_r)]
pub fn shr_r(a: Word16, n: i16) -> (r: Word16)
    ensures
        r == spec_shr_r(a, n),
{
    proof {
        reveal(spec_shr_r);
    }
    if n > 15 {
        Word16(0)
    } else if n > 0 {
        let half: i64 = power((n - 1) as u32);
        let whole: i64 = power(n as u32);
        proof {
            lemma_rounded_range(a.0 as int, n as nat, 32768);
        }
        Word16(floor_div(a.0 as i64 + half, whole) as i16)
    } else {
        shr(a, n)
    }
}

/// Arithmetic 32-bit right shift, rounded half up.
#[verifier::when_used_as_spec(spec_l_shr_r)]
pub fn l_shr_r(x: Word32, n: i16) -> (r: Word32)
    ensures
        r == spec_l_shr_r(x, n),
{
    proof {
        reveal(spec_l_shr_r);
    }
    if n > 31 {
        Word32(0)
    } else if n > 0 {
        let half: i64 = power((n - 1) as u32);
        let whole: i64 = power(n as u32);
        proof {
            lemma_rounded_range(x.0 as int, n as nat, 0x8000_0000);
        }
        Word32(floor_div(x.0 as i64 + half, whole) as i32)
    } else {
        l_shr(x, n)
    }
}

proof fn lemma_doublings_bound(m: int, half: int, k: nat)
    requires
        0 < m,
        m * pow2(k) >= half,
    ensures
        0 <= doublings(m, half) <= k,
    decreases k,
{
    if m < half {
        assert(k > 0) by {
            if k == 0 {
                lemma2_to64();
                assert(m * 1 == m) by (nonlinear_arith);
            }
        }
        lemma2_to64();
        lemma_pow2_adds(1, (k - 1) as nat);
        let q = pow2((k - 1) as nat) as int;
        assert(m * (2 * q) == (2 * m) * q) by (nonlinear_arith);
        lemma_doublings_bound(2 * m, half, (k - 1) as nat);
    }
}

proof fn lemma_doublings_nonnegative(m: int, half: int)
    ensures
        doublings(m, half) >= 0,
    decreases
        if m < half {
            half - m
        } else {
            0
        },
{
    if 0 < m < half {
        lemma_doublings_nonnegative(2 * m, half);
    }
}

/// Count the doublings of `m` below `half`.
fn count_doublings(m: i32, half: i32) -> (n: i16)
    requires
        0 <= m,
        half == 0x4000 || half == 0x4000_0000,
    ensures
        n == doublings(m as int, half as int),
        0 <= n <= 30,
{
    if m == 0 {
        return 0;
    }
    proof {
        lemma2_to64();
        assert(m * 0x4000_0000 >= half) by (nonlinear_arith)
            requires
                m >= 1,
                half <= 0x4000_0000,
        ;
        lemma_doublings_bound(m as int, half as int, 30);
    }
    let mut v: i32 = m;
    let mut n: i16 = 0;
    while v < half
        invariant
            0 < v,
            half == 0x4000 || half == 0x4000_0000,
            n >= 0,
            0 <= doublings(v as int, half as int) <= 30 - n,
            n + doublings(v as int, half as int) == doublings(m as int, half as int),
        decreases doublings(v as int, half as int),
    {
        proof {
            lemma_doublings_nonnegative(2 * v as int, half as int);
        }
        v = v * 2;
        n = n + 1;
    }
    n
}

/// The left shift that normalises a 16-bit word; 0 for zero.
#[verifier::when_used_as_spec(spec_norm_s)]
pub fn norm_s(a: Word16) -> (n: i16)
    ensures
        n == spec_norm_s(a),
        0 <= n <= 30,
{
    proof {
        reveal(spec_norm_s);
    }
    if a.0 == -1 {
        15
    } else if a.0 < 0 {
        count_doublings(-1 - a.0 as i32, 0x4000)
    } else {
        count_doublings(a.0 as i32, 0x4000)
    }
}

/// The left shift that normalises a 32-bit word; 0 for zero.
#[verifier::when_used_as_spec(spec_norm_l)]
pub fn norm_l(x: Word32) -> (n: i16)
    ensures
        n == spec_norm_l(x),
        0 <= n <= 31,
{
    proof {
        reveal(spec_norm_l);
    }
    if x.0 == -1 {
        31
    } else if x.0 < 0 {
        count_doublings(-1 - x.0, 0x4000_0000)
    } else {
        count_doublings(x.0, 0x4000_0000)
    }
}

/// Q15 quotient of a proper fraction.
#[verifier::when_used_as_spec(spec_div_s)]
pub fn div_s(num: Word16, den: Word16) -> (r: Word16)
    requires
        0 <= num.0 <= den.0,
        den.0 > 0,
    ensures
        r == spec_div_s(num, den),
        r.0 >= 0,
{
    proof {
        reveal(spec_div_s);
    }
    if num.0 == den.0 {
        Word16(32767)
    } else {
        proof {
            let n = num.0 as int;
            let d = den.0 as int;
            assert(0 <= (n * 32768) / d <= 32767) by (nonlinear_arith)
                requires
                    0 <= n < d,
            ;
        }
        Word16(((num.0 as u32 * 32768) / (den.0 as u32)) as i16)
    }
}

/// The double-precision split of an accumulator.
#[verifier::when_used_as_spec(spec_l_extract)]
pub fn l_extract(x: Word32) -> (r: (Word16, Word16))
    ensures
        r == spec_l_extract(x),
{
    proof {
        reveal(spec_l_extract);
    }
    let high: i64 = floor_div(x.0 as i64, 65536);
    let low: i64 = x.0 as i64 - high * 65536;
    (Word16(high as i16), Word16(((low as u64) / 2) as i16))
}

/// The accumulator of a double-precision split.
#[verifier::when_used_as_spec(spec_l_comp)]
pub fn l_comp(hi: Word16, lo: Word16) -> (r: Word32)
    ensures
        r == spec_l_comp(hi, lo),
{
    proof {
        reveal(spec_l_comp);
    }
    l_mac(l_deposit_h(hi), lo, Word16(1))
}

/// Product of two double-precision numbers.
#[verifier::when_used_as_spec(spec_mpy_32)]
pub fn mpy_32(h1: Word16, l1: Word16, h2: Word16, l2: Word16) -> (r: Word32)
    ensures
        r == spec_mpy_32(h1, l1, h2, l2),
{
    proof {
        reveal(spec_mpy_32);
    }
    let acc = l_mac(l_mult(h1, h2), mult(h1, l2), Word16(1));
    l_mac(acc, mult(l1, h2), Word16(1))
}

/// Product of a double-precision number and a word.
#[verifier::when_used_as_spec(spec_mpy_32_16)]
pub fn mpy_32_16(hi: Word16, lo: Word16, n: Word16) -> (r: Word32)
    ensures
        r == spec_mpy_32_16(hi, lo, n),
{
    proof {
        reveal(spec_mpy_32_16);
    }
    l_mac(l_mult(hi, n), mult(lo, n), Word16(1))
}

/// Quotient of an accumulator by a normalised double-precision number.
#[verifier::when_used_as_spec(spec_div_32)]
pub fn div_32(num: Word32, hi: Word16, lo: Word16) -> (r: Word32)
    requires
        hi.0 >= 0x3fff,
    ensures
        r == spec_div_32(num, hi, lo),
{
    proof {
        reveal(spec_div_32);
    }
    let approx = div_s(Word16(0x3fff), hi);
    let error = l_sub(Word32(0x7fff_ffff), mpy_32_16(hi, lo, approx));
    let (e_hi, e_lo) = l_extract(error);
    let (r_hi, r_lo) = l_extract(mpy_32_16(e_hi, e_lo, approx));
    let (n_hi, n_lo) = l_extract(num);
    l_shl(mpy_32(n_hi, n_lo, r_hi, r_lo), 2)
}

// ---------------------------------------------------------------------------
// Ranges
// ---------------------------------------------------------------------------

/// A right shift by a known count is a floored division by a known power.
pub proof fn lemma_l_shr(x: Word32, n: i16, p: int)
    requires
        0 <= n,
        p == pow2(n as nat),
    ensures
        l_shr(x, n).0 == x.0 as int / p,
{
    reveal(spec_l_shr);
    lemma_pow2_pos(n as nat);
    assert(-0x8000_0000 <= x.0 as int / p <= 0x7fff_ffff) by (nonlinear_arith)
        requires
            -0x8000_0000 <= x.0 <= 0x7fff_ffff,
            p >= 1,
    ;
}

proof fn lemma_doublings_reach(m: int, half: int)
    requires
        0 < m < 2 * half,
    ensures
        doublings(m, half) >= 0,
        half <= m * pow2(doublings(m, half) as nat) < 2 * half,
    decreases
        if m < half {
            half - m
        } else {
            0
        },
{
    lemma2_to64();
    if m < half {
        lemma_doublings_reach(2 * m, half);
        let d = doublings(2 * m, half) as nat;
        lemma_pow2_adds(1, d);
        let q = pow2(d) as int;
        assert(m * (2 * q) == (2 * m) * q) by (nonlinear_arith);
    } else {
        assert(m * 1 == m) by (nonlinear_arith);
    }
}

/// A positive accumulator shifted by its norm is normalised.
pub proof fn lemma_norm_l(x: Word32)
    ensures
        0 <= norm_l(x) <= 31,
        x.0 > 0 ==> l_shl(x, norm_l(x)).0 >= 0x4000_0000 && norm_l(x) <= 30,
        x.0 <= 0 ==> l_shl(x, norm_l(x)).0 <= 0,
{
    reveal(spec_norm_l);
    reveal(spec_l_shl);
    lemma2_to64();
    if x.0 > 0 {
        let m = x.0 as int;
        lemma_doublings_reach(m, 0x4000_0000);
        assert(m * 0x4000_0000 >= 0x4000_0000) by (nonlinear_arith)
            requires
                m >= 1,
        ;
        lemma_doublings_bound(m, 0x4000_0000, 30);
    } else {
        if x.0 < -1 {
            let m = -1 - x.0;
            assert(m * 0x4000_0000 >= 0x4000_0000) by (nonlinear_arith)
                requires
                    m >= 1,
            ;
            lemma_doublings_bound(m, 0x4000_0000, 30);
        }
        let p = pow2(norm_l(x) as nat) as int;
        lemma_pow2_pos(norm_l(x) as nat);
        assert(x.0 * p <= 0) by (nonlinear_arith)
            requires
                x.0 <= 0,
                p > 0,
        ;
    }
}

/// Normalising a positive accumulator loses nothing.
pub proof fn lemma_normalised(x: Word32)
    requires
        x.0 > 0,
    ensures
        0 <= norm_l(x) <= 30,
        l_shl(x, norm_l(x)).0 == x.0 * pow2(norm_l(x) as nat),
        l_shl(x, norm_l(x)).0 >= 0x4000_0000,
        pow2(norm_l(x) as nat) >= 1,
{
    lemma_norm_l(x);
    reveal(spec_norm_l);
    reveal(spec_l_shl);
    lemma2_to64();
    let m = x.0 as int;
    lemma_doublings_reach(m, 0x4000_0000);
    assert(m * 0x4000_0000 >= 0x4000_0000) by (nonlinear_arith)
        requires
            m >= 1,
    ;
    lemma_doublings_bound(m, 0x4000_0000, 30);
    lemma_pow2_pos(norm_l(x) as nat);
}

/// A positive word shifted by its norm is normalised.
pub proof fn lemma_norm_s(a: Word16)
    ensures
        0 <= norm_s(a) <= 15,
        a.0 > 0 ==> shl(a, norm_s(a)).0 >= 0x4000 && norm_s(a) <= 14,
{
    reveal(spec_norm_s);
    reveal(spec_shl);
    lemma2_to64();
    if a.0 > 0 {
        let m = a.0 as int;
        lemma_doublings_reach(m, 0x4000);
        assert(m * 0x4000 >= 0x4000) by (nonlinear_arith)
            requires
                m >= 1,
        ;
        lemma_doublings_bound(m, 0x4000, 14);
    } else if a.0 < -1 {
        let m = -1 - a.0;
        assert(m * 0x4000 >= 0x4000) by (nonlinear_arith)
            requires
                m >= 1,
        ;
        lemma_doublings_bound(m, 0x4000, 14);
    }
}

/// Accumulating a square does not lower an accumulator that is not negative.
pub proof fn lemma_square_grows(acc: Word32, a: Word16)
    requires
        acc.0 >= 0,
    ensures
        l_mac(acc, a, a).0 >= acc.0,
{
    reveal(spec_l_mac);
    reveal(spec_l_add);
    reveal(spec_l_mult);
    let v = a.0 as int;
    assert(v * v >= 0) by (nonlinear_arith);
}

/// Shifting keeps a value that is not negative so.
pub proof fn lemma_shift_nonnegative(x: Word32, n: i16)
    requires
        x.0 >= 0,
    ensures
        l_shl(x, n).0 >= 0,
        l_shr(x, n).0 >= 0,
{
    reveal(spec_l_shl);
    reveal(spec_l_shr);
    let v = x.0 as int;
    let k = if n >= 0 {
        n as nat
    } else {
        (-n) as nat
    };
    lemma_pow2_pos(k);
    let p = pow2(k) as int;
    assert(v * p >= 0 && 0 <= v / p <= v) by (nonlinear_arith)
        requires
            v >= 0,
            p > 0,
    ;
}

/// The upper half of a value that is not negative is not negative.
pub proof fn lemma_extract_h_nonnegative(x: Word32)
    requires
        x.0 >= 0,
    ensures
        extract_h(x).0 >= 0,
{
    reveal(spec_extract_h);
}

/// Rounding takes the nearest multiple of 65536, the upper of two.
pub proof fn lemma_round(x: Word32)
    requires
        x.0 <= 0x7fff_7fff,
    ensures
        round(x).0 == (x.0 + 0x8000) / 65536,
{
    reveal(spec_round);
    reveal(spec_extract_h);
    reveal(spec_l_add);
}

/// A left shift of an accumulator is a product, saturated.
pub proof fn lemma_l_shl(x: Word32, n: i16, p: int)
    requires
        0 <= n,
        p == pow2(n as nat),
    ensures
        l_shl(x, n).0 == sat32(x.0 * p),
{
    reveal(spec_l_shl);
}

/// A product accumulated without saturation.
pub proof fn lemma_l_mac(acc: Word32, a: Word16, b: Word16)
    requires
        -0x8000_0000 <= 2 * (a.0 * b.0) <= 0x7fff_ffff,
    ensures
        l_mult(a, b).0 == 2 * (a.0 * b.0),
        l_mac(acc, a, b).0 == sat32(acc.0 + 2 * (a.0 * b.0)),
        l_msu(acc, a, b).0 == sat32(acc.0 - 2 * (a.0 * b.0)),
{
    reveal(spec_l_mac);
    reveal(spec_l_msu);
    reveal(spec_l_add);
    reveal(spec_l_sub);
    reveal(spec_l_mult);
}

/// A left shift is a product, saturated.
pub proof fn lemma_shl(a: Word16, n: i16, p: int)
    requires
        0 <= n,
        p == pow2(n as nat),
    ensures
        shl(a, n).0 == sat16(a.0 * p),
{
    reveal(spec_shl);
}

/// Halving a word that is not negative.
pub proof fn lemma_half(a: Word16)
    requires
        a.0 >= 0,
    ensures
        0 <= shr(a, 1).0 <= 16383,
{
    reveal(spec_shr);
    lemma2_to64();
    assert(shr(a, 1).0 == a.0 as int / 2);
}

/// What a shift down by a known power makes of a word.
pub proof fn lemma_shr(a: Word16, n: i16, p: int)
    requires
        0 <= n,
        p == pow2(n as nat),
        p > 0,
    ensures
        shr(a, n).0 == a.0 as int / p,
{
    reveal(spec_shr);
    let x = a.0 as int;
    assert(-32768 <= x / p <= 32767) by (nonlinear_arith)
        requires
            -32768 <= x <= 32767,
            p >= 1,
    ;
}

/// The number that a double-precision split stands for.
pub open spec fn wide(hi: Word16, lo: Word16) -> int {
    65536 * hi.0 + 2 * lo.0
}

/// A split stands for the accumulator without its lowest bit, and putting it
/// together again gives that number.
pub proof fn law_splits_keep_the_number(x: Word32)
    ensures
        ({
            let (hi, lo) = l_extract(x);
            &&& x.0 - 1 <= wide(hi, lo) <= x.0
            &&& l_comp(hi, lo).0 == wide(hi, lo)
            &&& 0 <= lo.0
        }),
{
    reveal(spec_l_extract);
    reveal(spec_l_comp);
    reveal(spec_l_deposit_h);
    let (hi, lo) = l_extract(x);
    assert(lo.0 * 1 == lo.0);
    lemma_l_mac(l_deposit_h(hi), lo, Word16(1));
}

/// A product of two splits is the product of their numbers, rounded down by
/// less than six.
pub proof fn law_double_products_round_down(h1: Word16, l1: Word16, h2: Word16, l2: Word16)
    requires
        0 <= l1.0,
        0 <= l2.0,
        -32768 < h1.0,
        -32768 < h2.0,
        h1.0 < 32767 || h2.0 < 32767,
    ensures
        ({
            let product = mpy_32(h1, l1, h2, l2).0;
            let exact = wide(h1, l1) * wide(h2, l2);
            0x8000_0000 * product <= exact < 0x8000_0000 * (product + 6)
        }),
{
    reveal(spec_mpy_32);
    reveal(spec_mult);
    let a = h1.0 as int;
    let b = h2.0 as int;
    let c = l1.0 as int;
    let d = l2.0 as int;
    assert(-32767 * 32767 <= a * b <= 32767 * 32767 && (a * b > 32766 * 32767 ==> a == -32767
        && b == -32767)) by (nonlinear_arith)
        requires
            -32767 <= a <= 32767,
            -32767 <= b <= 32767,
            a < 32767 || b < 32767,
    ;
    assert(-32767 * 32767 <= a * d <= 32767 * 32767) by (nonlinear_arith)
        requires
            -32767 <= a <= 32767,
            0 <= d <= 32767,
    ;
    assert(-32767 * 32767 <= c * b <= 32767 * 32767) by (nonlinear_arith)
        requires
            -32767 <= b <= 32767,
            0 <= c <= 32767,
    ;
    assert(0 <= c * d <= 32767 * 32767) by (nonlinear_arith)
        requires
            0 <= c <= 32767,
            0 <= d <= 32767,
    ;
    if a == -32767 && b == -32767 {
        assert(a * d <= 0) by (nonlinear_arith)
            requires
                a == -32767,
                0 <= d,
        ;
        assert(c * b <= 0) by (nonlinear_arith)
            requires
                b == -32767,
                0 <= c,
        ;
    }
    let m = mult(h1, l2);
    let n = mult(l1, h2);
    assert(m.0 == (a * d) / 32768);
    assert(n.0 == (c * b) / 32768);
    assert(m.0 * 1 == m.0 && n.0 * 1 == n.0);
    lemma_l_mac(Word32(0), h1, h2);
    lemma_l_mac(l_mult(h1, h2), m, Word16(1));
    lemma_l_mac(l_mac(l_mult(h1, h2), m, Word16(1)), n, Word16(1));
    let product = mpy_32(h1, l1, h2, l2).0;
    assert(product == 2 * (a * b) + 2 * m.0 + 2 * n.0);
    assert(wide(h1, l1) * wide(h2, l2) == 0x1_0000_0000 * (a * b) + 0x2_0000 * (a * d) + 0x2_0000
        * (c * b) + 4 * (c * d)) by (nonlinear_arith)
        requires
            wide(h1, l1) == 65536 * a + 2 * c,
            wide(h2, l2) == 65536 * b + 2 * d,
    ;
}

/// A product of a split and a word is the product of their numbers, rounded
/// down by less than two.
pub proof fn law_word_products_round_down(hi: Word16, lo: Word16, n: Word16)
    requires
        0 <= lo.0,
        -32768 < hi.0,
        -32768 < n.0,
    ensures
        ({
            let product = mpy_32_16(hi, lo, n).0;
            let exact = wide(hi, lo) * n.0;
            32768 * product <= exact < 32768 * (product + 2)
        }),
{
    reveal(spec_mpy_32_16);
    reveal(spec_mult);
    let a = hi.0 as int;
    let c = lo.0 as int;
    let b = n.0 as int;
    assert(-32767 * 32767 <= a * b <= 32767 * 32767) by (nonlinear_arith)
        requires
            -32767 <= a <= 32767,
            -32767 <= b <= 32767,
    ;
    assert(-32767 * 32767 <= c * b <= 32767 * 32767) by (nonlinear_arith)
        requires
            -32767 <= b <= 32767,
            0 <= c <= 32767,
    ;
    let m = mult(lo, n);
    assert(m.0 == (c * b) / 32768);
    assert(m.0 * 1 == m.0);
    lemma_l_mac(Word32(0), hi, n);
    lemma_l_mac(l_mult(hi, n), m, Word16(1));
    assert(mpy_32_16(hi, lo, n).0 == 2 * (a * b) + 2 * m.0);
    assert(wide(hi, lo) * n.0 == 65536 * (a * b) + 2 * (c * b)) by (nonlinear_arith)
        requires
            wide(hi, lo) == 65536 * a + 2 * c,
            n.0 == b,
    ;
}

/// What normalising a positive word makes of it.
pub proof fn lemma_normalised_s(a: Word16)
    requires
        a.0 > 0,
    ensures
        0 <= norm_s(a) <= 14,
        shl(a, norm_s(a)).0 == a.0 * pow2(norm_s(a) as nat),
        shl(a, norm_s(a)).0 >= 0x4000,
        pow2(norm_s(a) as nat) >= 1,
{
    lemma_norm_s(a);
    reveal(spec_norm_s);
    reveal(spec_shl);
    lemma2_to64();
    let m = a.0 as int;
    lemma_doublings_reach(m, 0x4000);
    assert(m * 0x4000 >= 0x4000) by (nonlinear_arith)
        requires
            m >= 1,
    ;
    lemma_doublings_bound(m, 0x4000, 14);
    lemma_pow2_pos(norm_s(a) as nat);
}

proof fn lemma_shift_order(x: int, y: int, m: nat, n: nat, half: int)
    requires
        0 < x <= y,
        half <= x * pow2(m),
        y * pow2(n) < 2 * half,
    ensures
        n <= m,
        m == n ==> x * pow2(m) <= y * pow2(n),
{
    let p = pow2(m) as int;
    let q = pow2(n) as int;
    lemma_pow2_pos(m);
    lemma_pow2_pos(n);
    if m < n {
        lemma_pow2_unfold(n);
        if m < n - 1 {
            lemma_pow2_strictly_increases(m, (n - 1) as nat);
        }
        assert(2 * (x * p) <= y * q) by (nonlinear_arith)
            requires
                1 <= x <= y,
                1 <= p,
                2 * p <= q,
        ;
    }
    assert(x * p <= y * p) by (nonlinear_arith)
        requires
            x <= y,
            p >= 1,
    ;
}

/// A larger word is normalised by no more, and where by as much, it stays the
/// larger.
pub proof fn lemma_larger_shifts_less(a: Word16, b: Word16)
    requires
        0 < a.0 <= b.0,
    ensures
        norm_s(b) <= norm_s(a),
        norm_s(a) == norm_s(b) ==> shl(a, norm_s(a)).0 <= shl(b, norm_s(b)).0,
{
    lemma_normalised_s(a);
    lemma_normalised_s(b);
    lemma_shift_order(a.0 as int, b.0 as int, norm_s(a) as nat, norm_s(b) as nat, 0x4000);
}

/// As [`lemma_larger_shifts_less`], of accumulators.
pub proof fn lemma_larger_l_shifts_less(x: Word32, y: Word32)
    requires
        0 < x.0 <= y.0,
    ensures
        norm_l(y) <= norm_l(x),
        norm_l(x) == norm_l(y) ==> l_shl(x, norm_l(x)).0 <= l_shl(y, norm_l(y)).0,
{
    lemma_normalised(x);
    lemma_normalised(y);
    lemma_shift_order(x.0 as int, y.0 as int, norm_l(x) as nat, norm_l(y) as nat, 0x4000_0000);
}

} // verus!
