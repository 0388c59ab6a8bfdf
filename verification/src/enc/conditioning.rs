//! Why the normal equations can always be solved: on every window of speech
//! the first order leaves room for a normalised prediction gain, so no
//! division of the recursion meets a divisor that is not normalised.

use vstd::prelude::*;
use vstd::arithmetic::power2::pow2;
use crate::enc::levinson::{lemma_first_gain, opposed_quotient, solvable};
use crate::fixed_point::{
    div_32, l_abs, l_comp, l_deposit_h, l_extract, l_mac, l_mult, l_shl, lemma_normalised, mpy_32,
    mpy_32_16, mult, norm_l, sat32, Word16, Word32,
};
use crate::lp::{conditioned, correlated, correlation, lagged, normalised, Autocorrelation};
use crate::math::{lemma_energy_positive, mac_run};

verus! {

/// Twice the squares of the first `n` samples.
spec fn exact_energy(y: Seq<Word16>, n: int) -> int
    decreases n,
{
    if n <= 0 {
        0
    } else {
        exact_energy(y, n - 1) + 2 * (y[n - 1].0 * y[n - 1].0)
    }
}

/// One accumulation, exact where it fits.
proof fn lemma_exact_mac(acc: Word32, a: Word16, b: Word16)
    ensures
        -0x8000_0000 <= acc.0 + 2 * (a.0 * b.0) <= 0x7fff_ffff && !(a.0 == -32768 && b.0 == -32768)
            ==> l_mac(acc, a, b).0 == acc.0 + 2 * (a.0 * b.0),
        acc.0 >= 0 && a == b && l_mac(acc, a, a).0 < 0x7fff_ffff ==> a.0 != -32768
            && l_mac(acc, a, a).0 == acc.0 + 2 * (a.0 * a.0),
{
    reveal(crate::fixed_point::spec_l_mac);
    reveal(crate::fixed_point::spec_l_mult);
    reveal(crate::fixed_point::spec_l_add);
    let x = a.0 as int;
    let y = b.0 as int;
    assert(-1073709056 <= x * y <= 1073741824) by (nonlinear_arith)
        requires
            -32768 <= x <= 32767,
            -32768 <= y <= 32767,
    ;
    assert(x * y == 1073741824 ==> x == -32768 && y == -32768) by (nonlinear_arith)
        requires
            -32768 <= x <= 32767,
            -32768 <= y <= 32767,
    ;
    assert((-32768int) * (-32768int) == 1073741824) by (nonlinear_arith);
    assert(x * x >= 0) by (nonlinear_arith);
}

/// A running energy that is not saturated is exact.
proof fn lemma_exact_energy(y: Seq<Word16>, n: int)
    requires
        n >= 0,
        mac_run(Word32(1), y, 0, y, 0, n).0 < 0x7fff_ffff,
    ensures
        mac_run(Word32(1), y, 0, y, 0, n).0 == 1 + exact_energy(y, n),
        n > 0 ==> mac_run(Word32(1), y, 0, y, 0, n - 1).0 < 0x7fff_ffff && y[n - 1].0 != -32768,
    decreases n,
{
    if n > 0 {
        let before = mac_run(Word32(1), y, 0, y, 0, n - 1);
        lemma_energy_positive(Word32(1), y, 0, n - 1);
        crate::fixed_point::lemma_square_grows(before, y[n - 1]);
        lemma_exact_mac(before, y[n - 1], y[n - 1]);
        lemma_exact_energy(y, n - 1);
    }
}

/// Neighbouring samples correlate no more than they have energy.
proof fn lemma_neighbours(seed: Word32, y: Seq<Word16>, n: int)
    requires
        0 <= seed.0 <= 1,
        0 <= n,
        n + 1 <= y.len(),
        mac_run(Word32(1), y, 0, y, 0, n + 1).0 < 0x7fff_ffff,
    ensures
        ({
            let c = mac_run(seed, y, 0, y, 1, n).0 - seed.0;
            let bound = exact_energy(y, n + 1) - y[0].0 * y[0].0 - y[n].0 * y[n].0;
            -bound <= c <= bound
        }),
    decreases n,
{
    lemma_exact_energy(y, n + 1);
    if n == 0 {
        assert(exact_energy(y, 1) == exact_energy(y, 0) + 2 * (y[0].0 * y[0].0));
    } else {
        lemma_neighbours(seed, y, n - 1);
        let a = y[n - 1].0 as int;
        let b = y[n].0 as int;
        let first = y[0].0 as int;
        assert(2 * (a * b) <= a * a + b * b && -(a * a + b * b) <= 2 * (a * b)) by (nonlinear_arith);
        assert(first * first >= 0 && a * a >= 0 && b * b >= 0) by (nonlinear_arith);
        let before = mac_run(seed, y, 0, y, 1, n - 1);
        lemma_exact_mac(before, y[n - 1], y[n]);
        assert(exact_energy(y, n + 1) == exact_energy(y, n) + 2 * (b * b));
        assert(exact_energy(y, n) == exact_energy(y, n - 1) + 2 * (a * a));
        lemma_exact_energy(y, n);
    }
}

/// A signal's correlation with its neighbour is at most its energy, both
/// counted from one.
pub proof fn lemma_tilt_bounded(y: Seq<Word16>, n: int)
    requires
        0 <= n,
        n + 1 <= y.len(),
    ensures
        mac_run(Word32(1), y, 0, y, 1, n).0 <= mac_run(Word32(1), y, 0, y, 0, n + 1).0,
        mac_run(Word32(1), y, 0, y, 0, n + 1).0 >= 1,
{
    lemma_energy_positive(Word32(1), y, 0, n + 1);
    if mac_run(Word32(1), y, 0, y, 0, n + 1).0 < 0x7fff_ffff {
        lemma_neighbours(Word32(1), y, n);
        lemma_exact_energy(y, n + 1);
        let first = y[0].0 as int;
        let last = y[n].0 as int;
        assert(first * first >= 0 && last * last >= 0) by (nonlinear_arith);
    }
}

/// The first lag is no larger than the energy, but for the last bit.
proof fn lemma_first_lag(y: Seq<Word16>)
    requires
        y.len() == 384,
    ensures
        correlation(y, 0).0 > 0,
        ({
            let n0 = normalised(y, 0).0 as int;
            let n1 = normalised(y, 1).0 as int;
            &&& n0 >= 0x4000_0000
            &&& -(n0 + 1) <= n1 <= n0 + 1
        }),
{
    let e = correlation(y, 0);
    let c = correlation(y, 1);
    lemma_energy_positive(Word32(1), y, 0, 384);
    lemma_normalised(e);
    let p = pow2(norm_l(e) as nat) as int;
    reveal(crate::fixed_point::spec_l_shl);
    if e.0 < 0x7fff_ffff {
        lemma_neighbours(Word32(0), y, 383);
        lemma_exact_energy(y, 384);
        let first = y[0].0 as int;
        let last = y[383].0 as int;
        assert(first * first >= 0 && last * last >= 0) by (nonlinear_arith);
        let x = c.0 as int;
        let bound = e.0 as int;
        assert(-(bound * p) <= x * p <= bound * p) by (nonlinear_arith)
            requires
                -bound <= x <= bound,
                p >= 1,
        ;
    } else {
        assert(p == 1) by {
            let m = e.0 as int;
            assert(p <= 1) by (nonlinear_arith)
                requires
                    m == 0x7fff_ffff,
                    m * p <= 0x7fff_ffff,
            ;
        }
        assert(e.0 * 1 == e.0 && c.0 * 1 == c.0);
    }
}

/// Accumulating a word at unit weight adds it twice.
proof fn lemma_add_twice(acc: Word32, x: Word16)
    ensures
        l_mac(acc, x, Word16(1)) == Word32(sat32(acc.0 + 2 * x.0)),
{
    reveal(crate::fixed_point::spec_l_mac);
    reveal(crate::fixed_point::spec_l_mult);
    reveal(crate::fixed_point::spec_l_add);
    let v = x.0 as int;
    assert(v * 1 == v) by (nonlinear_arith);
}

/// The lag window leaves the first lag a two-thousandth below the energy.
proof fn lemma_lagged(n0: int, n1: Word32)
    requires
        0x4000_0000 <= n0 <= 0x7fff_ffff,
        -(n0 + 1) <= n1.0 <= n0 + 1,
    ensures
        ({
            let (hi, lo) = lagged(l_extract(n1).0, l_extract(n1).1, 1);
            let m = l_comp(hi, lo).0 as int;
            -(n0 * 32752) <= m * 32768 <= n0 * 32752
        }),
{
    reveal(crate::fixed_point::spec_l_extract);
    reveal(crate::fixed_point::spec_l_comp);
    reveal(crate::fixed_point::spec_mpy_32);
    reveal(crate::fixed_point::spec_mult);
    reveal(crate::fixed_point::spec_l_mult);
    reveal(crate::fixed_point::spec_l_mac);
    reveal(crate::fixed_point::spec_l_add);
    reveal(crate::fixed_point::spec_l_deposit_h);
    let h = l_extract(n1).0.0 as int;
    let l = l_extract(n1).1.0 as int;
    assert(crate::lp::LAG_HIGH@[0] == 32750 && crate::lp::LAG_LOW@[0] == 16896);
    assert(h == n1.0 as int / 65536 && l == (n1.0 as int % 65536) / 2);
    let hw = l_extract(n1).0;
    let lw = l_extract(n1).1;
    let product = mpy_32(hw, lw, Word16(32750), Word16(16896));
    let inner = l_mac(l_mult(hw, Word16(32750)), mult(hw, Word16(16896)), Word16(1));
    lemma_add_twice(l_mult(hw, Word16(32750)), mult(hw, Word16(16896)));
    lemma_add_twice(inner, mult(lw, Word16(32750)));
    assert(product.0 == 2 * (h * 32750) + 2 * ((h * 16896) / 32768) + 2 * ((l * 32750) / 32768));
    let (hi, lo) = l_extract(product);
    lemma_add_twice(l_deposit_h(hi), lo);
    assert(l_comp(hi, lo).0 == hi.0 * 65536 + lo.0 * 2);
}

/// A product with a word, between its exact values.
proof fn lemma_by_word(h: Word16, l: Word16, n: Word16)
    requires
        h.0 >= 0,
        l.0 >= 0,
        n.0 >= 0,
    ensures
        mpy_32_16(h, l, n).0 >= 0,
        16384 * mpy_32_16(h, l, n).0 <= (h.0 * 32768 + l.0) * n.0,
        2 * (h.0 * n.0) <= 0x4000_0000 ==> 16384 * mpy_32_16(h, l, n).0 >= (h.0 * 32768 + l.0)
            * n.0 - 32767,
{
    reveal(crate::fixed_point::spec_mpy_32_16);
    reveal(crate::fixed_point::spec_mult);
    reveal(crate::fixed_point::spec_l_mult);
    reveal(crate::fixed_point::spec_l_mac);
    reveal(crate::fixed_point::spec_l_add);
    let a = h.0 as int;
    let b = l.0 as int;
    let x = n.0 as int;
    assert(0 <= a * x <= 1073676289 && 0 <= b * x <= 1073676289) by (nonlinear_arith)
        requires
            0 <= a <= 32767,
            0 <= b <= 32767,
            0 <= x <= 32767,
    ;
    assert((a * 32768 + b) * x == 32768 * (a * x) + b * x) by (nonlinear_arith);
    let q = (b * x) / 32768;
    assert(0 <= q <= 32767 && 32768 * q <= b * x && b * x - 32767 <= 32768 * q);
    assert(mult(l, n).0 == q);
    lemma_add_twice(l_mult(h, n), mult(l, n));
}

/// A product of two double-precision numbers stays below its exact value.
proof fn lemma_by_pair(n: Word32, q: Word32)
    requires
        n.0 >= 0,
        q.0 >= 0,
    ensures
        ({
            let (nh, nl) = l_extract(n);
            let (qh, ql) = l_extract(q);
            let m = mpy_32(nh, nl, qh, ql).0 as int;
            0 <= m && m * 0x8000_0000 <= n.0 * q.0
        }),
{
    reveal(crate::fixed_point::spec_l_extract);
    reveal(crate::fixed_point::spec_mpy_32);
    reveal(crate::fixed_point::spec_mult);
    reveal(crate::fixed_point::spec_l_mult);
    reveal(crate::fixed_point::spec_l_mac);
    reveal(crate::fixed_point::spec_l_add);
    let (nhw, nlw) = l_extract(n);
    let (qhw, qlw) = l_extract(q);
    let nh = nhw.0 as int;
    let nl = nlw.0 as int;
    let qh = qhw.0 as int;
    let ql = qlw.0 as int;
    let n_half = nh * 32768 + nl;
    let q_half = qh * 32768 + ql;
    assert(2 * n_half <= n.0 && 2 * q_half <= q.0);
    assert(0 <= nh * qh <= 1073676289 && 0 <= nh * ql <= 1073676289 && 0 <= nl * qh
        <= 1073676289 && 0 <= nl * ql) by (nonlinear_arith)
        requires
            0 <= nh <= 32767,
            0 <= nl <= 32767,
            0 <= qh <= 32767,
            0 <= ql <= 32767,
    ;
    let s = (nh * ql) / 32768;
    let t = (nl * qh) / 32768;
    assert(32768 * s <= nh * ql && 32768 * t <= nl * qh && 0 <= s <= 32767 && 0 <= t <= 32767);
    let m = mpy_32(nhw, nlw, qhw, qlw).0 as int;
    lemma_add_twice(l_mult(nhw, qhw), mult(nhw, qlw));
    lemma_add_twice(
        l_mac(l_mult(nhw, qhw), mult(nhw, qlw), Word16(1)),
        mult(nlw, qhw),
    );
    assert(m <= 2 * (nh * qh) + 2 * s + 2 * t);
    assert(n_half * q_half == 1073741824 * (nh * qh) + 32768 * (nh * ql) + 32768 * (nl * qh) + nl
        * ql) by (nonlinear_arith)
        requires
            n_half == nh * 32768 + nl,
            q_half == qh * 32768 + ql,
    ;
    let nn = n.0 as int;
    let qq = q.0 as int;
    assert(4 * (n_half * q_half) <= nn * qq) by (nonlinear_arith)
        requires
            0 <= 2 * n_half <= nn,
            0 <= 2 * q_half <= qq,
    ;
}

/// The quotient by a normalised divisor is barely above the exact one.
proof fn lemma_quotient(num: Word32, hi: Word16, lo: Word16)
    requires
        num.0 >= 0,
        hi.0 >= 0x4000,
        lo.0 >= 0,
    ensures
        div_32(num, hi, lo).0 >= 0,
        div_32(num, hi, lo).0 * (0x1_0000_0000 * (hi.0 * 32768 + lo.0)) <= num.0 * (0x8000_0001
            * 0x8000_0001),
{
    reveal(crate::fixed_point::spec_div_32);
    reveal(crate::fixed_point::spec_div_s);
    reveal(crate::fixed_point::spec_l_sub);
    let den = hi.0 as int;
    let approx = crate::fixed_point::div_s(Word16(0x3fff), hi);
    let x = approx.0 as int;
    assert(0 <= 536838144int / den <= 32767 && (536838144int / den) * den <= 536838144)
        by (nonlinear_arith)
        requires
            den >= 0x4000,
    ;
    assert(0x3fff * 32768int == 536838144);
    assert(0 <= x <= 32767 && x * den <= 536838144);
    assert(den * x == x * den) by (nonlinear_arith);
    lemma_by_word(hi, lo, approx);
    let p = mpy_32_16(hi, lo, approx).0 as int;
    let d = hi.0 * 32768 + lo.0;
    assert(16384 * p >= d * x - 32767);
    let error = crate::fixed_point::l_sub(Word32(0x7fff_ffff), mpy_32_16(hi, lo, approx));
    let c = error.0 as int;
    assert(c == 0x7fff_ffff - p);
    let big: int = 0x8000_0001;
    assert(16384 * c <= 16384 * big - d * x);
    let (ehw, elw) = l_extract(error);
    assert(0 <= ehw.0 && 0 <= elw.0 && 2 * (ehw.0 * 32768 + elw.0) <= c) by {
        reveal(crate::fixed_point::spec_l_extract);
    }
    lemma_by_word(ehw, elw, approx);
    let recip = mpy_32_16(ehw, elw, approx);
    let q = recip.0 as int;
    let e_half = ehw.0 * 32768 + elw.0;
    assert(32768 * q <= c * x) by (nonlinear_arith)
        requires
            16384 * q <= e_half * x,
            2 * e_half <= c,
            x >= 0,
    ;
    // d * x * (16384 big - d * x) is at most a quarter of (16384 big)^2.
    let t = d * x;
    assert(t * (16384 * big - t) <= (8192 * big) * (8192 * big)) by (nonlinear_arith);
    assert(536870912 * (q * d) <= t * (16384 * big - t)) by (nonlinear_arith)
        requires
            32768 * q <= c * x,
            16384 * c <= 16384 * big - t,
            t == d * x,
            x >= 0,
            d >= 0,
    ;
    assert((8192 * big) * (8192 * big) == 67108864 * (big * big)) by (nonlinear_arith);
    assert(8 * (q * d) <= big * big);
    lemma_by_pair(num, recip);
    let (nh, nl) = l_extract(num);
    let (rh, rl) = l_extract(recip);
    let m = mpy_32(nh, nl, rh, rl);
    let k = div_32(num, hi, lo);
    assert(k == l_shl(m, 2));
    assert(0 <= k.0 <= 4 * m.0) by {
        reveal(crate::fixed_point::spec_l_shl);
        vstd::arithmetic::power2::lemma2_to64();
    }
    let kk = k.0 as int;
    let nn = num.0 as int;
    assert(kk * 536870912 <= nn * q);
    assert(kk * (0x1_0000_0000 * d) <= nn * (big * big)) by (nonlinear_arith)
        requires
            kk * 536870912 <= nn * q,
            8 * (q * d) <= big * big,
            nn >= 0,
            d >= 0,
    ;
}

/// On every window of speech the normal equations can be solved.
pub proof fn law_every_window_is_solvable(x: Seq<Word16>, raw: Autocorrelation, r: Autocorrelation)
    requires
        x.len() == 384,
        correlated(raw, x),
        forall|i: int|
            0 <= i < 17 ==> (#[trigger] r.high@[i], r.low@[i]) == lagged(
                raw.high@[i],
                raw.low@[i],
                i,
            ),
    ensures
        solvable(r.high@, r.low@),
{
    let y = conditioned(x);
    lemma_first_lag(y);
    let n0 = normalised(y, 0);
    let n1 = normalised(y, 1);
    assert((raw.high@[0], raw.low@[0]) == l_extract(n0));
    assert((raw.high@[1], raw.low@[1]) == l_extract(n1));
    assert((r.high@[0], r.low@[0]) == lagged(raw.high@[0], raw.low@[0], 0));
    assert((r.high@[1], r.low@[1]) == lagged(raw.high@[1], raw.low@[1], 1));
    let hi = r.high@[0];
    let lo = r.low@[0];
    assert(hi.0 >= 0x4000 && lo.0 >= 0 && 2 * (hi.0 * 32768 + lo.0) + 1 >= n0.0) by {
        reveal(crate::fixed_point::spec_l_extract);
    }
    lemma_lagged(n0.0 as int, n1);
    let first = l_comp(r.high@[1], r.low@[1]);
    let num = l_abs(first);
    reveal(crate::fixed_point::spec_l_abs);
    lemma_quotient(num, hi, lo);
    let k = div_32(num, hi, lo).0 as int;
    let d = hi.0 * 32768 + lo.0;
    assert(num.0 * 32768 <= n0.0 * 32752);
    assert(k <= 2147352576) by {
        if k > 2147352576 {
            assert(k * (0x1_0000_0000 * d) >= 2147352577 * (0x1_0000_0000 * d)) by (nonlinear_arith)
                requires
                    k >= 2147352577,
                    d >= 0,
            ;
            assert(0x8000_0001 * 0x8000_0001 == 4611686022722355201int);
            let nn = num.0 as int;
            let e = n0.0 as int;
            assert(false) by (nonlinear_arith)
                requires
                    2147352577 * (0x1_0000_0000 * d) <= nn * 4611686022722355201,
                    nn * 32768 <= e * 32752,
                    e <= 2 * d + 1,
                    d >= 0x2000_0000,
            ;
        }
    }
    reveal(opposed_quotient);
    reveal(crate::fixed_point::spec_l_negate);
    reveal(crate::fixed_point::spec_l_extract);
    let signed = opposed_quotient(first, (hi, lo));
    assert(-32766 <= l_extract(signed).0.0 <= 32766);
    lemma_first_gain(r.high@, r.low@);
}

} // verus!
