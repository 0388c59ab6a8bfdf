//! From predictor to immittance pairs: a root search on a Chebyshev grid.
//!
//! The two polynomials' roots interlace, so they are searched alternately, and
//! each accepted root becomes the upper end of the next interval.

use vstd::prelude::*;
use crate::fixed_point::{
    abs_s, add_s, div_s, extract_h, extract_l, l_extract, l_mac, l_msu, l_mult, l_shl, l_shr,
    lemma_l_mac, lemma_l_shr, lemma_norm_s, lemma_round, lemma_shr, mpy_32_16, negate, norm_s,
    round, shl, shr, sub_s, Word16, Word32,
};
use crate::isf_noise::LP_ORDER;

verus! {

/// Half the LP order: the number of roots each polynomial contributes.
pub const NC: usize = 8;

/// Number of intervals in the evaluation grid.
pub const GRID_POINTS: usize = 100;

/// Cosines at which the polynomials are evaluated, Q15.
pub const GRID: [i16; 101] = [
    32767, 32751, 32703, 32622, 32509, 32364, 32187, 31978, 31738, 31466, 31164, 30830, 30466,
    30072, 29649, 29196, 28714, 28204, 27666, 27101, 26509, 25891, 25248, 24579, 23886, 23170,
    22431, 21669, 20887, 20083, 19260, 18418, 17557, 16680, 15786, 14876, 13951, 13013, 12062,
    11099, 10125, 9141, 8149, 7148, 6140, 5126, 4106, 3083, 2057, 1029, 0, -1029, -2057, -3083,
    -4106, -5126, -6140, -7148, -8149, -9141, -10125, -11099, -12062, -13013, -13951, -14876,
    -15786, -16680, -17557, -18418, -19260, -20083, -20887, -21669, -22431, -23170, -23886,
    -24579, -25248, -25891, -26509, -27101, -27666, -28204, -28714, -29196, -29649, -30072,
    -30466, -30830, -31164, -31466, -31738, -31978, -32187, -32364, -32509, -32622, -32703,
    -32751, -32760,
];

/// Cold-start pairs, Q15: a flat spectrum.
pub const ISP_INIT: [i16; 16] = [
    32138, 30274, 27246, 23170, 18205, 12540, 6393, 0, -6393, -12540, -18205, -23170, -27246,
    -30274, -32138, 1475,
];

/// Coefficient `i` of the sum polynomial, Q11.
pub open spec fn sum_coefficient(a: Seq<Word16>, i: int) -> Word16 {
    if i < 8 {
        round(l_mac(l_mult(a[i], Word16(16384)), a[16 - i], Word16(16384)))
    } else {
        a[8]
    }
}

/// Coefficient `i` of the difference polynomial with `1 - z^-2` divided out,
/// Q11.
pub open spec fn difference_coefficient(a: Seq<Word16>, i: int) -> Word16
    decreases i,
{
    let raw = round(l_msu(l_mult(a[i], Word16(16384)), a[16 - i], Word16(16384)));
    if i < 2 {
        raw
    } else {
        add_s(raw, difference_coefficient(a, i - 2))
    }
}

/// The sum polynomial of a predictor.
pub open spec fn sum_polynomial(a: Seq<Word16>) -> Seq<Word16> {
    Seq::new(9, |i: int| sum_coefficient(a, i))
}

/// The difference polynomial of a predictor.
pub open spec fn difference_polynomial(a: Seq<Word16>) -> Seq<Word16> {
    Seq::new(8, |i: int| difference_coefficient(a, i))
}

/// The last two terms of the series' recurrence after coefficient `i`.
pub open spec fn clenshaw(x: Word16, f: Seq<Word16>, i: int) -> ((Word16, Word16), (Word16, Word16))
    decreases i,
{
    let b2 = l_extract(l_mult(f[0], Word16(4096)));
    if i <= 1 {
        let first = l_mac(l_shl(mpy_32_16(b2.0, b2.1, x), 1), f[1], Word16(4096));
        (l_extract(first), b2)
    } else {
        let (b1, b2) = clenshaw(x, f, i - 1);
        let acc = l_mac(mpy_32_16(b1.0, b1.1, x), b2.0, Word16(-16384i16));
        let acc = l_shl(l_mac(acc, f[i], Word16(2048)), 1);
        (l_extract(l_msu(acc, b2.1, Word16(1))), b1)
    }
}

/// The Chebyshev series at `x`, Q14. Its last term enters at half weight, and
/// the lowest word is kept out of the result.
#[verifier::opaque]
pub open spec fn series(x: Word16, f: Seq<Word16>, n: int) -> Word16 {
    let (b1, b2) = clenshaw(x, f, n - 1);
    let acc = l_mac(mpy_32_16(b1.0, b1.1, x), b2.0, Word16(-32768i16));
    let acc = l_mac(l_msu(acc, b2.1, Word16(1)), f[n], Word16(2048));
    let value = extract_h(l_shl(acc, 6));
    if value.0 == -32768 {
        Word16(-32767i16)
    } else {
        value
    }
}

/// The value of whichever polynomial is searched.
pub open spec fn value_at(a: Seq<Word16>, on_sum: bool, x: Word16) -> Word16 {
    if on_sum {
        series(x, sum_polynomial(a), 8)
    } else {
        series(x, difference_polynomial(a), 7)
    }
}

/// The interval that a root lies in, with the polynomial's values at its ends.
pub struct Bracket {
    pub xlow: Word16,
    pub xhigh: Word16,
    pub ylow: Word16,
    pub yhigh: Word16,
}

/// The half of an interval that holds the sign change.
pub open spec fn halved(a: Seq<Word16>, on_sum: bool, b: Bracket) -> Bracket {
    let xmid = add_s(shr(b.xlow, 1), shr(b.xhigh, 1));
    let ymid = value_at(a, on_sum, xmid);
    if l_mult(b.ylow, ymid).0 <= 0 {
        Bracket { xhigh: xmid, yhigh: ymid, ..b }
    } else {
        Bracket { xlow: xmid, ylow: ymid, ..b }
    }
}

/// The root of the line through the ends of an interval.
#[verifier::opaque]
pub open spec fn line_root(b: Bracket) -> Word16 {
    let dx = sub_s(b.xhigh, b.xlow);
    let dy = sub_s(b.yhigh, b.ylow);
    if dy.0 == 0 {
        b.xlow
    } else {
        let magnitude = abs_s(dy);
        let exp = norm_s(magnitude);
        let reciprocal = div_s(Word16(16383), shl(magnitude, exp));
        let slope = extract_l(
            l_shr(l_mult(dx, reciprocal), sub_s(Word16(20), Word16(exp)).0),
        );
        let signed = if dy.0 < 0 {
            negate(slope)
        } else {
            slope
        };
        sub_s(b.xlow, extract_l(l_shr(l_mult(b.ylow, signed), 11)))
    }
}

/// The search after some grid point.
pub struct Scan {
    /// The lower end of the last interval, and the polynomial there.
    pub xlow: Word16,
    pub ylow: Word16,
    /// Which polynomial is searched next.
    pub on_sum: bool,
    /// The roots found.
    pub roots: Seq<Word16>,
    /// The grid point that each root was found at.
    pub at: Seq<int>,
}

/// The search before the first interval.
pub open spec fn scan_start(a: Seq<Word16>) -> Scan {
    Scan {
        xlow: Word16(GRID@[0]),
        ylow: value_at(a, true, Word16(GRID@[0])),
        on_sum: true,
        roots: Seq::empty(),
        at: Seq::empty(),
    }
}

/// The search after the interval that ends at grid point `j`. A zero counts as
/// a sign change, every root is bisected twice and then interpolated, and the
/// next interval starts from the root on the other polynomial.
pub open spec fn scan_step(a: Seq<Word16>, s: Scan, j: int) -> Scan {
    let xlow = Word16(GRID@[j]);
    let ylow = value_at(a, s.on_sum, xlow);
    if l_mult(ylow, s.ylow).0 > 0 {
        Scan { xlow, ylow, ..s }
    } else {
        let b = Bracket { xlow, xhigh: s.xlow, ylow, yhigh: s.ylow };
        let root = line_root(halved(a, s.on_sum, halved(a, s.on_sum, b)));
        Scan {
            xlow: root,
            ylow: value_at(a, !s.on_sum, root),
            on_sum: !s.on_sum,
            roots: s.roots.push(root),
            at: s.at.push(j),
        }
    }
}

/// The search after `j` intervals; it stops once all fifteen roots are found.
pub open spec fn scan(a: Seq<Word16>, j: int) -> Scan
    decreases j,
{
    if j <= 0 {
        scan_start(a)
    } else {
        let s = scan(a, j - 1);
        if s.roots.len() >= 15 {
            s
        } else {
            scan_step(a, s, j)
        }
    }
}

/// The pairs of a predictor: fifteen roots and the last coefficient, or the
/// old pairs where the search came up short.
pub open spec fn pairs_of(a: Seq<Word16>, old_isp: Seq<Word16>) -> Seq<Word16> {
    let s = scan(a, 100);
    if s.roots.len() < 15 {
        old_isp
    } else {
        s.roots.take(15).push(shl(a[16], 3))
    }
}

/// What the root search found, beyond the pairs themselves.
#[derive(Clone, Debug, PartialEq, Eq)]
pub struct IspSearch {
    /// The sixteen pairs, Q15, or the old ones if the search failed.
    pub isp: [Word16; LP_ORDER],
    /// Grid point whose interval bracketed each accepted root. Only the first
    /// [`Self::roots_found`] entries are set.
    pub accepted_at: [usize; 15],
    /// How many roots the scan located before it stopped.
    pub roots_found: usize,
    /// Whether the scan gave up and fell back to the old pairs.
    pub fell_back: bool,
}

/// The sum and difference polynomials of a predictor, both at half scale.
pub fn sum_difference_polynomials(a: &[Word16; 17]) -> (f: ([Word16; 9], [Word16; 8]))
    ensures
        f.0@ == sum_polynomial(a@),
        f.1@ == difference_polynomial(a@),
{
    let mut f1: [Word16; 9] = [Word16(0); 9];
    let mut f2: [Word16; 8] = [Word16(0); 8];
    for i in 0..NC
        invariant
            forall|j: int| 0 <= j < i ==> #[trigger] f1@[j] == sum_coefficient(a@, j),
            forall|j: int| 0 <= j < i ==> #[trigger] f2@[j] == difference_coefficient(a@, j),
    {
        let base = l_mult(a[i], Word16(16384));
        f1[i] = round(l_mac(base, a[LP_ORDER - i], Word16(16384)));
        let raw = round(l_msu(base, a[LP_ORDER - i], Word16(16384)));
        f2[i] = if i < 2 {
            raw
        } else {
            add_s(raw, f2[i - 2])
        };
    }
    f1[NC] = a[NC];
    assert(f1@ =~= sum_polynomial(a@));
    assert(f2@ =~= difference_polynomial(a@));
    (f1, f2)
}

/// Evaluate a Chebyshev series.
fn chebps2(x: Word16, f: &[Word16], n: usize) -> (value: Word16)
    requires
        2 <= n < f.len(),
    ensures
        value == series(x, f@, n as int),
{
    proof {
        reveal(series);
    }
    let (mut b2_hi, mut b2_lo) = l_extract(l_mult(f[0], Word16(4096)));
    let first = l_mac(l_shl(mpy_32_16(b2_hi, b2_lo, x), 1), f[1], Word16(4096));
    let (mut b1_hi, mut b1_lo) = l_extract(first);
    for i in 2..n
        invariant
            2 <= n < f.len(),
            ((b1_hi, b1_lo), (b2_hi, b2_lo)) == clenshaw(x, f@, i - 1),
    {
        // Twice x times the last term, less the one before, plus the
        // coefficient: the doubling is folded into the shift.
        let acc = l_mac(mpy_32_16(b1_hi, b1_lo, x), b2_hi, Word16(-16384));
        let acc = l_shl(l_mac(acc, f[i], Word16(2048)), 1);
        let (b0_hi, b0_lo) = l_extract(l_msu(acc, b2_lo, Word16(1)));
        b2_hi = b1_hi;
        b2_lo = b1_lo;
        b1_hi = b0_hi;
        b1_lo = b0_lo;
    }
    let acc = l_mac(mpy_32_16(b1_hi, b1_lo, x), b2_hi, Word16(-32768));
    let acc = l_mac(l_msu(acc, b2_lo, Word16(1)), f[n], Word16(2048));
    let value = extract_h(l_shl(acc, 6));
    if value.0 == -32768 {
        Word16(-32767)
    } else {
        value
    }
}

/// Evaluate whichever polynomial the search is on.
pub fn evaluate(x: Word16, f1: &[Word16; 9], f2: &[Word16; 8], on_f1: bool) -> (value: Word16)
    ensures
        value == if on_f1 {
            series(x, f1@, 8)
        } else {
            series(x, f2@, 7)
        },
{
    if on_f1 {
        chebps2(x, f1, NC)
    } else {
        chebps2(x, f2, NC - 1)
    }
}

/// Locate a root inside its interval by linear interpolation.
pub fn interpolate_root(xlow: Word16, xhigh: Word16, ylow: Word16, yhigh: Word16) -> (root: Word16)
    ensures
        root == line_root(Bracket { xlow, xhigh, ylow, yhigh }),
{
    proof {
        reveal(line_root);
        reveal(crate::fixed_point::spec_abs_s);
    }
    let dx = sub_s(xhigh, xlow);
    let dy = sub_s(yhigh, ylow);
    if dy.0 == 0 {
        return xlow;
    }
    let magnitude = abs_s(dy);
    let exp: i16 = norm_s(magnitude);
    proof {
        lemma_norm_s(magnitude);
    }
    // One below half scale, so that the quotient stays a proper fraction.
    let reciprocal = div_s(Word16(16383), shl(magnitude, exp));
    let shift = sub_s(Word16(20), Word16(exp));
    let slope = extract_l(l_shr(l_mult(dx, reciprocal), shift.0));
    let signed = if dy.0 < 0 {
        negate(slope)
    } else {
        slope
    };
    sub_s(xlow, extract_l(l_shr(l_mult(ylow, signed), 11)))
}

/// Bisect an interval twice and interpolate its root.
fn refine(
    f1: &[Word16; 9],
    f2: &[Word16; 8],
    on_f1: bool,
    xlow: Word16,
    xhigh: Word16,
    ylow: Word16,
    yhigh: Word16,
    Ghost(a): Ghost<Seq<Word16>>,
) -> (root: Word16)
    requires
        f1@ == sum_polynomial(a),
        f2@ == difference_polynomial(a),
    ensures
        root == line_root(
            halved(a, on_f1, halved(a, on_f1, Bracket { xlow, xhigh, ylow, yhigh })),
        ),
{
    let mut xl = xlow;
    let mut xh = xhigh;
    let mut yl = ylow;
    let mut yh = yhigh;
    let ghost b = Bracket { xlow, xhigh, ylow, yhigh };
    for n in 0..2usize
        invariant
            f1@ == sum_polynomial(a),
            f2@ == difference_polynomial(a),
            b == (Bracket { xlow, xhigh, ylow, yhigh }),
            (Bracket { xlow: xl, xhigh: xh, ylow: yl, yhigh: yh }) == if n == 0 {
                b
            } else if n == 1 {
                halved(a, on_f1, b)
            } else {
                halved(a, on_f1, halved(a, on_f1, b))
            },
    {
        // Two independent floors and then a sum, not one shift of the sum.
        let xmid = add_s(shr(xl, 1), shr(xh, 1));
        let ymid = evaluate(xmid, f1, f2, on_f1);
        if l_mult(yl, ymid).0 <= 0 {
            yh = ymid;
            xh = xmid;
        } else {
            yl = ymid;
            xl = xmid;
        }
    }
    interpolate_root(xl, xh, yl, yh)
}

/// Convert a predictor to immittance pairs, keeping the search's own record of
/// what it did.
#[must_use]
pub fn az_isp_detail(a: &[Word16; 17], old_isp: &[Word16; LP_ORDER]) -> (search: IspSearch)
    ensures
        search.isp@ == pairs_of(a@, old_isp@),
        search.roots_found == scan(a@, 100).roots.len(),
        search.roots_found <= 15,
        search.fell_back == (search.roots_found < 15),
        forall|n: int|
            0 <= n < 15 ==> #[trigger] search.accepted_at@[n] == if n < search.roots_found {
                scan(a@, 100).at[n]
            } else {
                0
            },
{
    let (f1, f2) = sum_difference_polynomials(a);
    let mut isp: [Word16; LP_ORDER] = [Word16(0); LP_ORDER];
    let mut accepted_at: [usize; 15] = [0usize; 15];
    let mut found: usize = 0;
    let mut on_f1: bool = true;
    let mut xlow = Word16(GRID[0]);
    let mut ylow = evaluate(xlow, &f1, &f2, on_f1);
    let mut j: usize = 0;
    while found < 15 && j < GRID_POINTS
        invariant
            f1@ == sum_polynomial(a@),
            f2@ == difference_polynomial(a@),
            found <= 15,
            j <= 100,
            ({
                let s = scan(a@, j as int);
                &&& s.xlow == xlow
                &&& s.ylow == ylow
                &&& s.on_sum == on_f1
                &&& s.roots.len() == found
                &&& s.at.len() == found
                &&& forall|n: int| 0 <= n < found ==> #[trigger] s.roots[n] == isp@[n]
                &&& forall|n: int| 0 <= n < found ==> #[trigger] s.at[n] == accepted_at@[n]
            }),
            forall|n: int| found <= n < 15 ==> #[trigger] accepted_at@[n] == 0,
        decreases 100 - j,
    {
        j += 1;
        let xhigh = xlow;
        let yhigh = ylow;
        xlow = Word16(GRID[j]);
        ylow = evaluate(xlow, &f1, &f2, on_f1);
        // A zero counts as a sign change: it is a root.
        if l_mult(ylow, yhigh).0 <= 0 {
            let root = refine(&f1, &f2, on_f1, xlow, xhigh, ylow, yhigh, Ghost(a@));
            isp[found] = root;
            accepted_at[found] = j;
            found += 1;
            xlow = root;
            on_f1 = !on_f1;
            ylow = evaluate(xlow, &f1, &f2, on_f1);
        }
    }
    proof {
        if found == 15 {
            lemma_scan_done(a@, j as int, 100);
        }
    }
    if found < 15 {
        return IspSearch { isp: *old_isp, accepted_at, roots_found: found, fell_back: true };
    }
    // The last entry is not a root: the last coefficient is carried alongside
    // them, from Q12 to Q15 with saturation.
    isp[15] = shl(a[16], 3);
    assert(isp@ =~= pairs_of(a@, old_isp@));
    IspSearch { isp, accepted_at, roots_found: found, fell_back: false }
}

/// Convert a predictor to immittance pairs.
///
/// Where fewer than fifteen roots are found, all sixteen old pairs come back,
/// the last one too.
#[must_use]
pub fn az_isp(a: &[Word16; 17], old_isp: &[Word16; LP_ORDER]) -> (isp: [Word16; LP_ORDER])
    ensures
        isp@ == pairs_of(a@, old_isp@),
{
    az_isp_detail(a, old_isp).isp
}

/// A finished search stays as it is.
proof fn lemma_scan_done(a: Seq<Word16>, j: int, n: int)
    requires
        0 <= j <= n,
        scan(a, j).roots.len() >= 15,
    ensures
        scan(a, n) == scan(a, j),
    decreases n,
{
    if n > j {
        lemma_scan_done(a, j, n - 1);
    }
}

/// The search finds at most fifteen roots, each at a later grid point than the
/// one before it, and none beyond the grid.
pub proof fn law_roots_are_found_in_grid_order(a: Seq<Word16>, j: int)
    requires
        0 <= j <= 100,
    ensures
        scan(a, j).roots.len() <= 15,
        scan(a, j).at.len() == scan(a, j).roots.len(),
        forall|n: int| 0 <= n < scan(a, j).at.len() ==> 1 <= #[trigger] scan(a, j).at[n] <= j,
        forall|m: int, n: int|
            0 <= m < n < scan(a, j).at.len() ==> #[trigger] scan(a, j).at[m]
                < #[trigger] scan(a, j).at[n],
    decreases j,
{
    if j > 0 {
        law_roots_are_found_in_grid_order(a, j - 1);
    }
}

/// A search that comes up short keeps all sixteen old pairs, whatever they
/// are; one that does not reads none of them, and carries the last coefficient
/// at eight times its size, saturated.
pub proof fn law_short_search_keeps_the_old_pairs(
    a: Seq<Word16>,
    old_isp: Seq<Word16>,
    other_isp: Seq<Word16>,
)
    ensures
        scan(a, 100).roots.len() < 15 ==> pairs_of(a, old_isp) == old_isp && pairs_of(a, other_isp)
            == other_isp,
        scan(a, 100).roots.len() >= 15 ==> {
            &&& pairs_of(a, old_isp) == pairs_of(a, other_isp)
            &&& pairs_of(a, old_isp).len() == 16
            &&& pairs_of(a, old_isp)[15].0 == if 8 * a[16].0 > 32767 {
                32767
            } else if 8 * a[16].0 < -32768 {
                -32768
            } else {
                8 * a[16].0
            }
        },
{
    reveal(crate::fixed_point::spec_shl);
    vstd::arithmetic::power2::lemma2_to64();
    let last = a[16].0 as int;
    assert(last * vstd::arithmetic::power2::pow2(3) == 8 * last);
    if scan(a, 100).roots.len() >= 15 {
        let roots = scan(a, 100).roots.take(15);
        assert(roots.push(shl(a[16], 3))[15] == shl(a[16], 3));
    }
}

/// The two polynomials are searched in turn, starting with the sum.
pub proof fn law_polynomials_alternate(a: Seq<Word16>, j: int)
    requires
        j >= 0,
    ensures
        scan(a, j).on_sum == (scan(a, j).roots.len() % 2 == 0),
    decreases j,
{
    if j > 0 {
        law_polynomials_alternate(a, j - 1);
    }
}

/// The two polynomials split the predictor: of each tap the sum holds the half
/// that its mirror shares, and the difference the other half.
pub proof fn law_polynomials_split_the_predictor(a: Seq<Word16>, i: int)
    requires
        a.len() == 17,
        0 <= i < 8,
        forall|k: int| 0 <= k < 17 ==> -16384 < (#[trigger] a[k]).0 < 16384,
        i >= 2 ==> -16384 < difference_coefficient(a, i - 2).0 < 16384,
    ensures
        ({
            let own = if i < 2 {
                difference_coefficient(a, i).0 as int
            } else {
                difference_coefficient(a, i).0 - difference_coefficient(a, i - 2).0
            };
            &&& a[i].0 + a[16 - i].0 <= 2 * sum_coefficient(a, i).0 <= a[i].0 + a[16 - i].0 + 1
            &&& a[i].0 - a[16 - i].0 <= 2 * own <= a[i].0 - a[16 - i].0 + 1
        }),
{
    reveal(crate::fixed_point::spec_add_s);
    let p = a[i];
    let q = a[16 - i];
    assert(-16384 < p.0 < 16384 && -16384 < q.0 < 16384);
    lemma_l_mac(Word32(0), p, Word16(16384));
    lemma_l_mac(l_mult(p, Word16(16384)), q, Word16(16384));
    lemma_round(l_mac(l_mult(p, Word16(16384)), q, Word16(16384)));
    lemma_round(l_msu(l_mult(p, Word16(16384)), q, Word16(16384)));
}

/// Halving an interval keeps one of its ends and the sign change, and leaves
/// at most half of it.
pub proof fn law_halving_keeps_the_sign_change(a: Seq<Word16>, on_sum: bool, b: Bracket)
    requires
        b.xlow.0 <= b.xhigh.0,
        b.ylow.0 <= 0 <= b.yhigh.0 || b.yhigh.0 <= 0 <= b.ylow.0,
    ensures
        ({
            let h = halved(a, on_sum, b);
            &&& h.ylow.0 <= 0 <= h.yhigh.0 || h.yhigh.0 <= 0 <= h.ylow.0
            &&& (h.xlow, h.ylow) == (b.xlow, b.ylow) || (h.xhigh, h.yhigh) == (b.xhigh, b.yhigh)
            &&& 2 * (h.xhigh.0 - h.xlow.0) <= b.xhigh.0 - b.xlow.0 + 2
        }),
{
    reveal(crate::fixed_point::spec_add_s);
    reveal(crate::fixed_point::spec_l_mult);
    vstd::arithmetic::power2::lemma2_to64();
    lemma_shr(b.xlow, 1, 2);
    lemma_shr(b.xhigh, 1, 2);
    let xmid = add_s(shr(b.xlow, 1), shr(b.xhigh, 1));
    let ymid = value_at(a, on_sum, xmid);
    let y = b.ylow.0 as int;
    let m = ymid.0 as int;
    assert((y * m > 0) == (y > 0 && m > 0 || y < 0 && m < 0)) by (nonlinear_arith);
}

/// An interval that begins on a root gives that root.
pub proof fn law_root_at_the_end_is_found(b: Bracket)
    requires
        b.ylow.0 == 0,
    ensures
        line_root(b) == b.xlow,
{
    reveal(line_root);
    reveal(crate::fixed_point::spec_sub_s);
    reveal(crate::fixed_point::spec_extract_l);
    vstd::arithmetic::power2::lemma2_to64();
    let dx = sub_s(b.xhigh, b.xlow);
    let dy = sub_s(b.yhigh, b.ylow);
    let magnitude = abs_s(dy);
    let exp = norm_s(magnitude);
    let reciprocal = div_s(Word16(16383), shl(magnitude, exp));
    let slope = extract_l(l_shr(l_mult(dx, reciprocal), sub_s(Word16(20), Word16(exp)).0));
    let signed = if dy.0 < 0 {
        negate(slope)
    } else {
        slope
    };
    assert(b.ylow.0 * signed.0 == 0) by (nonlinear_arith)
        requires
            b.ylow.0 == 0,
    ;
    lemma_l_mac(Word32(0), b.ylow, signed);
    lemma_l_shr(Word32(0), 11, 2048);
}

} // verus!
