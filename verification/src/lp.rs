//! Linear prediction: windowed autocorrelation, and the conversions between
//! predictors, immittance pairs and their frequencies.

use vstd::prelude::*;
use crate::fixed_point::{
    add_s, extract_l, l_abs, l_add, l_deposit_h, l_extract, l_mac, l_msu, l_mult, l_shl, l_shr,
    l_shr_r, l_sub, lemma_l_mac, lemma_l_shr, lemma_round, lemma_shr, mpy_32, mpy_32_16, mult,
    mult_r, norm_l, round, shl, shr, shr_r, sub_s, Word16, Word32,
};
use crate::isf_noise::LP_ORDER;
use crate::math::{accumulate, falling, lemma_falling, mac_run};

verus! {

/// Samples the analysis window spans.
pub const WINDOW_LEN: usize = 384;

/// Subframes per frame.
pub const NB_SUBFR: usize = 4;

/// The asymmetric analysis window, Q15: 256 points of a Hamming half, then
/// 128 of a cosine quarter.
pub const WINDOW: [i16; WINDOW_LEN] = [
    2621, 2622, 2626, 2632, 2640, 2650, 2662, 2677, 2694, 2714, 2735, 2759, 2785, 2814, 2844,
    2877, 2912, 2949, 2989, 3031, 3075, 3121, 3169, 3220, 3273, 3328, 3385, 3444, 3506, 3569,
    3635, 3703, 3773, 3845, 3919, 3996, 4074, 4155, 4237, 4321, 4408, 4496, 4587, 4680, 4774,
    4870, 4969, 5069, 5171, 5275, 5381, 5489, 5599, 5710, 5824, 5939, 6056, 6174, 6295, 6417,
    6541, 6666, 6793, 6922, 7052, 7185, 7318, 7453, 7590, 7728, 7868, 8010, 8152, 8296, 8442,
    8589, 8737, 8887, 9038, 9191, 9344, 9499, 9655, 9813, 9971, 10131, 10292, 10454, 10617, 10781,
    10946, 11113, 11280, 11448, 11617, 11787, 11958, 12130, 12303, 12476, 12650, 12825, 13001,
    13178, 13355, 13533, 13711, 13890, 14070, 14250, 14431, 14612, 14793, 14975, 15158, 15341,
    15524, 15708, 15892, 16076, 16260, 16445, 16629, 16814, 16999, 17185, 17370, 17555, 17741,
    17926, 18111, 18296, 18481, 18667, 18851, 19036, 19221, 19405, 19589, 19773, 19956, 20139,
    20322, 20504, 20686, 20867, 21048, 21229, 21409, 21588, 21767, 21945, 22122, 22299, 22475,
    22651, 22825, 22999, 23172, 23344, 23516, 23686, 23856, 24025, 24192, 24359, 24525, 24689,
    24853, 25016, 25177, 25337, 25496, 25654, 25811, 25967, 26121, 26274, 26426, 26576, 26725,
    26873, 27019, 27164, 27308, 27450, 27590, 27729, 27867, 28003, 28137, 28270, 28401, 28531,
    28659, 28785, 28910, 29033, 29154, 29274, 29391, 29507, 29622, 29734, 29845, 29953, 30060,
    30165, 30268, 30370, 30469, 30566, 30662, 30755, 30847, 30936, 31024, 31109, 31193, 31274,
    31354, 31431, 31506, 31579, 31650, 31719, 31786, 31851, 31913, 31974, 32032, 32088, 32142,
    32194, 32243, 32291, 32336, 32379, 32419, 32458, 32494, 32528, 32560, 32589, 32617, 32642,
    32664, 32685, 32703, 32719, 32733, 32744, 32753, 32760, 32764, 32767, 32767, 32765, 32757,
    32745, 32727, 32705, 32678, 32646, 32609, 32567, 32520, 32468, 32411, 32349, 32283, 32211,
    32135, 32054, 31968, 31877, 31781, 31681, 31575, 31465, 31351, 31231, 31107, 30978, 30844,
    30706, 30563, 30415, 30263, 30106, 29945, 29779, 29609, 29434, 29255, 29071, 28883, 28691,
    28494, 28293, 28087, 27878, 27664, 27446, 27224, 26997, 26767, 26533, 26294, 26052, 25806,
    25555, 25301, 25043, 24782, 24516, 24247, 23974, 23698, 23418, 23134, 22847, 22557, 22263,
    21965, 21665, 21361, 21054, 20743, 20430, 20113, 19794, 19471, 19146, 18817, 18486, 18152,
    17815, 17476, 17134, 16789, 16442, 16092, 15740, 15385, 15028, 14669, 14308, 13944, 13579,
    13211, 12841, 12470, 12096, 11721, 11344, 10965, 10584, 10202, 9819, 9433, 9047, 8659, 8270,
    7879, 7488, 7095, 6701, 6306, 5910, 5514, 5116, 4718, 4319, 3919, 3519, 3118, 2716, 2315,
    1913, 1510, 1108, 705, 302,
];

/// The lag window, upper halves.
pub const LAG_HIGH: [i16; 16] = [
    32750, 32707, 32637, 32538, 32411, 32257, 32075, 31867, 31633, 31374, 31089, 30780, 30449,
    30094, 29718, 29321,
];

/// The lag window, lower halves.
pub const LAG_LOW: [i16; 16] = [
    16896, 30464, 2496, 4480, 12160, 3520, 24320, 24192, 20736, 576, 18240, 31488, 128, 16704,
    11520, 14784,
];

/// `cos(i * pi / 128)`, Q15.
pub const COSINE: [i16; 129] = [
    32767, 32758, 32729, 32679, 32610, 32522, 32413, 32286, 32138, 31972, 31786, 31581, 31357,
    31114, 30853, 30572, 30274, 29957, 29622, 29269, 28899, 28511, 28106, 27684, 27246, 26791,
    26320, 25833, 25330, 24812, 24279, 23732, 23170, 22595, 22006, 21403, 20788, 20160, 19520,
    18868, 18205, 17531, 16846, 16151, 15447, 14733, 14010, 13279, 12540, 11793, 11039, 10279,
    9512, 8740, 7962, 7180, 6393, 5602, 4808, 4011, 3212, 2411, 1608, 804, 0, -804, -1608, -2411,
    -3212, -4011, -4808, -5602, -6393, -7180, -7962, -8740, -9512, -10279, -11039, -11793, -12540,
    -13279, -14010, -14733, -15447, -16151, -16846, -17531, -18205, -18868, -19520, -20160,
    -20788, -21403, -22006, -22595, -23170, -23732, -24279, -24812, -25330, -25833, -26320,
    -26791, -27246, -27684, -28106, -28511, -28899, -29269, -29622, -29957, -30274, -30572,
    -30853, -31114, -31357, -31581, -31786, -31972, -32138, -32286, -32413, -32522, -32610,
    -32679, -32729, -32758, -32768,
];

/// The slope of the arc cosine between two points of [`COSINE`], Q11.
pub const ARC_SLOPE: [i16; 128] = [
    -26214, -9039, -5243, -3799, -2979, -2405, -2064, -1771, -1579, -1409, -1279, -1170, -1079,
    -1004, -933, -880, -827, -783, -743, -708, -676, -647, -621, -599, -576, -557, -538, -521,
    -506, -492, -479, -466, -456, -445, -435, -426, -417, -410, -402, -395, -389, -383, -377,
    -372, -367, -363, -359, -355, -351, -348, -345, -342, -340, -337, -335, -333, -331, -330,
    -329, -328, -327, -326, -326, -326, -326, -326, -326, -327, -328, -329, -330, -331, -333,
    -335, -337, -340, -342, -345, -348, -351, -355, -359, -363, -367, -372, -377, -383, -389,
    -395, -402, -410, -417, -426, -435, -445, -456, -466, -479, -492, -506, -521, -538, -557,
    -576, -599, -621, -647, -676, -708, -743, -783, -827, -880, -933, -1004, -1079, -1170, -1279,
    -1409, -1579, -1771, -2064, -2405, -2979, -3799, -5243, -9039, -26214,
];

/// How much of the new spectrum each subframe takes, Q15.
pub const INTERPOL_FRAC: [i16; 4] = [14746, 26214, 31457, 32767];

// ---------------------------------------------------------------------------
// Autocorrelation
// ---------------------------------------------------------------------------

/// Autocorrelations in double precision.
#[derive(Clone, Copy, Debug, PartialEq, Eq)]
pub struct Autocorrelation {
    /// Upper halves.
    pub high: [Word16; 17],
    /// Lower halves.
    pub low: [Word16; 17],
}

/// The windowed signal.
pub open spec fn windowed(x: Seq<Word16>) -> Seq<Word16> {
    Seq::new(384, |i: int| mult_r(x[i], Word16(WINDOW@[i])))
}

/// The energy of the first `n` samples, at a 256th.
pub open spec fn coarse_energy(y: Seq<Word16>, n: int) -> Word32
    decreases n,
{
    if n <= 0 {
        l_deposit_h(Word16(16))
    } else {
        l_add(coarse_energy(y, n - 1), l_shr(l_mult(y[n - 1], y[n - 1]), 8))
    }
}

/// The shift that keeps the correlations of a windowed signal in range.
pub open spec fn safety_shift(y: Seq<Word16>) -> i16 {
    let shift = sub_s(Word16(4), shr(Word16(norm_l(coarse_energy(y, 384))), 1));
    if shift.0 < 0 {
        0
    } else {
        shift.0
    }
}

/// The windowed signal, shifted.
pub open spec fn conditioned(x: Seq<Word16>) -> Seq<Word16> {
    let y = windowed(x);
    Seq::new(384, |i: int| shr_r(y[i], safety_shift(y)))
}

/// The correlation at a lag; the energy never vanishes.
pub open spec fn correlation(y: Seq<Word16>, lag: int) -> Word32 {
    mac_run(
        if lag == 0 {
            Word32(1)
        } else {
            Word32(0)
        },
        y,
        0,
        y,
        lag,
        384 - lag,
    )
}

/// The normalised correlation at a lag.
pub open spec fn normalised(y: Seq<Word16>, lag: int) -> Word32 {
    l_shl(correlation(y, lag), norm_l(correlation(y, 0)))
}

/// The autocorrelations of a window of speech, before the lag window.
pub open spec fn correlated(r: Autocorrelation, x: Seq<Word16>) -> bool {
    forall|i: int|
        0 <= i < 17 ==> (#[trigger] r.high@[i], r.low@[i]) == l_extract(
            normalised(conditioned(x), i),
        )
}

/// The correlations of a window of speech in double precision.
pub open spec fn raw_pair(x: Seq<Word16>, lag: int) -> (Word16, Word16) {
    l_extract(normalised(conditioned(x), lag))
}

/// The lag-windowed correlations of a window of speech.
pub open spec fn lag_pair(x: Seq<Word16>, lag: int) -> (Word16, Word16) {
    lagged(raw_pair(x, lag).0, raw_pair(x, lag).1, lag)
}

/// The upper halves of the lag-windowed correlations.
pub open spec fn lag_high(x: Seq<Word16>) -> Seq<Word16> {
    Seq::new(17, |i: int| lag_pair(x, i).0)
}

/// The lower halves of the lag-windowed correlations.
pub open spec fn lag_low(x: Seq<Word16>) -> Seq<Word16> {
    Seq::new(17, |i: int| lag_pair(x, i).1)
}

/// Autocorrelate a window of speech.
pub fn autocorrelation(x: &[Word16; WINDOW_LEN]) -> (r: Autocorrelation)
    ensures
        correlated(r, x@),
{
    let mut y: [Word16; WINDOW_LEN] = [Word16(0); WINDOW_LEN];
    let mut energy = l_deposit_h(Word16(16));
    for i in 0..WINDOW_LEN
        invariant
            forall|j: int| 0 <= j < i ==> #[trigger] y@[j] == windowed(x@)[j],
            energy == coarse_energy(windowed(x@), i as int),
    {
        let s = mult_r(x[i], Word16(WINDOW[i]));
        y[i] = s;
        energy = l_add(energy, l_shr(l_mult(s, s), 8));
    }
    assert(y@ =~= windowed(x@));
    let wanted = sub_s(Word16(4), shr(Word16(norm_l(energy)), 1));
    let shift: i16 = if wanted.0 < 0 {
        0
    } else {
        wanted.0
    };
    for i in 0..WINDOW_LEN
        invariant
            shift == safety_shift(windowed(x@)),
            forall|j: int| 0 <= j < i ==> #[trigger] y@[j] == conditioned(x@)[j],
            forall|j: int| i <= j < 384 ==> #[trigger] y@[j] == windowed(x@)[j],
    {
        y[i] = shr_r(y[i], shift);
    }
    assert(y@ =~= conditioned(x@));
    let mut r = Autocorrelation { high: [Word16(0); 17], low: [Word16(0); 17] };
    let first = accumulate(Word32(1), &y, 0, &y, 0, WINDOW_LEN);
    let norm: i16 = norm_l(first);
    for i in 0..17usize
        invariant
            y@ == conditioned(x@),
            norm == norm_l(correlation(y@, 0)),
            forall|j: int|
                0 <= j < i ==> (#[trigger] r.high@[j], r.low@[j]) == l_extract(normalised(y@, j)),
    {
        let seed = if i == 0 {
            Word32(1)
        } else {
            Word32(0)
        };
        let sum = accumulate(seed, &y, 0, &y, i, WINDOW_LEN - i);
        let (hi, lo) = l_extract(l_shl(sum, norm));
        r.high[i] = hi;
        r.low[i] = lo;
    }
    r
}

/// A lag's correlation under the lag window.
pub open spec fn lagged(hi: Word16, lo: Word16, lag: int) -> (Word16, Word16) {
    if lag == 0 {
        (hi, lo)
    } else {
        l_extract(mpy_32(hi, lo, Word16(LAG_HIGH@[lag - 1]), Word16(LAG_LOW@[lag - 1])))
    }
}

/// Apply the lag window.
pub fn lag_window(r: &mut Autocorrelation)
    ensures
        forall|i: int|
            0 <= i < 17 ==> (#[trigger] final(r).high@[i], final(r).low@[i]) == lagged(
                old(r).high@[i],
                old(r).low@[i],
                i,
            ),
{
    for i in 1..17usize
        invariant
            forall|j: int|
                0 <= j < i ==> (#[trigger] r.high@[j], r.low@[j]) == lagged(
                    old(r).high@[j],
                    old(r).low@[j],
                    j,
                ),
            forall|j: int| i <= j < 17 ==> #[trigger] r.high@[j] == old(r).high@[j],
            forall|j: int| i <= j < 17 ==> #[trigger] r.low@[j] == old(r).low@[j],
    {
        let (hi, lo) = l_extract(
            mpy_32(r.high[i], r.low[i], Word16(LAG_HIGH[i - 1]), Word16(LAG_LOW[i - 1])),
        );
        r.high[i] = hi;
        r.low[i] = lo;
    }
}

// ---------------------------------------------------------------------------
// Immittance pairs and frequencies
// ---------------------------------------------------------------------------

/// The last point at or below `ind` whose cosine reaches `x`.
pub open spec fn arc_slot(x: Word16, ind: int) -> int
    decreases ind,
{
    if ind > 0 && COSINE@[ind] < x.0 {
        arc_slot(x, ind - 1)
    } else {
        ind
    }
}

/// The point at which the search for pair `i` ends. The last two pairs start
/// at the end of the table, every other one where the one after it ended.
pub open spec fn pair_slot(isp: Seq<Word16>, i: int) -> int
    decreases 16 - i,
{
    arc_slot(
        isp[i],
        if i >= 14 {
            127
        } else {
            pair_slot(isp, i + 1)
        },
    )
}

/// The frequency of a cosine in the interval that begins at a point.
pub open spec fn arc_cosine(x: Word16, ind: int) -> Word16 {
    let step = l_mult(sub_s(x, Word16(COSINE@[ind])), Word16(ARC_SLOPE@[ind]));
    add_s(round(l_shl(step, 4)), shl(Word16(ind as i16), 7))
}

/// The frequencies of sixteen pairs; the last is at half scale.
#[verifier::opaque]
pub open spec fn isf_of(isp: Seq<Word16>) -> Seq<Word16> {
    Seq::new(
        16,
        |i: int|
            if i == 15 {
                shr(arc_cosine(isp[i], pair_slot(isp, i)), 1)
            } else {
                arc_cosine(isp[i], pair_slot(isp, i))
            },
    )
}

/// Convert immittance pairs to frequencies.
#[must_use]
pub fn isp_to_isf(isp: &[Word16; LP_ORDER]) -> (isf: [Word16; LP_ORDER])
    ensures
        isf@ == isf_of(isp@),
{
    proof {
        reveal(isf_of);
    }
    let mut isf: [Word16; LP_ORDER] = [Word16(0); LP_ORDER];
    let mut ind: usize = 127;
    let mut k: usize = LP_ORDER;
    while k > 0
        invariant
            k <= 16,
            ind <= 127,
            k < 16 ==> ind == pair_slot(isp@, k as int),
            forall|j: int|
                k <= j < 16 ==> #[trigger] isf@[j] == arc_cosine(isp@[j], pair_slot(isp@, j)),
        decreases k,
    {
        let i: usize = k - 1;
        if i >= 14 {
            ind = 127;
        }
        let ghost start = ind as int;
        while ind > 0 && COSINE[ind] < isp[i].0
            invariant
                i < 16,
                ind <= 127,
                arc_slot(isp@[i as int], ind as int) == arc_slot(isp@[i as int], start),
            decreases ind,
        {
            ind -= 1;
        }
        assert(ind == pair_slot(isp@, i as int));
        let step = l_mult(sub_s(isp[i], Word16(COSINE[ind])), Word16(ARC_SLOPE[ind]));
        isf[i] = add_s(round(l_shl(step, 4)), shl(Word16(ind as i16), 7));
        k = i;
    }
    isf[15] = shr(isf[15], 1);
    assert(isf@ =~= isf_of(isp@));
    isf
}

/// A frequency brought onto the table.
pub open spec fn tabled(f: Word16) -> Word16 {
    if f.0 < 0 {
        Word16(0)
    } else if f.0 > 16383 {
        Word16(16383)
    } else {
        f
    }
}

/// The cosine of a frequency, between two points of the table.
pub open spec fn cosine_of(frequency: Word16) -> Word16 {
    let f = tabled(frequency);
    let ind = f.0 as int / 128;
    let offset = Word16((f.0 as int % 128) as i16);
    let step = l_mult(sub_s(Word16(COSINE@[ind + 1]), Word16(COSINE@[ind])), offset);
    add_s(Word16(COSINE@[ind]), extract_l(l_shr(step, 8)))
}

/// The pairs of a spectrum; the last frequency is at half scale.
#[verifier::opaque]
pub open spec fn isp_of(isf: Seq<Word16>) -> Seq<Word16> {
    Seq::new(
        isf.len(),
        |i: int|
            if i == isf.len() - 1 {
                cosine_of(shl(isf[i], 1))
            } else {
                cosine_of(isf[i])
            },
    )
}

/// The cosine of a frequency; one beyond the table is taken at its end.
pub fn cosine(frequency: Word16) -> (x: Word16)
    ensures
        x == cosine_of(frequency),
{
    let f = if frequency.0 < 0 {
        Word16(0)
    } else if frequency.0 > 16383 {
        Word16(16383)
    } else {
        frequency
    };
    let ind: usize = (f.0 as usize) / 128;
    let offset = Word16(((f.0 as usize) % 128) as i16);
    let step = l_mult(sub_s(Word16(COSINE[ind + 1]), Word16(COSINE[ind])), offset);
    add_s(Word16(COSINE[ind]), extract_l(l_shr(step, 8)))
}

/// Convert sixteen frequencies to immittance pairs.
#[must_use]
pub fn isf_to_isp(isf: &[Word16; LP_ORDER]) -> (isp: [Word16; LP_ORDER])
    ensures
        isp@ == isp_of(isf@),
{
    proof {
        reveal(isp_of);
    }
    let mut isp: [Word16; LP_ORDER] = [Word16(0); LP_ORDER];
    for i in 0..15usize
        invariant
            forall|j: int| 0 <= j < i ==> #[trigger] isp@[j] == cosine_of(isf@[j]),
    {
        isp[i] = cosine(isf[i]);
    }
    isp[15] = cosine(shl(isf[15], 1));
    assert(isp@ =~= isp_of(isf@));
    isp
}

// ---------------------------------------------------------------------------
// Pairs to predictors
// ---------------------------------------------------------------------------

/// Twice the product of a coefficient and a cosine.
pub open spec fn twice_by(f: Word32, x: Word16) -> Word32 {
    l_shl(mpy_32_16(l_extract(f).0, l_extract(f).1, x), 1)
}

/// The polynomial whose roots are every other pair from `first`, with `n`
/// factors; `unit` is the scale.
pub open spec fn pair_polynomial(isp: Seq<Word16>, first: int, n: int, unit: i16) -> Seq<Word32>
    decreases n,
{
    if n <= 1 {
        seq![
            l_mult(Word16(4096), Word16((4 * unit) as i16)),
            l_mult(isp[first], Word16((-unit) as i16)),
        ]
    } else {
        let g = pair_polynomial(isp, first, n - 1, unit);
        let x = isp[first + 2 * (n - 1)];
        Seq::new((n + 1) as nat, |k: int| next_coefficient(g, x, n, unit, k))
    }
}

/// Coefficient `k` once a polynomial `g` has been given an `n`-th factor.
pub open spec fn next_coefficient(g: Seq<Word32>, x: Word16, n: int, unit: i16, k: int) -> Word32 {
    if k == 0 {
        g[0]
    } else if k == 1 {
        l_msu(g[1], x, Word16(unit))
    } else {
        let base = if k == n {
            g[n - 2]
        } else {
            g[k]
        };
        l_add(l_sub(base, twice_by(g[k - 1], x)), g[k - 2])
    }
}

/// Expand a polynomial from its pairs.
fn expand(isp: &[Word16], first: usize, n: usize, unit: i16) -> (f: [Word32; 11])
    requires
        1 <= n <= 10,
        first + 2 * (n - 1) < isp.len() <= 20,
        unit == 256 || unit == 64,
    ensures
        forall|k: int|
            0 <= k <= n ==> #[trigger] f@[k] == pair_polynomial(
                isp@,
                first as int,
                n as int,
                unit,
            )[k],
{
    let mut f: [Word32; 11] = [Word32(0); 11];
    f[0] = l_mult(Word16(4096), Word16(4 * unit));
    f[1] = l_mult(isp[first], Word16(-unit));
    for i in 2..n + 1
        invariant
            1 <= n <= 10,
            first + 2 * (n - 1) < isp.len() <= 20,
            unit == 256 || unit == 64,
            forall|k: int|
                0 <= k < i ==> #[trigger] f@[k] == pair_polynomial(
                    isp@,
                    first as int,
                    i - 1,
                    unit,
                )[k],
    {
        let ghost g = pair_polynomial(isp@, first as int, i - 1, unit);
        let x = isp[first + 2 * (i - 1)];
        f[i] = f[i - 2];
        let mut k: usize = i;
        while k >= 2
            invariant
                1 <= k <= i <= 10,
                g == pair_polynomial(isp@, first as int, i - 1, unit),
                g.len() == i,
                forall|j: int|
                    k < j <= i ==> #[trigger] f@[j] == next_coefficient(g, x, i as int, unit, j),
                forall|j: int|
                    0 <= j <= k ==> #[trigger] f@[j] == if j == i {
                        g[i - 2]
                    } else {
                        g[j]
                    },
            decreases k,
        {
            let (hi, lo) = l_extract(f[k - 1]);
            let t = l_shl(mpy_32_16(hi, lo, x), 1);
            f[k] = l_add(l_sub(f[k], t), f[k - 2]);
            k -= 1;
        }
        f[1] = l_msu(f[1], x, Word16(unit));
    }
    f
}

/// The scale of the expansion: wide orders have less room.
pub open spec fn expansion_unit(m: int) -> i16 {
    if m / 2 > 8 {
        64
    } else {
        256
    }
}

/// A coefficient of the expansion at the common scale.
pub open spec fn rescaled(f: Word32, m: int) -> Word32 {
    if m / 2 > 8 {
        l_shl(f, 2)
    } else {
        f
    }
}

/// Coefficient `i` of the symmetric polynomial, weighted by the last pair.
pub open spec fn symmetric(isp: Seq<Word16>, i: int) -> Word32 {
    let m = isp.len() as int;
    let f = rescaled(pair_polynomial(isp, 0, m / 2, expansion_unit(m))[i], m);
    l_add(f, mpy_32_16(l_extract(f).0, l_extract(f).1, isp[m - 1]))
}

/// Coefficient `i` of the antisymmetric polynomial before weighting: the
/// factor `1 - z^-2` multiplied back in.
pub open spec fn antisymmetric_raw(isp: Seq<Word16>, i: int) -> Word32 {
    let m = isp.len() as int;
    let p = pair_polynomial(isp, 1, m / 2 - 1, expansion_unit(m));
    if i >= 2 {
        l_sub(rescaled(p[i], m), rescaled(p[i - 2], m))
    } else {
        rescaled(p[i], m)
    }
}

/// Coefficient `i` of the antisymmetric polynomial, weighted by the last pair.
pub open spec fn antisymmetric(isp: Seq<Word16>, i: int) -> Word32 {
    let f = antisymmetric_raw(isp, i);
    l_sub(f, mpy_32_16(l_extract(f).0, l_extract(f).1, isp[isp.len() - 1]))
}

/// The largest magnitude among the sums and differences below `n`.
pub open spec fn largest_term(isp: Seq<Word16>, n: int) -> Word32
    decreases n,
{
    if n <= 1 {
        Word32(1)
    } else {
        let before = largest_term(isp, n - 1);
        let s = l_abs(l_add(symmetric(isp, n - 1), antisymmetric(isp, n - 1)));
        let d = l_abs(l_sub(symmetric(isp, n - 1), antisymmetric(isp, n - 1)));
        larger(larger(before, s), d)
    }
}

/// The larger of two accumulators.
pub open spec fn spec_larger(a: Word32, b: Word32) -> Word32 {
    if b.0 > a.0 {
        b
    } else {
        a
    }
}

/// The larger of two accumulators.
#[verifier::when_used_as_spec(spec_larger)]
pub fn larger(a: Word32, b: Word32) -> (r: Word32)
    ensures
        r == spec_larger(a, b),
{
    if b.0 > a.0 {
        b
    } else {
        a
    }
}

/// How far the predictor is shifted down so that nothing overflows.
pub open spec fn adaptive_shift(isp: Seq<Word16>, adaptive: bool) -> i16 {
    let q = sub_s(Word16(4), Word16(norm_l(largest_term(isp, isp.len() as int / 2))));
    if adaptive && q.0 > 0 {
        q.0
    } else {
        0
    }
}

/// The predictor of a set of pairs.
#[verifier::opaque]
pub open spec fn lp_of(isp: Seq<Word16>, adaptive: bool) -> Seq<Word16> {
    let m = isp.len() as int;
    let nc = m / 2;
    let q = adaptive_shift(isp, adaptive);
    let q_sug = add_s(Word16(12), Word16(q)).0;
    Seq::new(
        (m + 1) as nat,
        |i: int|
            if i == 0 {
                shr(Word16(4096), q)
            } else if i < nc {
                extract_l(l_shr_r(l_add(symmetric(isp, i), antisymmetric(isp, i)), q_sug))
            } else if i == nc {
                extract_l(l_shr_r(symmetric(isp, nc), q_sug))
            } else if i < m {
                extract_l(l_shr_r(l_sub(symmetric(isp, m - i), antisymmetric(isp, m - i)), q_sug))
            } else {
                shr_r(isp[m - 1], add_s(Word16(3), Word16(q)).0)
            },
    )
}

/// Convert pairs to a predictor of the same order.
pub fn isp_to_lp_order(isp: &[Word16], adaptive: bool, a: &mut [Word16])
    requires
        isp.len() == 16 || isp.len() == 20,
        old(a).len() == isp.len() + 1,
    ensures
        final(a)@ == lp_of(isp@, adaptive),
{
    proof {
        reveal(lp_of);
    }
    let m: usize = isp.len();
    let nc: usize = m / 2;
    let wide: bool = nc > 8;
    let unit: i16 = if wide {
        64
    } else {
        256
    };
    let last = isp[m - 1];
    let raw1 = expand(isp, 0, nc, unit);
    let raw2 = expand(isp, 1, nc - 1, unit);
    let mut s: [Word32; 11] = [Word32(0); 11];
    let mut d: [Word32; 11] = [Word32(0); 11];
    let mut largest = Word32(1);
    for i in 0..nc + 1
        invariant
            m == isp@.len(),
            m == 16 || m == 20,
            nc == m / 2,
            wide == (nc > 8),
            unit == expansion_unit(m as int),
            last == isp@[m - 1],
            forall|k: int|
                0 <= k <= nc ==> #[trigger] raw1@[k] == pair_polynomial(isp@, 0, nc as int, unit)[k],
            forall|k: int|
                0 <= k < nc ==> #[trigger] raw2@[k] == pair_polynomial(isp@, 1, nc - 1, unit)[k],
            forall|k: int| 0 <= k < i ==> #[trigger] s@[k] == symmetric(isp@, k),
            forall|k: int| 0 <= k < i && k < nc ==> #[trigger] d@[k] == antisymmetric(isp@, k),
            largest == largest_term(
                isp@,
                if i < nc {
                    i as int
                } else {
                    nc as int
                },
            ),
    {
        let f = if wide {
            l_shl(raw1[i], 2)
        } else {
            raw1[i]
        };
        let (hi, lo) = l_extract(f);
        s[i] = l_add(f, mpy_32_16(hi, lo, last));
        if i < nc {
            let here = if wide {
                l_shl(raw2[i], 2)
            } else {
                raw2[i]
            };
            let g = if i >= 2 {
                let before = if wide {
                    l_shl(raw2[i - 2], 2)
                } else {
                    raw2[i - 2]
                };
                l_sub(here, before)
            } else {
                here
            };
            let (hi, lo) = l_extract(g);
            d[i] = l_sub(g, mpy_32_16(hi, lo, last));
            if i >= 1 {
                let sum = l_abs(l_add(s[i], d[i]));
                let difference = l_abs(l_sub(s[i], d[i]));
                largest = larger(larger(largest, sum), difference);
            }
        }
    }
    let wanted = sub_s(Word16(4), Word16(norm_l(largest)));
    let q: i16 = if adaptive && wanted.0 > 0 {
        wanted.0
    } else {
        0
    };
    let q_sug: i16 = add_s(Word16(12), Word16(q)).0;
    a[0] = shr(Word16(4096), q);
    for i in 1..nc
        invariant
            m == isp@.len(),
            m == 16 || m == 20,
            nc == m / 2,
            a@.len() == m + 1,
            a@[0] == shr(Word16(4096), q),
            forall|k: int| 0 <= k <= nc ==> #[trigger] s@[k] == symmetric(isp@, k),
            forall|k: int| 0 <= k < nc ==> #[trigger] d@[k] == antisymmetric(isp@, k),
            forall|k: int|
                1 <= k < i ==> #[trigger] a@[k] == extract_l(
                    l_shr_r(l_add(symmetric(isp@, k), antisymmetric(isp@, k)), q_sug),
                ),
            forall|k: int|
                m - i < k < m ==> #[trigger] a@[k] == extract_l(
                    l_shr_r(l_sub(symmetric(isp@, m - k), antisymmetric(isp@, m - k)), q_sug),
                ),
    {
        a[i] = extract_l(l_shr_r(l_add(s[i], d[i]), q_sug));
        a[m - i] = extract_l(l_shr_r(l_sub(s[i], d[i]), q_sug));
    }
    a[nc] = extract_l(l_shr_r(s[nc], q_sug));
    a[m] = shr_r(last, add_s(Word16(3), Word16(q)).0);
    assert(a@ =~= lp_of(isp@, adaptive));
}

/// Convert sixteen pairs to a predictor, Q12.
#[must_use]
pub fn isp_to_lp(isp: &[Word16; LP_ORDER]) -> (a: [Word16; 17])
    ensures
        a@ == lp_of(isp@, false),
{
    let mut a: [Word16; 17] = [Word16(0); 17];
    isp_to_lp_order(isp, false, &mut a);
    a
}

/// Convert sixteen pairs to a predictor, shifted down where it would overflow.
#[must_use]
pub fn isp_to_lp_adaptive(isp: &[Word16; LP_ORDER]) -> (a: [Word16; 17])
    ensures
        a@ == lp_of(isp@, true),
{
    let mut a: [Word16; 17] = [Word16(0); 17];
    isp_to_lp_order(isp, true, &mut a);
    a
}

/// The pairs of a subframe between two frames.
pub open spec fn interpolated_isp(old_isp: Seq<Word16>, new_isp: Seq<Word16>, k: int) -> Seq<Word16> {
    let fac_new = Word16(INTERPOL_FRAC@[k]);
    let fac_old = add_s(sub_s(Word16(32767), fac_new), Word16(1));
    Seq::new(16, |i: int| round(l_mac(l_mult(old_isp[i], fac_old), new_isp[i], fac_new)))
}

/// The predictor of subframe `k`: the last one takes the new spectrum as it
/// is.
pub open spec fn subframe_lp(old_isp: Seq<Word16>, new_isp: Seq<Word16>, k: int) -> Seq<Word16> {
    if k == 3 {
        lp_of(new_isp, false)
    } else {
        lp_of(interpolated_isp(old_isp, new_isp, k), false)
    }
}

/// The predictors of four subframes between two frames' pairs.
#[must_use]
pub fn interpolate_isp(old_isp: &[Word16; LP_ORDER], new_isp: &[Word16; LP_ORDER]) -> (a: [[Word16;
    17]; NB_SUBFR])
    ensures
        forall|k: int| 0 <= k < 4 ==> (#[trigger] a@[k])@ == subframe_lp(old_isp@, new_isp@, k),
{
    let mut a: [[Word16; 17]; NB_SUBFR] = [[Word16(0); 17]; NB_SUBFR];
    for k in 0..3usize
        invariant
            forall|j: int|
                0 <= j < k ==> (#[trigger] a@[j])@ == subframe_lp(old_isp@, new_isp@, j),
    {
        let fac_new = Word16(INTERPOL_FRAC[k]);
        let fac_old = add_s(sub_s(Word16(32767), fac_new), Word16(1));
        let mut isp: [Word16; LP_ORDER] = [Word16(0); LP_ORDER];
        for i in 0..LP_ORDER
            invariant
                k < 3,
                fac_new == Word16(INTERPOL_FRAC@[k as int]),
                fac_old == add_s(sub_s(Word16(32767), fac_new), Word16(1)),
                forall|j: int|
                    0 <= j < i ==> #[trigger] isp@[j] == interpolated_isp(
                        old_isp@,
                        new_isp@,
                        k as int,
                    )[j],
        {
            isp[i] = round(l_mac(l_mult(old_isp[i], fac_old), new_isp[i], fac_new));
        }
        assert(isp@ =~= interpolated_isp(old_isp@, new_isp@, k as int));
        a[k] = isp_to_lp(&isp);
    }
    a[3] = isp_to_lp(new_isp);
    a
}

/// Between a vector and itself lies only itself.
pub proof fn law_interpolating_with_itself(isp: Seq<Word16>, k: int)
    requires
        isp.len() == 16,
        0 <= k < 4,
    ensures
        interpolated_isp(isp, isp, k) == isp,
{
    reveal(crate::fixed_point::spec_add_s);
    reveal(crate::fixed_point::spec_sub_s);
    reveal(crate::fixed_point::spec_l_mult);
    reveal(crate::fixed_point::spec_l_mac);
    reveal(crate::fixed_point::spec_l_add);
    reveal(crate::fixed_point::spec_round);
    reveal(crate::fixed_point::spec_extract_h);
    let fac_new = Word16(INTERPOL_FRAC@[k]);
    let fac_old = add_s(sub_s(Word16(32767), fac_new), Word16(1));
    assert(14746 <= fac_new.0 <= 32767);
    assert(fac_old.0 + fac_new.0 == 32768);
    assert forall|i: int| 0 <= i < 16 implies #[trigger] interpolated_isp(isp, isp, k)[i] == isp[i] by {
        let x = isp[i].0 as int;
        let a = fac_old.0 as int;
        let b = fac_new.0 as int;
        assert(x * a + x * b == x * (a + b)) by (nonlinear_arith);
        assert(-1073741824 <= x * a <= 1073741824) by (nonlinear_arith)
            requires
                -32768 <= x <= 32767,
                0 <= a <= 32767,
        ;
        assert(-1073741824 <= x * b <= 1073741824) by (nonlinear_arith)
            requires
                -32768 <= x <= 32767,
                0 <= b <= 32767,
        ;
    }
    assert(interpolated_isp(isp, isp, k) =~= isp);
}

/// The pairs of a frame move from the last frame's to its own: each subframe
/// lies at its share of the way, to the nearest unit, and the shares rise up to
/// the whole way in the last.
pub proof fn law_interpolation_moves_to_the_new(
    old_isp: Seq<Word16>,
    new_isp: Seq<Word16>,
    k: int,
    i: int,
)
    requires
        0 <= k < 4,
        0 <= i < 16,
    ensures
        ({
            let share = INTERPOL_FRAC@[k];
            let way = old_isp[i].0 * (32768 - share) + new_isp[i].0 * share;
            &&& -16384 <= 32768 * interpolated_isp(old_isp, new_isp, k)[i].0 - way <= 16384
            &&& k == 3 ==> share == 32767
            &&& k > 0 ==> INTERPOL_FRAC@[k - 1] < share
            &&& 0 < share
        }),
{
    reveal(crate::fixed_point::spec_add_s);
    reveal(crate::fixed_point::spec_sub_s);
    let f = INTERPOL_FRAC@[k] as int;
    let g = 32768 - f;
    assert(0 < f <= 32767);
    let x = old_isp[i].0 as int;
    let y = new_isp[i].0 as int;
    assert(-0x4000_0000 <= x * g <= 0x3fff_ffff && -0x4000_0000 <= y * f <= 0x3fff_ffff
        && -0x4000_0000 <= x * g + y * f <= 0x3fff_8000) by (nonlinear_arith)
        requires
            0 < f <= 32767,
            g == 32768 - f,
            -32768 <= x <= 32767,
            -32768 <= y <= 32767,
    ;
    let fac_new = Word16(f as i16);
    let fac_old = add_s(sub_s(Word16(32767), fac_new), Word16(1));
    assert(fac_old.0 == g);
    lemma_l_mac(Word32(0), old_isp[i], fac_old);
    lemma_l_mac(l_mult(old_isp[i], fac_old), new_isp[i], fac_new);
    lemma_round(l_mac(l_mult(old_isp[i], fac_old), new_isp[i], fac_new));
}

proof fn lemma_pulse_products(seed: Word32, y: Seq<Word16>, p: int, q: int, lag: int, n: int)
    requires
        y.len() == 384,
        0 <= p < q < 384,
        0 < lag,
        0 <= n <= 384 - lag,
        seed == Word32(0),
        -0x4000_0000 <= y[p].0 * y[q].0 <= 0x3fff_ffff,
        forall|i: int| 0 <= i < 384 && i != p && i != q ==> #[trigger] y[i] == Word16(0),
    ensures
        mac_run(seed, y, 0, y, lag, n).0 == if lag == q - p && p < n {
            2 * (y[p].0 * y[q].0)
        } else {
            0
        },
    decreases n,
{
    if n > 0 {
        lemma_pulse_products(seed, y, p, q, lag, n - 1);
        let i = n - 1;
        if i == p && i + lag == q {
            lemma_l_mac(mac_run(seed, y, 0, y, lag, n - 1), y[i], y[lag + i]);
        } else {
            assert(y[i] == Word16(0) || y[lag + i] == Word16(0));
            assert(y[i].0 * y[lag + i].0 == 0) by (nonlinear_arith)
                requires
                    y[i].0 == 0 || y[lag + i].0 == 0,
            ;
            lemma_l_mac(mac_run(seed, y, 0, y, lag, n - 1), y[i], y[lag + i]);
        }
    }
}

/// Two pulses are correlated at their distance, by twice their product, and at
/// no other lag.
pub proof fn law_two_pulses_correlate_at_their_distance(y: Seq<Word16>, p: int, q: int, lag: int)
    requires
        y.len() == 384,
        0 <= p < q < 384,
        1 <= lag <= 16,
        -0x4000_0000 <= y[p].0 * y[q].0 <= 0x3fff_ffff,
        forall|i: int| 0 <= i < 384 && i != p && i != q ==> #[trigger] y[i] == Word16(0),
    ensures
        lag == q - p ==> correlation(y, lag).0 == 2 * (y[p].0 * y[q].0),
        lag != q - p ==> correlation(y, lag).0 == 0,
{
    lemma_pulse_products(Word32(0), y, p, q, lag, 384 - lag);
}

proof fn lemma_cosine_falls()
    ensures
        falling(COSINE@, 128),
{
    assert(falling(COSINE@, 32)) by {
        reveal_with_fuel(falling, 33);
    }
    assert(falling(COSINE@, 64)) by {
        reveal_with_fuel(falling, 33);
    }
    assert(falling(COSINE@, 96)) by {
        reveal_with_fuel(falling, 33);
    }
    assert(falling(COSINE@, 128)) by {
        reveal_with_fuel(falling, 33);
    }
}

/// The cosine of a higher frequency is no larger.
pub proof fn law_cosine_falls(low: Word16, high: Word16)
    requires
        low.0 <= high.0,
    ensures
        cosine_of(low).0 >= cosine_of(high).0,
        low.0 <= 0 ==> cosine_of(low).0 == 32767,
{
    lemma_cosine_falls();
    let f = tabled(low);
    let g = tabled(high);
    lemma_cosine_between(f);
    lemma_cosine_between(g);
    let i = f.0 as int / 128;
    let j = g.0 as int / 128;
    if i < j {
        lemma_falling(COSINE@, 128, i + 1, j);
    } else {
        let d = COSINE@[i + 1] - COSINE@[i];
        let o = f.0 as int % 128;
        let p = g.0 as int % 128;
        assert(d * o >= d * p) by (nonlinear_arith)
            requires
                d <= 0,
                o <= p,
        ;
    }
    if low.0 <= 0 {
        assert((COSINE@[1] - COSINE@[0]) * 0 == 0);
    }
}

proof fn lemma_cosine_between(f: Word16)
    requires
        0 <= f.0 <= 16383,
    ensures
        ({
            let i = f.0 as int / 128;
            let d = COSINE@[i + 1] - COSINE@[i];
            &&& -900 <= d <= 0
            &&& cosine_of(f).0 == COSINE@[i] + (d * (f.0 as int % 128)) / 128
            &&& COSINE@[i + 1] <= cosine_of(f).0 <= COSINE@[i]
        }),
{
    lemma_cosine_falls();
    lemma_cosine_steps();
    let i = f.0 as int / 128;
    lemma_small_step(COSINE@, 128, i);
    lemma_falling(COSINE@, 128, i, i + 1);
    reveal(crate::fixed_point::spec_sub_s);
    reveal(crate::fixed_point::spec_add_s);
    reveal(crate::fixed_point::spec_extract_l);
    vstd::arithmetic::power2::lemma2_to64();
    let d = COSINE@[i + 1] - COSINE@[i];
    let o = f.0 as int % 128;
    assert(-900 * 128 <= d * o <= 0 && d * o >= d * 128) by (nonlinear_arith)
        requires
            -900 <= d <= 0,
            0 <= o < 128,
    ;
    let step = sub_s(Word16(COSINE@[i + 1]), Word16(COSINE@[i]));
    lemma_l_mac(Word32(0), step, Word16(o as i16));
    lemma_l_shr(l_mult(step, Word16(o as i16)), 8, 256);
}

/// Whether no step down among the first `n` is larger than 900.
spec fn gentle(table: Seq<i16>, n: int) -> bool
    decreases n,
{
    n <= 0 || gentle(table, n - 1) && table[n - 1] - table[n] <= 900
}

proof fn lemma_cosine_steps()
    ensures
        gentle(COSINE@, 128),
{
    assert(gentle(COSINE@, 32)) by {
        reveal_with_fuel(gentle, 33);
    }
    assert(gentle(COSINE@, 64)) by {
        reveal_with_fuel(gentle, 33);
    }
    assert(gentle(COSINE@, 96)) by {
        reveal_with_fuel(gentle, 33);
    }
    assert(gentle(COSINE@, 128)) by {
        reveal_with_fuel(gentle, 33);
    }
}

proof fn lemma_small_step(table: Seq<i16>, n: int, i: int)
    requires
        gentle(table, n),
        0 <= i < n,
    ensures
        table[i] - table[i + 1] <= 900,
    decreases n,
{
    if i < n - 1 {
        lemma_small_step(table, n - 1, i);
    }
}

/// The search for a pair's frequency ends at the interval of the table that
/// holds its cosine.
pub proof fn law_search_ends_at_the_interval(x: Word16, ind: int)
    requires
        0 <= ind < 128,
    ensures
        0 <= arc_slot(x, ind) <= ind,
        arc_slot(x, ind) > 0 ==> COSINE@[arc_slot(x, ind)] >= x.0,
        arc_slot(x, ind) < ind ==> COSINE@[arc_slot(x, ind) + 1] < x.0,
    decreases ind,
{
    if ind > 0 && COSINE@[ind] < x.0 {
        law_search_ends_at_the_interval(x, ind - 1);
    }
}

/// The sum of every other pair from `first`, `n` of them.
pub open spec fn pair_total(isp: Seq<Word16>, first: int, n: int) -> int
    decreases n,
{
    if n <= 0 {
        0
    } else {
        pair_total(isp, first, n - 1) + isp[first + 2 * (n - 1)].0
    }
}

/// The first two coefficients of an expanded polynomial: its scale, and twice
/// the sum of its roots with the sign turned.
pub proof fn law_roots_add_up(isp: Seq<Word16>, first: int, n: int, unit: i16)
    requires
        1 <= n <= 10,
        0 <= first <= 1,
        unit == 64 || unit == 256,
        isp.len() >= first + 2 * n - 1,
    ensures
        pair_polynomial(isp, first, n, unit).len() == n + 1,
        pair_polynomial(isp, first, n, unit)[0].0 == 32768 * unit,
        pair_polynomial(isp, first, n, unit)[1].0 == -2 * unit * pair_total(isp, first, n),
        -32768 * n <= pair_total(isp, first, n) <= 32767 * n,
    decreases n,
{
    reveal(crate::fixed_point::spec_l_mult);
    reveal_with_fuel(pair_total, 2);
    if n <= 1 {
        assert(Word16((4 * unit) as i16).0 == 4 * unit);
        assert(Word16((-unit) as i16).0 == -unit);
        if unit == 64 {
            assert(l_mult(isp[first], Word16(-64i16)).0 == -128 * isp[first].0);
            assert(-2 * unit * isp[first].0 == -128 * isp[first].0);
        } else {
            assert(l_mult(isp[first], Word16(-256i16)).0 == -512 * isp[first].0);
            assert(-2 * unit * isp[first].0 == -512 * isp[first].0);
        }
    } else {
        law_roots_add_up(isp, first, n - 1, unit);
        let x = isp[first + 2 * (n - 1)];
        let g = pair_polynomial(isp, first, n - 1, unit);
        let t = pair_total(isp, first, n - 1);
        let v = x.0 as int;
        let u = unit as int;
        assert(-2 * u * (t + v) == -2 * u * t - 2 * (v * u)) by (nonlinear_arith);
        if unit == 64 {
            assert(-2 * u * t == -128 * t) by (nonlinear_arith)
                requires
                    u == 64,
            ;
            lemma_l_mac(g[1], x, Word16(64));
        } else {
            assert(-2 * u * t == -512 * t) by (nonlinear_arith)
                requires
                    u == 256,
            ;
            lemma_l_mac(g[1], x, Word16(256));
        }
        assert(pair_polynomial(isp, first, n, unit)[1] == l_msu(g[1], x, Word16(unit)));
    }
}

/// A predictor begins with one, and ends with an eighth of the last pair.
pub proof fn law_predictor_ends(isp: Seq<Word16>)
    requires
        isp.len() == 16 || isp.len() == 20,
    ensures
        lp_of(isp, false).len() == isp.len() + 1,
        lp_of(isp, false)[0].0 == 4096,
        -4 <= 8 * lp_of(isp, false)[isp.len() as int].0 - isp[isp.len() - 1].0 <= 4,
{
    reveal(lp_of);
    reveal(crate::fixed_point::spec_shr_r);
    reveal(crate::fixed_point::spec_add_s);
    vstd::arithmetic::power2::lemma2_to64();
    lemma_shr(Word16(4096), 0, 1);
    let x = isp[isp.len() - 1].0 as int;
    assert(add_s(Word16(3), Word16(0)).0 == 3);
    assert(shr_r(isp[isp.len() - 1], 3).0 == (x + 4) / 8);
}

/// The lag window falls: a correlation counts for less at every longer lag,
/// and at lag nothing for all of itself.
pub proof fn law_lag_window_falls(hi: Word16, lo: Word16, lag: int)
    requires
        0 <= hi.0 < 32767,
        0 <= lo.0,
        0 <= lag < 16,
    ensures
        lagged(hi, lo, 0) == (hi, lo),
        0 <= lagged(hi, lo, lag + 1).0.0 <= lagged(hi, lo, lag).0.0,
{
    reveal(crate::fixed_point::spec_l_extract);
    lemma_windowed_lag(hi, lo, lag);
    if lag > 0 {
        lemma_windowed_lag(hi, lo, lag - 1);
        let h = hi.0 as int;
        let l = lo.0 as int;
        let a = LAG_HIGH@[lag - 1] as int;
        let b = LAG_HIGH@[lag] as int;
        let c = LAG_LOW@[lag - 1] as int;
        let d = LAG_LOW@[lag] as int;
        assert(a >= b + 1);
        assert(h * a >= h * b + h && l * a >= l * b && h * d <= h * c + h * 32767 && h * d <= h
            * 32767 && 0 <= h * c) by (nonlinear_arith)
            requires
                a >= b + 1,
                0 <= h,
                0 <= l,
                0 <= c,
                d <= 32767,
        ;
        assert((h * d) / 32768 <= h && (h * c) / 32768 >= 0);
    } else {
        let h = hi.0 as int;
        let l = lo.0 as int;
        let a = LAG_HIGH@[0] as int;
        let c = LAG_LOW@[0] as int;
        assert(h * a <= h * 32750 && l * a <= l * 32750 && h * c <= h * 32767) by (nonlinear_arith)
            requires
                a <= 32750,
                c <= 32767,
                0 <= h,
                0 <= l,
        ;
    }
}

proof fn lemma_windowed_lag(hi: Word16, lo: Word16, at: int)
    requires
        0 <= hi.0 < 32767,
        0 <= lo.0,
        0 <= at < 16,
    ensures
        mpy_32(hi, lo, Word16(LAG_HIGH@[at]), Word16(LAG_LOW@[at])).0 == 2 * (hi.0 * LAG_HIGH@[at])
            + 2 * ((hi.0 * LAG_LOW@[at]) / 32768) + 2 * ((lo.0 * LAG_HIGH@[at]) / 32768),
        0 <= mpy_32(hi, lo, Word16(LAG_HIGH@[at]), Word16(LAG_LOW@[at])).0,
        20000 <= LAG_HIGH@[at] <= 32750,
        0 <= LAG_LOW@[at],
{
    reveal(crate::fixed_point::spec_mpy_32);
    reveal(crate::fixed_point::spec_mult);
    let h = hi.0 as int;
    let l = lo.0 as int;
    let a = LAG_HIGH@[at] as int;
    let c = LAG_LOW@[at] as int;
    assert(20000 <= a <= 32750 && 0 <= c <= 32767);
    assert(0 <= h * a <= 32766 * 32750 && 0 <= h * c <= 32766 * 32767 && 0 <= l * a <= 32767 * 32750)
        by (nonlinear_arith)
        requires
            0 <= h <= 32766,
            0 <= l <= 32767,
            0 <= a <= 32750,
            0 <= c <= 32767,
    ;
    let w = Word16(LAG_HIGH@[at]);
    let z = Word16(LAG_LOW@[at]);
    let m = mult(hi, z);
    let n = mult(lo, w);
    assert(m.0 == (h * c) / 32768 && n.0 == (l * a) / 32768);
    assert(m.0 * 1 == m.0 && n.0 * 1 == n.0);
    lemma_l_mac(Word32(0), hi, w);
    lemma_l_mac(l_mult(hi, w), m, Word16(1));
    lemma_l_mac(l_mac(l_mult(hi, w), m, Word16(1)), n, Word16(1));
}

} // verus!
