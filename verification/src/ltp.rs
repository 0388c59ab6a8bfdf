//! Long-term prediction: the adaptive codebook and its low-pass.

use vstd::prelude::*;
use crate::fixed_point::{l_mac, l_mult, l_shl, lemma_l_mac, lemma_round, round, Word16, Word32};

verus! {

/// Samples in a subframe.
pub const L_SUBFR: usize = 64;

/// Quarter-sample interpolation of the past excitation, Q14, 32 taps for each
/// of the four phases, interleaved by phase.
pub const INTER4_2: [i16; 128] = [
    0, 1, 2, 1, -2, -7, -10, -7, 4, 19, 28, 22, -2, -33, -55, -49, -10, 47, 91, 92, 38, -52, -133,
    -153, -88, 43, 175, 231, 165, -9, -209, -325, -275, -60, 226, 431, 424, 175, -213, -544, -619,
    -355, 153, 656, 871, 626, -16, -762, -1207, -1044, -249, 853, 1699, 1749, 780, -923, -2598,
    -3267, -2147, 968, 5531, 10359, 14031, 15401, 14031, 10359, 5531, 968, -2147, -3267, -2598,
    -923, 780, 1749, 1699, 853, -249, -1044, -1207, -762, -16, 626, 871, 656, 153, -355, -619,
    -544, -213, 175, 424, 431, 226, -60, -275, -325, -209, -9, 165, 231, 175, 43, -88, -153, -133,
    -52, 38, 92, 91, 47, -10, -49, -55, -33, -2, 22, 28, 19, 4, -7, -10, -7, -2, 1, 2, 1, 0, 0,
];

/// The interpolation filter at `n` taps: `x` from `at`, the phase's taps from
/// `phase` on.
pub open spec fn interpolation(x: Seq<Word16>, at: int, phase: int, n: int) -> Word32
    decreases n,
{
    if n <= 0 {
        Word32(0)
    } else {
        l_mac(
            interpolation(x, at, phase, n - 1),
            x[at + n - 1],
            Word16(INTER4_2@[phase + 4 * (n - 1)]),
        )
    }
}

/// Where the filter for a lag and a fraction starts reading, one sample
/// earlier for a fraction.
pub open spec fn first_tap(offset: int, lag: int, frac: int) -> int {
    offset - lag - 15 - if frac > 0 {
        1int
    } else {
        0
    }
}

/// The phase of a fraction: the first of its interleaved taps.
pub open spec fn tap_phase(frac: int) -> int {
    if frac > 0 {
        frac - 1
    } else {
        3
    }
}

/// The excitation with `n` samples predicted from `offset` on: each is the
/// excitation one lag back, which for a short lag has itself been predicted.
pub open spec fn predicted(
    excitation: Seq<Word16>,
    offset: int,
    lag: int,
    frac: int,
    n: int,
) -> Seq<Word16>
    decreases n,
{
    if n <= 0 {
        excitation
    } else {
        let x = predicted(excitation, offset, lag, frac, n - 1);
        let acc = interpolation(x, first_tap(offset, lag, frac) + n - 1, tap_phase(frac), 32);
        x.update(offset + n - 1, round(l_shl(acc, 1)))
    }
}

/// One interpolated sample.
fn interpolate(x: &[Word16], at: usize, phase: usize) -> (acc: Word32)
    requires
        at + 32 <= x.len(),
        phase < 4,
    ensures
        acc == interpolation(x@, at as int, phase as int, 32),
{
    let mut acc = Word32(0);
    for i in 0..32usize
        invariant
            at + 32 <= x.len(),
            phase < 4,
            acc == interpolation(x@, at as int, phase as int, i as int),
    {
        acc = l_mac(acc, x[at + i], Word16(INTER4_2[phase + 4 * i]));
    }
    acc
}

/// Build the adaptive codebook vector in place: `len` samples from `offset`,
/// at an integer lag and a fraction in quarters.
pub fn predict(excitation: &mut [Word16], offset: usize, lag: usize, frac: u8, len: usize)
    requires
        16 <= lag,
        lag + 16 <= offset,
        offset + len <= old(excitation).len(),
        frac <= 3,
    ensures
        final(excitation)@ == predicted(
            old(excitation)@,
            offset as int,
            lag as int,
            frac as int,
            len as int,
        ),
        final(excitation)@.len() == old(excitation)@.len(),
{
    let (start, phase): (usize, usize) = if frac > 0 {
        (offset - lag - 16, frac as usize - 1)
    } else {
        (offset - lag - 15, 3)
    };
    for j in 0..len
        invariant
            16 <= lag,
            lag + 16 <= offset,
            offset + len <= excitation.len(),
            excitation@.len() == old(excitation)@.len(),
            phase < 4,
            phase == tap_phase(frac as int),
            start == first_tap(offset as int, lag as int, frac as int),
            excitation@ == predicted(
                old(excitation)@,
                offset as int,
                lag as int,
                frac as int,
                j as int,
            ),
    {
        let acc = interpolate(excitation, start + j, phase);
        excitation[offset + j] = round(l_shl(acc, 1));
    }
}

/// One sample of the long-term low-pass: 0.18, 0.64 and 0.18 of three
/// neighbours.
pub open spec fn smoothed_at(x: Seq<Word16>, i: int) -> Word16 {
    round(
        l_mac(
            l_mac(l_mult(Word16(5898), x[i - 1]), Word16(20972), x[i]),
            Word16(5898),
            x[i + 1],
        ),
    )
}

/// Low-pass one subframe of the adaptive codebook vector at `offset`; reads
/// one sample either side of it.
pub fn low_pass(x: &[Word16], offset: usize) -> (out: [Word16; L_SUBFR])
    requires
        1 <= offset,
        offset + 64 < x.len(),
    ensures
        forall|i: int| 0 <= i < 64 ==> #[trigger] out@[i] == smoothed_at(x@, offset + i),
{
    let mut out: [Word16; L_SUBFR] = [Word16(0); L_SUBFR];
    for i in 0..L_SUBFR
        invariant
            1 <= offset,
            offset + 64 < x.len(),
            forall|j: int| 0 <= j < i ==> #[trigger] out@[j] == smoothed_at(x@, offset + j),
    {
        let acc = l_mult(Word16(5898), x[offset + i - 1]);
        let acc = l_mac(acc, Word16(20972), x[offset + i]);
        let acc = l_mac(acc, Word16(5898), x[offset + i + 1]);
        out[i] = round(acc);
    }
    out
}

// ---------------------------------------------------------------------------
// Laws
// ---------------------------------------------------------------------------

/// Each tap of the interpolation weighs a past sample by its distance from the
/// point a lag and a fraction back, in quarters of a sample, and by nothing
/// else.
pub proof fn law_taps_follow_the_distance(
    offset: int,
    lag: int,
    frac: int,
    other_lag: int,
    other_frac: int,
    m: int,
    n: int,
)
    requires
        0 <= frac < 4,
        0 <= other_frac < 4,
        4 * m + 4 * lag + frac == 4 * n + 4 * other_lag + other_frac,
    ensures
        tap_phase(frac) + 4 * (m - first_tap(offset, lag, frac)) == tap_phase(other_frac) + 4 * (n
            - first_tap(offset, other_lag, other_frac)),
        tap_phase(frac) + 4 * (m - first_tap(offset, lag, frac)) == 63 + 4 * (m - offset + lag)
            + frac,
{
}

/// The long-term low-pass: 18, 64 and 18 hundredths of three neighbours, to the
/// nearest unit.
pub proof fn law_low_pass_weighs_three_neighbours(x: Seq<Word16>, i: int)
    ensures
        ({
            let sum = 5898 * (x[i - 1].0 + x[i + 1].0) + 20972 * x[i].0;
            -16384 <= 32768 * smoothed_at(x, i).0 - sum <= 16384
        }),
{
    lemma_l_mac(Word32(0), Word16(5898), x[i - 1]);
    lemma_l_mac(l_mult(Word16(5898), x[i - 1]), Word16(20972), x[i]);
    lemma_l_mac(
        l_mac(l_mult(Word16(5898), x[i - 1]), Word16(20972), x[i]),
        Word16(5898),
        x[i + 1],
    );
    lemma_round(
        l_mac(
            l_mac(l_mult(Word16(5898), x[i - 1]), Word16(20972), x[i]),
            Word16(5898),
            x[i + 1],
        ),
    );
}

/// Predicting leaves everything before the subframe, and everything behind the
/// predicted samples.
pub proof fn law_prediction_leaves_the_past(
    excitation: Seq<Word16>,
    offset: int,
    lag: int,
    frac: int,
    n: int,
    i: int,
)
    requires
        0 <= n,
        0 <= offset,
        offset + n <= excitation.len(),
        0 <= i < offset || offset + n <= i < excitation.len(),
    ensures
        predicted(excitation, offset, lag, frac, n).len() == excitation.len(),
        predicted(excitation, offset, lag, frac, n)[i] == excitation[i],
    decreases n,
{
    if n > 0 {
        law_prediction_leaves_the_past(excitation, offset, lag, frac, n - 1, i);
    }
}

} // verus!
