//! The encoder's front end: from 16 kHz input to predictors and the weighted
//! speech that the open-loop pitch search runs on.

use vstd::prelude::*;
use vstd::slice::slice_subrange;
use crate::enc::conditioning::law_every_window_is_solvable;
use crate::enc::levinson::{levinson, predictor, recursion, reflections, LevinsonMemory};
use crate::enc::preproc::{
    after_emphasis, banded, banded_frame, banded_tail, carried, emphasised,
    law_scaling_is_the_least_headroom, preprocessor_inv, preprocessor_reset, scaling_of,
    Preprocessor, PreprocessorView, Scaling, L_FRAME, L_FRAME16K, L_TOTAL, NEW_SPEECH,
};
use crate::enc::roots::{az_isp, pairs_of, ISP_INIT};
use crate::fixed_point::{
    abs_s, add_s, l_deposit_h, l_mac, l_mult, l_shl, lemma_l_mac, lemma_larger_shifts_less,
    lemma_norm_s, lemma_round, norm_s, round, sub_s, Word16, Word32,
};
use crate::isf_noise::LP_ORDER;
use crate::lp::{
    autocorrelation, correlated, interpolate_isp, isf_of, isp_to_isf, lag_high, lag_low, lag_pair,
    lag_window, raw_pair, subframe_lp, Autocorrelation, NB_SUBFR,
};
use crate::math::{scale_sig, scaled, scaled_seq};
use crate::synthesis::L_SUBFR;

verus! {

/// Offset of the present frame within the total speech buffer.
pub const SPEECH: usize = 64;

/// Decimated weighted-speech history that the pitch search needs.
pub const WSP_HISTORY: usize = 115;

/// Decimated weighted speech per frame.
pub const WSP_FRAME: usize = 128;

/// Weighting factor of the perceptual filter, 0.92 in Q15.
pub const GAMMA1: i16 = 30147;

/// Spectral tilt compensation for the weighted speech, 0.68 in Q15.
pub const TILT_FAC: i16 = 22282;

/// Decimation-by-two filter for the weighted speech, Q15.
pub const H_FIR: [i16; 5] = [4260, 7536, 9175, 7536, 4260];

// ---------------------------------------------------------------------------
// Weighting and filtering
// ---------------------------------------------------------------------------

/// The `n`-th power of a factor, rounded at every step.
pub open spec fn rounded_power(gamma: Word16, n: int) -> Word16
    decreases n,
{
    if n <= 1 {
        gamma
    } else {
        round(l_mult(rounded_power(gamma, n - 1), gamma))
    }
}

/// A bandwidth-expanded predictor.
pub open spec fn weighted_taps(a: Seq<Word16>, gamma: Word16) -> Seq<Word16> {
    Seq::new(
        a.len(),
        |i: int|
            if i == 0 {
                a[0]
            } else {
                round(l_mult(a[i], rounded_power(gamma, i)))
            },
    )
}

/// Bandwidth-expand a predictor of any order.
pub fn weight_taps(a: &[Word16], gamma: Word16, ap: &mut [Word16])
    requires
        a.len() == old(ap).len(),
        a.len() >= 1,
    ensures
        final(ap)@ == weighted_taps(a@, gamma),
{
    let n: usize = a.len();
    ap[0] = a[0];
    let mut fac = gamma;
    for i in 1..n
        invariant
            n == a@.len(),
            n == ap@.len(),
            ap@[0] == a@[0],
            fac == rounded_power(gamma, i as int),
            forall|j: int|
                1 <= j < i ==> #[trigger] ap@[j] == round(
                    l_mult(a@[j], rounded_power(gamma, j)),
                ),
    {
        ap[i] = round(l_mult(a[i], fac));
        fac = round(l_mult(fac, gamma));
    }
    assert(ap@ =~= weighted_taps(a@, gamma));
}

/// Bandwidth-expand a predictor: tap `i` by the `i`-th power of `gamma`, Q12
/// in and out.
///
/// The power is built by iterated rounding, so its error accumulates.
#[must_use]
pub fn weight_a(a: &[Word16; 17], gamma: Word16) -> (ap: [Word16; 17])
    ensures
        ap@ == weighted_taps(a@, gamma),
{
    let mut ap: [Word16; 17] = [Word16(0); 17];
    weight_taps(a, gamma, &mut ap);
    ap
}

/// The sum of a predictor's first taps with the samples up to `at`.
pub open spec fn residual_sum(a: Seq<Word16>, s: Seq<Word16>, at: int, n: int) -> Word32
    decreases n,
{
    if n <= 0 {
        l_mult(s[at], a[0])
    } else {
        l_mac(residual_sum(a, s, at, n - 1), a[n], s[at - n])
    }
}

/// The residual at a sample, at twice its value.
pub open spec fn residual_at(a: Seq<Word16>, s: Seq<Word16>, at: int) -> Word16 {
    round(l_shl(residual_sum(a, s, at, a.len() - 1), 4))
}

/// The residual of a block that starts behind the history in a signal.
pub open spec fn residual(a: Seq<Word16>, s: Seq<Word16>) -> Seq<Word16> {
    Seq::new((s.len() - (a.len() - 1)) as nat, |i: int| residual_at(a, s, a.len() - 1 + i))
}

/// Filter a signal through a predictor to get its residual, at **twice** the
/// mathematical value.
///
/// `signal` carries the predictor's order of samples in front of the block;
/// `out` receives one sample per block sample.
pub fn residu(a: &[Word16], signal: &[Word16], out: &mut [Word16])
    requires
        a.len() >= 1,
        signal.len() == a.len() - 1 + old(out).len(),
    ensures
        final(out)@ == residual(a@, signal@),
{
    let m: usize = a.len() - 1;
    let n: usize = out.len();
    for i in 0..n
        invariant
            m == a@.len() - 1,
            n == out@.len(),
            signal.len() == m + n,
            a.len() == m + 1,
            forall|j: int| 0 <= j < i ==> #[trigger] out@[j] == residual_at(a@, signal@, m + j),
    {
        let mut acc = l_mult(signal[i + m], a[0]);
        for j in 1..m + 1
            invariant
                m == a@.len() - 1,
                a.len() == m + 1,
                i < n,
                signal.len() == m + n,
                acc == residual_sum(a@, signal@, m + i, j - 1),
        {
            acc = l_mac(acc, a[j], signal[i + m - j]);
        }
        out[i] = round(l_shl(acc, 4));
    }
    assert(out@ =~= residual(a@, signal@));
}

/// De-emphasised and halved sample `i`.
pub open spec fn deemph2_at(x: Seq<Word16>, mu: Word16, memory: Word16, i: int) -> Word16
    decreases i,
{
    let before = if i <= 0 {
        memory
    } else {
        deemph2_at(x, mu, memory, i - 1)
    };
    round(l_mac(l_mult(x[i], Word16(16384)), before, mu))
}

/// A signal de-emphasised and halved.
pub open spec fn deemph2_of(x: Seq<Word16>, mu: Word16, memory: Word16) -> Seq<Word16> {
    Seq::new(x.len(), |i: int| deemph2_at(x, mu, memory, i))
}

/// De-emphasise in place, halving as it goes: the halving cancels
/// [`residu`]'s doubling.
pub fn deemph2(x: &mut [Word16], mu: Word16, memory: &mut Word16)
    ensures
        final(x)@ == deemph2_of(old(x)@, mu, *old(memory)),
        *final(memory) == if old(x)@.len() == 0 {
            *old(memory)
        } else {
            final(x)@[old(x)@.len() - 1]
        },
{
    let n: usize = x.len();
    for i in 0..n
        invariant
            n == x@.len(),
            n == old(x)@.len(),
            i == 0 ==> *memory == *old(memory),
            i > 0 ==> *memory == x@[i - 1],
            forall|j: int|
                0 <= j < i ==> #[trigger] x@[j] == deemph2_at(old(x)@, mu, *old(memory), j),
            forall|j: int| i <= j < n ==> #[trigger] x@[j] == old(x)@[j],
    {
        let sample = round(l_mac(l_mult(x[i], Word16(16384)), *memory, mu));
        x[i] = sample;
        *memory = sample;
    }
    assert(x@ =~= deemph2_of(old(x)@, mu, *old(memory)));
}

/// The first `n` products of decimated sample `j`.
pub open spec fn decim2_sum(s: Seq<Word16>, j: int, n: int) -> Word32
    decreases n,
{
    if n <= 0 {
        Word32(0)
    } else {
        l_mac(decim2_sum(s, j, n - 1), s[2 * j + n - 1], Word16(H_FIR@[n - 1]))
    }
}

/// Decimated sample `j` of a block behind its three carried samples.
pub open spec fn decim2_at(memory: Seq<Word16>, x: Seq<Word16>, j: int) -> Word16 {
    round(decim2_sum(memory + x, j, 5))
}

/// Decimate by two, in place: the first half of `x` receives the result and
/// the second half keeps its input. `memory` carries the last three *input*
/// samples.
pub fn lp_decim2(x: &mut [Word16], memory: &mut [Word16; 3])
    requires
        4 <= old(x).len() <= 256,
        old(x).len() % 2 == 0,
    ensures
        final(x)@.len() == old(x)@.len(),
        forall|j: int|
            0 <= j < old(x)@.len() ==> #[trigger] final(x)@[j] == if j < old(x)@.len() as int / 2 {
                decim2_at(old(memory)@, old(x)@, j)
            } else {
                old(x)@[j]
            },
        final(memory)@ == old(x)@.skip(old(x)@.len() - 3),
{
    let n: usize = x.len();
    let ghost whole = memory@ + x@;
    let mut buffer: [Word16; 259] = [Word16(0); 259];
    buffer[0] = memory[0];
    buffer[1] = memory[1];
    buffer[2] = memory[2];
    for i in 0..n
        invariant
            n == x@.len(),
            n <= 256,
            x@ == old(x)@,
            memory@ == old(memory)@,
            buffer@[0] == memory@[0],
            buffer@[1] == memory@[1],
            buffer@[2] == memory@[2],
            forall|j: int| 3 <= j < 3 + i ==> #[trigger] buffer@[j] == x@[j - 3],
    {
        buffer[3 + i] = x[i];
    }
    memory[0] = x[n - 3];
    memory[1] = x[n - 2];
    memory[2] = x[n - 1];
    assert(memory@ =~= old(x)@.skip(old(x)@.len() - 3));
    assert forall|j: int| 0 <= j < 3 + n implies #[trigger] buffer@[j] == whole[j] by {}
    for j in 0..n / 2
        invariant
            n == x@.len(),
            n <= 256,
            n % 2 == 0,
            n == old(x)@.len(),
            whole == old(memory)@ + old(x)@,
            forall|i: int| 0 <= i < 3 + n ==> #[trigger] buffer@[i] == whole[i],
            forall|i: int|
                0 <= i < n ==> #[trigger] x@[i] == if i < j {
                    decim2_at(old(memory)@, old(x)@, i)
                } else {
                    old(x)@[i]
                },
    {
        let mut acc = Word32(0);
        for k in 0..5usize
            invariant
                2 * j + 5 <= 3 + n,
                n <= 256,
                forall|i: int| 0 <= i < 3 + n ==> #[trigger] buffer@[i] == whole[i],
                acc == decim2_sum(whole, j as int, k as int),
        {
            acc = l_mac(acc, buffer[2 * j + k], Word16(H_FIR[k]));
        }
        x[j] = round(acc);
    }
}

// ---------------------------------------------------------------------------
// Weighted speech
// ---------------------------------------------------------------------------

/// The weighted residual of the present frame, sample by sample: each subframe
/// through its own predictor.
pub open spec fn weighted_residual(
    window: Seq<Word16>,
    isp_old: Seq<Word16>,
    isp_new: Seq<Word16>,
) -> Seq<Word16> {
    Seq::new(
        256,
        |i: int|
            residual_at(
                weighted_taps(subframe_lp(isp_old, isp_new, i / 64), Word16(GAMMA1)),
                window,
                64 + i,
            ),
    )
}

/// The largest magnitude among the first `n` samples.
pub open spec fn peak_of(x: Seq<Word16>, n: int) -> Word16
    decreases n,
{
    if n <= 0 {
        Word16(0)
    } else {
        let before = peak_of(x, n - 1);
        let here = abs_s(x[n - 1]);
        if here.0 > before.0 {
            here
        } else {
            before
        }
    }
}

/// The extra shift of the weighted speech, from this frame's peak and the last
/// one's.
pub open spec fn wsp_shift_of(peak: Word16, old_peak: Word16) -> i16 {
    let reference = if peak.0 > old_peak.0 {
        peak
    } else {
        old_peak
    };
    let shift = sub_s(Word16(norm_s(reference)), Word16(3)).0;
    if shift < 0 {
        shift
    } else {
        0
    }
}

/// The shift only ever makes room, three bits at most.
proof fn lemma_wsp_shift(peak: Word16, old_peak: Word16)
    ensures
        -3 <= wsp_shift_of(peak, old_peak) <= 0,
{
    reveal(crate::fixed_point::spec_sub_s);
    crate::fixed_point::lemma_norm_s(peak);
    crate::fixed_point::lemma_norm_s(old_peak);
}

/// The front end's state as plain values.
pub struct FrontEndView {
    pub preproc: PreprocessorView,
    /// The 128 words that precede the next frame.
    pub old_speech: Seq<Word16>,
    /// Decimated weighted-speech history.
    pub old_wsp: Seq<Word16>,
    /// The last stable predictor and its reflection coefficients.
    pub previous_a: Seq<Word16>,
    pub previous_rc: Seq<Word16>,
    /// The previous frame's pairs.
    pub isp_old: Seq<Word16>,
    pub wsp_memory: Word16,
    pub decim2_memory: Seq<Word16>,
    pub old_wsp_max: Word16,
    pub old_wsp_shift: i16,
}

/// The state out of reset.
pub open spec fn front_end_reset() -> FrontEndView {
    FrontEndView {
        preproc: preprocessor_reset(),
        old_speech: Seq::new(128, |i: int| Word16(0)),
        old_wsp: Seq::new(115, |i: int| Word16(0)),
        previous_a: Seq::new(16, |i: int| Word16(0)),
        previous_rc: Seq::new(2, |i: int| Word16(0)),
        isp_old: Seq::new(16, |i: int| Word16(ISP_INIT@[i])),
        wsp_memory: Word16(0),
        decim2_memory: Seq::new(3, |i: int| Word16(0)),
        old_wsp_max: Word16(0),
        old_wsp_shift: 0,
    }
}

/// The invariant of the front end.
pub open spec fn front_end_inv(v: FrontEndView) -> bool {
    preprocessor_inv(v.preproc)
}

/// The fresh speech of a frame, band-limited.
pub open spec fn fresh_speech(v: FrontEndView, input: Seq<Word16>) -> Seq<Word16> {
    banded_frame(v.preproc, input) + banded_tail(v.preproc, input)
}

/// The scaling of a frame.
#[verifier::opaque]
pub open spec fn frame_scaling(v: FrontEndView, input: Seq<Word16>) -> Scaling {
    scaling_of(banded(v.preproc, input), fresh_speech(v, input))
}

/// The analysis window of a frame: rescaled history, then the fresh speech.
#[verifier::opaque]
pub open spec fn frame_window(v: FrontEndView, input: Seq<Word16>) -> Seq<Word16> {
    scaled_seq(v.old_speech.take(116), frame_scaling(v, input).exp) + emphasised(
        banded(v.preproc, input),
        fresh_speech(v, input),
    )
}

/// The predictor of a frame.
#[verifier::opaque]
pub open spec fn frame_predictor(v: FrontEndView, input: Seq<Word16>) -> Seq<Word16> {
    let w = frame_window(v, input);
    predictor(recursion(lag_high(w), lag_low(w), 16), v.previous_a)
}

/// The reflection coefficients of a frame.
#[verifier::opaque]
pub open spec fn frame_reflections(v: FrontEndView, input: Seq<Word16>) -> Seq<Word16> {
    let w = frame_window(v, input);
    reflections(recursion(lag_high(w), lag_low(w), 16), v.previous_rc)
}

/// Whether a frame's recursion was stable.
#[verifier::opaque]
pub open spec fn frame_stable(v: FrontEndView, input: Seq<Word16>) -> bool {
    let w = frame_window(v, input);
    recursion(lag_high(w), lag_low(w), 16).stable
}

/// The pairs of a frame.
#[verifier::opaque]
pub open spec fn frame_isp(v: FrontEndView, input: Seq<Word16>) -> Seq<Word16> {
    pairs_of(frame_predictor(v, input), v.isp_old)
}

/// The weighted speech of a frame before decimation.
#[verifier::opaque]
pub open spec fn frame_weighted(v: FrontEndView, input: Seq<Word16>) -> Seq<Word16> {
    deemph2_of(
        weighted_residual(frame_window(v, input), v.isp_old, frame_isp(v, input)),
        Word16(TILT_FAC),
        scaled(v.wsp_memory, frame_scaling(v, input).exp),
    )
}

/// The extra shift of a frame's weighted speech.
#[verifier::opaque]
pub open spec fn frame_wsp_shift(v: FrontEndView, input: Seq<Word16>) -> i16 {
    wsp_shift_of(peak_of(frame_weighted(v, input), 256), v.old_wsp_max)
}

/// What the weighted-speech history is rescaled by.
#[verifier::opaque]
pub open spec fn frame_wsp_exp(v: FrontEndView, input: Seq<Word16>) -> i16 {
    add_s(
        Word16(frame_scaling(v, input).exp),
        sub_s(Word16(frame_wsp_shift(v, input)), Word16(v.old_wsp_shift)),
    ).0
}

/// The decimated weighted speech of a frame.
#[verifier::opaque]
pub open spec fn frame_wsp(v: FrontEndView, input: Seq<Word16>) -> Seq<Word16> {
    let memory = scaled_seq(v.decim2_memory, frame_scaling(v, input).exp);
    Seq::new(
        128,
        |j: int|
            scaled(decim2_at(memory, frame_weighted(v, input), j), frame_wsp_shift(v, input)),
    )
}

/// The state after a frame.
#[verifier::opaque]
pub open spec fn front_end_next(v: FrontEndView, input: Seq<Word16>) -> FrontEndView {
    FrontEndView {
        preproc: after_emphasis(banded(v.preproc, input), fresh_speech(v, input)),
        old_speech: frame_window(v, input).skip(256),
        old_wsp: frame_wsp(v, input).skip(13),
        previous_a: if frame_stable(v, input) {
            frame_predictor(v, input).subrange(1, 17)
        } else {
            v.previous_a
        },
        previous_rc: if frame_stable(v, input) {
            frame_reflections(v, input).subrange(0, 2)
        } else {
            v.previous_rc
        },
        isp_old: frame_isp(v, input),
        wsp_memory: frame_weighted(v, input)[255],
        decim2_memory: frame_weighted(v, input).skip(253),
        old_wsp_max: peak_of(frame_weighted(v, input), 256),
        old_wsp_shift: frame_wsp_shift(v, input),
    }
}

/// Everything one frame of the front end produces.
#[derive(Clone, Debug)]
pub struct FrontEndFrame {
    /// The whole speech buffer; the present frame starts at [`SPEECH`].
    pub window: [Word16; L_TOTAL],
    /// The scaling that every carried buffer must be brought onto.
    pub scaling: Scaling,
    /// Extra shift applied to the decimated weighted speech, in `-3..=0`.
    pub wsp_shift: i16,
    /// What the pitch search's own buffers must be rescaled by.
    pub wsp_exp: i16,
    /// Autocorrelations of the window, before the lag window.
    pub autocorr_raw: Autocorrelation,
    /// Lag-windowed autocorrelations.
    pub autocorr: Autocorrelation,
    /// Unquantised predictor for the fourth subframe, Q12.
    pub a: [Word16; 17],
    /// Reflection coefficients, Q15.
    pub rc: [Word16; LP_ORDER],
    /// This frame's pairs, Q15.
    pub isp: [Word16; LP_ORDER],
    /// Unquantised frequencies, Q15.
    pub isf: [Word16; LP_ORDER],
    /// Unquantised interpolated predictors, one per subframe, Q12.
    pub a_interp: [[Word16; 17]; NB_SUBFR],
    /// Weighted speech, decimated by two.
    pub wsp: [Word16; WSP_FRAME],
    /// The decimated samples before `wsp`, rescaled.
    pub wsp_history: [Word16; WSP_HISTORY],
}

/// What a frame's result holds.
pub open spec fn frame_is(frame: FrontEndFrame, v: FrontEndView, input: Seq<Word16>) -> bool {
    let w = frame_window(v, input);
    &&& frame.window@ == w
    &&& frame.scaling == frame_scaling(v, input)
    &&& frame.wsp_shift == frame_wsp_shift(v, input)
    &&& frame.wsp_exp == frame_wsp_exp(v, input)
    &&& correlated(frame.autocorr_raw, w)
    &&& frame.autocorr.high@ == lag_high(w)
    &&& frame.autocorr.low@ == lag_low(w)
    &&& frame.a@ == frame_predictor(v, input)
    &&& frame.rc@ == frame_reflections(v, input)
    &&& frame.isp@ == frame_isp(v, input)
    &&& frame.isf@ == isf_of(frame_isp(v, input))
    &&& forall|k: int|
        0 <= k < 4 ==> (#[trigger] frame.a_interp@[k])@ == subframe_lp(
            v.isp_old,
            frame_isp(v, input),
            k,
        )
    &&& frame.wsp@ == frame_wsp(v, input)
    &&& frame.wsp_history@ == scaled_seq(v.old_wsp, frame_wsp_exp(v, input))
}

/// The encoder front end.
#[derive(Clone, Debug)]
pub struct FrontEnd {
    preproc: Preprocessor,
    old_speech: [Word16; 128],
    old_wsp: [Word16; WSP_HISTORY],
    levinson: LevinsonMemory,
    isp_old: [Word16; LP_ORDER],
    wsp_memory: Word16,
    decim2_memory: [Word16; 3],
    old_wsp_max: Word16,
    old_wsp_shift: i16,
}

impl Default for FrontEnd {
    fn default() -> (f: Self)
        ensures
            f.wf(),
            f.view() == front_end_reset(),
    {
        FrontEnd::new()
    }
}

/// Residuals read only the history and the block.
proof fn lemma_residual_shift(
    a: Seq<Word16>,
    s: Seq<Word16>,
    t: Seq<Word16>,
    at: int,
    offset: int,
    n: int,
)
    requires
        0 <= n,
        forall|i: int| at - n <= i <= at ==> #[trigger] t[i] == s[offset + i],
    ensures
        residual_sum(a, t, at, n) == residual_sum(a, s, offset + at, n),
    decreases n,
{
    if n > 0 {
        lemma_residual_shift(a, s, t, at, offset, n - 1);
        assert(t[at - n] == s[offset + (at - n)]);
    } else {
        assert(t[at] == s[offset + at]);
    }
}

/// The weighted residual of the present frame.
fn weigh(
    window: &[Word16; L_TOTAL],
    a_interp: &[[Word16; 17]; NB_SUBFR],
    Ghost(isp_old): Ghost<Seq<Word16>>,
    Ghost(isp_new): Ghost<Seq<Word16>>,
) -> (out: [Word16; L_FRAME])
    requires
        forall|k: int| 0 <= k < 4 ==> (#[trigger] a_interp@[k])@ == subframe_lp(isp_old, isp_new, k),
    ensures
        out@ == weighted_residual(window@, isp_old, isp_new),
{
    let mut out: [Word16; L_FRAME] = [Word16(0); L_FRAME];
    for k in 0..NB_SUBFR
        invariant
            forall|j: int|
                0 <= j < 4 ==> (#[trigger] a_interp@[j])@ == subframe_lp(isp_old, isp_new, j),
            forall|i: int|
                0 <= i < 64 * k ==> #[trigger] out@[i] == weighted_residual(
                    window@,
                    isp_old,
                    isp_new,
                )[i],
    {
        assert(a_interp@[k as int]@ == subframe_lp(isp_old, isp_new, k as int));
        let ap = weight_a(&a_interp[k], Word16(GAMMA1));
        let start: usize = k * L_SUBFR;
        let source = slice_subrange(
            window,
            SPEECH + start - LP_ORDER,
            SPEECH + start + L_SUBFR,
        );
        let mut block: [Word16; L_SUBFR] = [Word16(0); L_SUBFR];
        residu(&ap, source, &mut block);
        for i in 0..L_SUBFR
            invariant
                k < 4,
                start == 64 * k,
                ap@ == weighted_taps(subframe_lp(isp_old, isp_new, k as int), Word16(GAMMA1)),
                ap@.len() == 17,
                source@ == window@.subrange(48 + start, 128 + start),
                block@ == residual(ap@, source@),
                forall|j: int|
                    0 <= j < start + i ==> #[trigger] out@[j] == weighted_residual(
                        window@,
                        isp_old,
                        isp_new,
                    )[j],
        {
            proof {
                lemma_residual_shift(ap@, window@, source@, 16 + i as int, 48 + start as int, 16);
                assert((start + i) / 64 == k);
            }
            out[start + i] = block[i];
        }
    }
    assert(out@ =~= weighted_residual(window@, isp_old, isp_new));
    out
}

impl FrontEnd {
    /// The state as plain values.
    pub closed spec fn view(&self) -> FrontEndView {
        FrontEndView {
            preproc: self.preproc.view(),
            old_speech: self.old_speech@,
            old_wsp: self.old_wsp@,
            previous_a: self.levinson.previous_a@,
            previous_rc: self.levinson.previous_rc@,
            isp_old: self.isp_old@,
            wsp_memory: self.wsp_memory,
            decim2_memory: self.decim2_memory@,
            old_wsp_max: self.old_wsp_max,
            old_wsp_shift: self.old_wsp_shift,
        }
    }

    /// The invariant.
    pub open spec fn wf(&self) -> bool {
        front_end_inv(self.view())
    }

    /// A cold-start front end.
    #[must_use]
    pub fn new() -> (f: Self)
        ensures
            f.wf(),
            f.view() == front_end_reset(),
    {
        let mut isp_old: [Word16; LP_ORDER] = [Word16(0); LP_ORDER];
        for i in 0..LP_ORDER
            invariant
                forall|j: int| 0 <= j < i ==> #[trigger] isp_old@[j] == Word16(ISP_INIT@[j]),
        {
            isp_old[i] = Word16(ISP_INIT[i]);
        }
        let f = FrontEnd {
            preproc: Preprocessor::new(),
            old_speech: [Word16(0); 128],
            old_wsp: [Word16(0); WSP_HISTORY],
            levinson: LevinsonMemory::new(),
            isp_old,
            wsp_memory: Word16(0),
            decim2_memory: [Word16(0); 3],
            old_wsp_max: Word16(0),
            old_wsp_shift: 0,
        };
        assert(f.view().old_speech =~= front_end_reset().old_speech);
        assert(f.view().old_wsp =~= front_end_reset().old_wsp);
        assert(f.view().isp_old =~= front_end_reset().isp_old);
        assert(f.view().decim2_memory =~= front_end_reset().decim2_memory);
        f
    }

    /// The weighted speech chain: four weighted residuals, de-emphasis, the
    /// level-dependent shift, decimation by two, and the history rescale.
    ///
    /// Returns the weighted speech, its history, the shift and the history's
    /// exponent.
    fn weighted_speech(
        &mut self,
        window: &[Word16; L_TOTAL],
        a_interp: &[[Word16; 17]; NB_SUBFR],
        scaling: Scaling,
        Ghost(v): Ghost<FrontEndView>,
        Ghost(input): Ghost<Seq<Word16>>,
    ) -> (r: ([Word16; WSP_FRAME], [Word16; WSP_HISTORY], i16, i16))
        requires
            window@ == frame_window(v, input),
            scaling == frame_scaling(v, input),
            forall|k: int|
                0 <= k < 4 ==> (#[trigger] a_interp@[k])@ == subframe_lp(
                    v.isp_old,
                    frame_isp(v, input),
                    k,
                ),
            old(self).view().wsp_memory == scaled(v.wsp_memory, scaling.exp),
            old(self).view().decim2_memory == scaled_seq(v.decim2_memory, scaling.exp),
            old(self).view().old_wsp == v.old_wsp,
            old(self).view().old_wsp_max == v.old_wsp_max,
            old(self).view().old_wsp_shift == v.old_wsp_shift,
        ensures
            r.0@ == frame_wsp(v, input),
            r.1@ == scaled_seq(v.old_wsp, frame_wsp_exp(v, input)),
            r.2 == frame_wsp_shift(v, input),
            r.3 == frame_wsp_exp(v, input),
            ({
                let n = front_end_next(v, input);
                final(self).view() == (FrontEndView {
                    wsp_memory: n.wsp_memory,
                    decim2_memory: n.decim2_memory,
                    old_wsp: n.old_wsp,
                    old_wsp_max: n.old_wsp_max,
                    old_wsp_shift: n.old_wsp_shift,
                    ..old(self).view()
                })
            }),
    {
        proof {
            reveal(frame_scaling);
            reveal(frame_window);
            reveal(frame_predictor);
            reveal(frame_reflections);
            reveal(frame_stable);
            reveal(frame_isp);
            reveal(frame_weighted);
            reveal(frame_wsp_shift);
            reveal(frame_wsp_exp);
            reveal(frame_wsp);
            reveal(front_end_next);
        }
        let ghost start = self.view();
        let mut buffer = weigh(window, a_interp, Ghost(v.isp_old), Ghost(frame_isp(v, input)));
        deemph2(&mut buffer, Word16(TILT_FAC), &mut self.wsp_memory);
        let ghost weighted = buffer@;
        assert(weighted == frame_weighted(v, input));
        // The peak is measured before decimation, the shift applied after it.
        let mut peak = Word16(0);
        for i in 0..L_FRAME
            invariant
                buffer@ == weighted,
                weighted.len() == 256,
                peak == peak_of(weighted, i as int),
        {
            let magnitude = abs_s(buffer[i]);
            if magnitude.0 > peak.0 {
                peak = magnitude;
            }
        }
        // One frame of hysteresis: both frames' peaks count, but only this
        // one is remembered.
        let reference = if peak.0 > self.old_wsp_max.0 {
            peak
        } else {
            self.old_wsp_max
        };
        self.old_wsp_max = peak;
        let room: i16 = sub_s(Word16(norm_s(reference)), Word16(3)).0;
        let wsp_shift: i16 = if room < 0 {
            room
        } else {
            0
        };
        lp_decim2(&mut buffer, &mut self.decim2_memory);
        let change = sub_s(Word16(wsp_shift), Word16(self.old_wsp_shift));
        let wsp_exp: i16 = add_s(Word16(scaling.exp), change).0;
        self.old_wsp_shift = wsp_shift;
        let mut wsp: [Word16; WSP_FRAME] = [Word16(0); WSP_FRAME];
        let ghost memory = scaled_seq(v.decim2_memory, scaling.exp);
        for j in 0..WSP_FRAME
            invariant
                wsp_shift == frame_wsp_shift(v, input),
                forall|i: int|
                    0 <= i < 128 ==> #[trigger] buffer@[i] == decim2_at(memory, weighted, i),
                forall|i: int|
                    0 <= i < j ==> #[trigger] wsp@[i] == scaled(
                        decim2_at(memory, weighted, i),
                        wsp_shift,
                    ),
        {
            wsp[j] = buffer[j];
            wsp[j] = round(l_shl(l_deposit_h(wsp[j]), wsp_shift));
        }
        assert(wsp@ =~= frame_wsp(v, input));
        let mut history = self.old_wsp;
        scale_sig(&mut history, wsp_exp);
        for j in 0..WSP_HISTORY
            invariant
                forall|i: int| 0 <= i < j ==> #[trigger] self.old_wsp@[i] == wsp@[13 + i],
                self.view() == (FrontEndView {
                    wsp_memory: self.view().wsp_memory,
                    decim2_memory: self.view().decim2_memory,
                    old_wsp: self.old_wsp@,
                    old_wsp_max: peak,
                    old_wsp_shift: wsp_shift,
                    ..start
                }),
                self.view().wsp_memory == weighted[255],
                self.view().decim2_memory == weighted.skip(253),
        {
            self.old_wsp[j] = wsp[13 + j];
        }
        assert(self.old_wsp@ =~= frame_wsp(v, input).skip(13));
        (wsp, history, wsp_shift, wsp_exp)
    }

    /// Run one 20 ms frame of analysis on input restricted to 14 bits.
    pub fn process_frame(&mut self, speech16k: &[Word16; L_FRAME16K]) -> (frame: FrontEndFrame)
        requires
            old(self).wf(),
        ensures
            final(self).wf(),
            0 <= frame.scaling.q_new <= 8,
            -15 <= frame.scaling.exp <= 8,
            -3 <= frame.wsp_shift <= 0,
            frame_is(frame, old(self).view(), speech16k@),
            final(self).view() == front_end_next(old(self).view(), speech16k@),
    {
        proof {
            reveal(frame_scaling);
            reveal(frame_window);
            reveal(frame_predictor);
            reveal(frame_reflections);
            reveal(frame_stable);
            reveal(frame_isp);
            reveal(frame_weighted);
            reveal(frame_wsp_shift);
            reveal(frame_wsp_exp);
            reveal(frame_wsp);
            reveal(front_end_next);
        }
        let ghost v = self.view();
        let ghost input = speech16k@;
        let mut new_speech: [Word16; 268] = [Word16(0); 268];
        self.preproc.band_limit(speech16k, &mut new_speech);
        let scaling = self.preproc.preemphasise(&mut new_speech);
        let mut history: [Word16; NEW_SPEECH] = [Word16(0); NEW_SPEECH];
        for i in 0..NEW_SPEECH
            invariant
                self.old_speech@ == v.old_speech,
                forall|j: int| 0 <= j < i ==> #[trigger] history@[j] == v.old_speech[j],
        {
            history[i] = self.old_speech[i];
        }
        assert(history@ =~= v.old_speech.take(116));
        scale_sig(&mut history, scaling.exp);
        let mut window: [Word16; L_TOTAL] = [Word16(0); L_TOTAL];
        for i in 0..L_TOTAL
            invariant
                history@ == scaled_seq(v.old_speech.take(116), scaling.exp),
                forall|j: int|
                    0 <= j < i ==> #[trigger] window@[j] == if j < 116 {
                        history@[j]
                    } else {
                        new_speech@[j - 116]
                    },
        {
            window[i] = if i < NEW_SPEECH {
                history[i]
            } else {
                new_speech[i - NEW_SPEECH]
            };
        }
        assert(window@ =~= frame_window(v, input));
        scale_sig(&mut self.decim2_memory, scaling.exp);
        self.wsp_memory = round(l_shl(l_deposit_h(self.wsp_memory), scaling.exp));
        let autocorr_raw = autocorrelation(&window);
        let mut autocorr = autocorr_raw;
        lag_window(&mut autocorr);
        proof {
            law_every_window_is_solvable(window@, autocorr_raw, autocorr);
            assert forall|i: int| 0 <= i < 17 implies #[trigger] autocorr.high@[i] == lag_high(
                window@,
            )[i] && autocorr.low@[i] == lag_low(window@)[i] by {
                assert((autocorr_raw.high@[i], autocorr_raw.low@[i]) == raw_pair(window@, i));
                assert((autocorr.high@[i], autocorr.low@[i]) == lag_pair(window@, i));
            }
            assert forall|i: int| 0 <= i < 17 implies #[trigger] autocorr.low@[i] == lag_low(
                window@,
            )[i] by {
                assert(autocorr.high@[i] == lag_high(window@)[i]);
            }
            assert(autocorr.high@ =~= lag_high(window@));
            assert(autocorr.low@ =~= lag_low(window@));
        }
        let (a, rc) = levinson(&autocorr, &mut self.levinson);
        let isp = az_isp(&a, &self.isp_old);
        // The interpolation reads the previous frame's pairs.
        let a_interp = interpolate_isp(&self.isp_old, &isp);
        self.isp_old = isp;
        let isf = isp_to_isf(&isp);
        let (wsp, wsp_history, wsp_shift, wsp_exp) = self.weighted_speech(
            &window,
            &a_interp,
            scaling,
            Ghost(v),
            Ghost(input),
        );
        let ghost weighted_view = self.view();
        for i in 0..128usize
            invariant
                forall|j: int| 0 <= j < i ==> #[trigger] self.old_speech@[j] == window@[256 + j],
                self.view() == (FrontEndView { old_speech: self.old_speech@, ..weighted_view }),
        {
            self.old_speech[i] = window[L_FRAME + i];
        }
        assert(self.old_speech@ =~= window@.skip(256));
        proof {
            law_scaling_is_the_least_headroom(banded(v.preproc, input), fresh_speech(v, input));
            assert(carried(v.preproc.decimator, input).len() == 30);
            lemma_wsp_shift(peak_of(frame_weighted(v, input), 256), v.old_wsp_max);
        }
        FrontEndFrame {
            window,
            scaling,
            wsp_shift,
            wsp_exp,
            autocorr_raw,
            autocorr,
            a,
            rc,
            isp,
            isf,
            a_interp,
            wsp,
            wsp_history,
        }
    }
}

// ---------------------------------------------------------------------------
// Laws
// ---------------------------------------------------------------------------

/// A power of a factor is a factor, and no larger than the one before it.
proof fn lemma_powers_fall(gamma: Word16, n: int)
    requires
        0 <= gamma.0,
        1 <= n,
    ensures
        0 <= rounded_power(gamma, n).0 <= gamma.0,
        n > 1 ==> rounded_power(gamma, n).0 <= rounded_power(gamma, n - 1).0,
    decreases n,
{
    if n > 1 {
        lemma_powers_fall(gamma, n - 1);
        let p = rounded_power(gamma, n - 1);
        lemma_rounded_product(p, gamma);
    }
}

/// A rounded product with a factor below one is no larger.
proof fn lemma_rounded_product(a: Word16, factor: Word16)
    requires
        0 <= factor.0,
    ensures
        a.0 >= 0 ==> 0 <= round(l_mult(a, factor)).0 <= a.0,
        a.0 < 0 ==> a.0 <= round(l_mult(a, factor)).0 <= 0,
        -16384 <= 32768 * round(l_mult(a, factor)).0 - a.0 * factor.0 <= 16384,
{
    let x = a.0 as int;
    let k = factor.0 as int;
    assert(-0x4000_0000 <= x * k <= 32767 * 32767 && (x >= 0 ==> 0 <= x * k <= x * 32767) && (x < 0
        ==> x * 32767 <= x * k <= 0)) by (nonlinear_arith)
        requires
            -32768 <= x <= 32767,
            0 <= k <= 32767,
    ;
    lemma_l_mac(Word32(0), a, factor);
    lemma_round(l_mult(a, factor));
}

/// Weighting widens the spectrum: the first tap stays, every other keeps its
/// sign and loses size, more so the later it is.
pub proof fn law_weighting_shrinks_the_taps(a: Seq<Word16>, gamma: Word16, i: int)
    requires
        0 <= i < a.len(),
        0 <= gamma.0,
    ensures
        weighted_taps(a, gamma)[0] == a[0],
        a[i].0 >= 0 ==> 0 <= weighted_taps(a, gamma)[i].0 <= a[i].0,
        a[i].0 < 0 ==> a[i].0 <= weighted_taps(a, gamma)[i].0 <= 0,
        i >= 1 ==> -16384 <= 32768 * weighted_taps(a, gamma)[i].0 - a[i].0 * rounded_power(
            gamma,
            i,
        ).0 <= 16384,
        i >= 2 ==> 0 <= rounded_power(gamma, i).0 <= rounded_power(gamma, i - 1).0,
{
    if i >= 1 {
        lemma_powers_fall(gamma, i);
        lemma_rounded_product(a[i], rounded_power(gamma, i));
    }
}

/// A lone sample leaves the predictor's taps behind it, one after the other.
pub proof fn law_residual_of_a_lone_sample(a: Seq<Word16>, s: Seq<Word16>, p: int, at: int)
    requires
        a.len() == 17,
        16 <= at < s.len(),
        0 <= p < s.len(),
        forall|i: int| 0 <= i < s.len() && i != p ==> #[trigger] s[i] == Word16(0),
    ensures
        residual_at(a, s, at) == if 0 <= at - p <= 16 {
            round(l_shl(l_mult(a[at - p], s[p]), 4))
        } else {
            Word16(0)
        },
{
    lemma_lone_residual(a, s, p, at, 16);
    vstd::arithmetic::power2::lemma2_to64();
    crate::fixed_point::lemma_l_shl(Word32(0), 4, 16);
    lemma_round(Word32(0));
}

proof fn lemma_lone_residual(a: Seq<Word16>, s: Seq<Word16>, p: int, at: int, n: int)
    requires
        0 <= n <= 16,
        16 <= at < s.len(),
        forall|i: int| 0 <= i < s.len() && i != p ==> #[trigger] s[i] == Word16(0),
    ensures
        residual_sum(a, s, at, n) == if 0 <= at - p <= n {
            l_mult(a[at - p], s[p])
        } else {
            Word32(0)
        },
    decreases n,
{
    reveal(crate::fixed_point::spec_l_mac);
    reveal(crate::fixed_point::spec_l_mult);
    reveal(crate::fixed_point::spec_l_add);
    let b = a[n];
    assert(b.0 * 0 == 0 && 0 * b.0 == 0) by (nonlinear_arith);
    if n > 0 {
        lemma_lone_residual(a, s, p, at, n - 1);
        if at - n != p {
            assert(s[at - n] == Word16(0));
        }
    } else {
        if at != p {
            assert(s[at] == Word16(0));
        }
        let x = a[0].0 as int;
        let y = s[at].0 as int;
        assert(x * y == y * x) by (nonlinear_arith);
    }
}

/// De-emphasis halves each sample and adds a share of the one made before it,
/// to the nearest unit.
pub proof fn law_weighted_speech_is_halved_and_carried_on(
    x: Seq<Word16>,
    mu: Word16,
    memory: Word16,
    i: int,
)
    requires
        0 <= i < x.len(),
        0 <= mu.0,
    ensures
        ({
            let before = if i == 0 {
                memory
            } else {
                deemph2_of(x, mu, memory)[i - 1]
            };
            let sum = 16384 * x[i].0 + before.0 * mu.0;
            -1073741824 <= sum <= 1073709056 ==> -16384 <= 32768 * deemph2_of(x, mu, memory)[i].0
                - sum <= 16384
        }),
{
    let before = if i == 0 {
        memory
    } else {
        deemph2_of(x, mu, memory)[i - 1]
    };
    let b = before.0 as int;
    let m = mu.0 as int;
    assert(-0x4000_0000 <= b * m <= 0x3fff_ffff) by (nonlinear_arith)
        requires
            -32768 <= b <= 32767,
            0 <= m <= 32767,
    ;
    lemma_l_mac(Word32(0), x[i], Word16(16384));
    lemma_l_mac(l_mult(x[i], Word16(16384)), before, mu);
    let acc = l_mac(l_mult(x[i], Word16(16384)), before, mu);
    if -1073741824 <= 16384 * x[i].0 + b * m <= 1073709056 {
        lemma_round(acc);
    }
}

/// Analysis windows overlap: the next one starts with the last 116 samples but
/// twelve of this one, rescaled, and its interpolation starts from this one's
/// pairs.
pub proof fn law_windows_overlap(
    v: FrontEndView,
    input: Seq<Word16>,
    next: Seq<Word16>,
    i: int,
)
    requires
        0 <= i < 116,
        v.old_speech.len() == 128,
    ensures
        ({
            let after = front_end_next(v, input);
            &&& frame_window(v, input).len() == 384
            &&& frame_window(after, next)[i] == scaled(
                frame_window(v, input)[256 + i],
                frame_scaling(after, next).exp,
            )
            &&& after.isp_old == frame_isp(v, input)
            &&& after.wsp_memory == frame_weighted(v, input)[255]
        }),
{
    reveal(frame_window);
    reveal(front_end_next);
}

proof fn lemma_peak(x: Seq<Word16>, n: int, i: int)
    requires
        0 <= i < n,
    ensures
        abs_s(x[i]).0 <= peak_of(x, n).0,
        0 <= peak_of(x, n).0,
    decreases n,
{
    reveal(crate::fixed_point::spec_abs_s);
    if i < n - 1 {
        lemma_peak(x, n - 1, i);
    } else if n > 1 {
        lemma_peak(x, n - 1, 0);
    }
}

/// No sample exceeds the peak, and a higher peak is shifted down no less.
pub proof fn law_loud_speech_is_shifted_down(
    x: Seq<Word16>,
    n: int,
    i: int,
    peak: Word16,
    higher: Word16,
    old_peak: Word16,
)
    requires
        0 <= i < n,
        0 < peak.0 <= higher.0,
    ensures
        -peak_of(x, n).0 - 1 <= x[i].0 <= peak_of(x, n).0,
        wsp_shift_of(higher, old_peak) <= wsp_shift_of(peak, old_peak) <= 0,
        wsp_shift_of(peak, old_peak) >= -3,
{
    lemma_peak(x, n, i);
    reveal(crate::fixed_point::spec_abs_s);
    reveal(crate::fixed_point::spec_sub_s);
    let a = if peak.0 > old_peak.0 {
        peak
    } else {
        old_peak
    };
    let b = if higher.0 > old_peak.0 {
        higher
    } else {
        old_peak
    };
    lemma_norm_s(a);
    lemma_norm_s(b);
    lemma_larger_shifts_less(a, b);
}

} // verus!
