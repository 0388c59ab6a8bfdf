//! Voice activity detection: a twelve-band filter bank, a noise estimate, and
//! a signal-to-noise decision with hangover.

use vstd::prelude::*;
use crate::fixed_point::{
    abs_s, add_s, div_s, extract_h, l_add, l_mac, l_mult, l_shl, lemma_extract_h_nonnegative,
    lemma_half, lemma_l_mac, lemma_larger_l_shifts_less, lemma_larger_shifts_less, lemma_norm_l,
    lemma_norm_s, lemma_normalised, lemma_normalised_s, lemma_shift_nonnegative, lemma_shl,
    lemma_shr, mult, mult_r, norm_l, norm_s, shl, shr, sub_s, DspContext, Word16, Word32,
};
use crate::math::{accumulate, mac_run};

verus! {

/// Samples the detector sees per frame, at 12.8 kHz.
pub const FRAME_LEN: usize = 256;

/// Sub-bands the filter bank produces.
pub const COMPLEN: usize = 12;

/// Open-loop pitch gain above which a half-frame counts as tonal, 0.65 Q15.
pub const TONE_THR: i16 = 21298;

/// Two frames' power below which no frame is speech.
pub const VAD_POW_LOW: i32 = 30000;

/// Two frames' power below which the tone history is trimmed.
pub const POW_TONE_THR: i32 = 686_080;

/// Frames for which a spectrum counts as not stationary.
pub const STAT_COUNT: i16 = 20;

/// Lowest and highest noise estimate of a band.
pub const NOISE_MIN: i16 = 40;

pub const NOISE_MAX: i16 = 20000;

// ---------------------------------------------------------------------------
// The filter bank
// ---------------------------------------------------------------------------

/// The filter bank's buffer and its all-pass memories.
pub struct BankView {
    /// The samples, split in place.
    pub buf: Seq<Word16>,
    /// Fifth-order memories, two per instance.
    pub five: Seq<Word16>,
    /// Third-order memories.
    pub three: Seq<Word16>,
}

/// The low and the high half out of a sum and a difference formed in 32 bits.
pub open spec fn half_sum(a: Word16, b: Word16) -> Word16 {
    extract_h(l_shl(Word32((a.0 + b.0) as i32), 15))
}

/// As [`half_sum`], of the difference.
pub open spec fn half_difference(a: Word16, b: Word16) -> Word16 {
    extract_h(l_shl(Word32((a.0 - b.0) as i32), 15))
}

/// One first-order all-pass section: the sample that becomes its memory.
pub open spec fn section_state(x: Word16, memory: Word16, coefficient: i16) -> Word16 {
    sub_s(x, mult(Word16(coefficient), memory))
}

/// One first-order all-pass section: its output.
pub open spec fn section_output(x: Word16, memory: Word16, coefficient: i16) -> Word16 {
    add_s(memory, mult(Word16(coefficient), section_state(x, memory, coefficient)))
}

/// One fifth-order half-band all-pass pair, in place.
pub open spec fn split5(b: BankView, lo: int, hi: int, slot: int) -> BankView {
    let m0 = b.five[2 * slot];
    let m1 = b.five[2 * slot + 1];
    let t1 = section_output(b.buf[lo], m0, 21955);
    let t2 = section_output(b.buf[hi], m1, 6390);
    BankView {
        buf: b.buf.update(lo, half_sum(t1, t2)).update(hi, half_difference(t1, t2)),
        five: b.five.update(2 * slot, section_state(b.buf[lo], m0, 21955)).update(
            2 * slot + 1,
            section_state(b.buf[hi], m1, 6390),
        ),
        three: b.three,
    }
}

/// One third-order half-band all-pass pair, in place.
pub open spec fn split3(b: BankView, lo: int, hi: int, slot: int) -> BankView {
    let m = b.three[slot];
    let t2 = section_output(b.buf[hi], m, 13363);
    BankView {
        buf: b.buf.update(hi, half_difference(b.buf[lo], t2)).update(
            lo,
            half_sum(b.buf[lo], t2),
        ),
        five: b.five,
        three: b.three.update(slot, section_state(b.buf[hi], m, 13363)),
    }
}

/// The first stage after `n` pairs: two bands.
pub open spec fn stage_a(b: BankView, n: int) -> BankView
    decreases n,
{
    if n <= 0 {
        b
    } else {
        split5(stage_a(b, n - 1), 2 * (n - 1), 2 * (n - 1) + 1, 0)
    }
}

/// The second stage after `n` groups: four bands.
pub open spec fn stage_b(b: BankView, n: int) -> BankView
    decreases n,
{
    if n <= 0 {
        b
    } else {
        let i = 4 * (n - 1);
        split5(split5(stage_b(b, n - 1), i, i + 2, 1), i + 1, i + 3, 2)
    }
}

/// The third stage after `n` groups.
pub open spec fn stage_c(b: BankView, n: int) -> BankView
    decreases n,
{
    if n <= 0 {
        b
    } else {
        let i = 8 * (n - 1);
        split3(split5(split5(stage_c(b, n - 1), i, i + 4, 3), i + 2, i + 6, 4), i + 3, i + 7, 0)
    }
}

/// The fourth stage after `n` groups.
pub open spec fn stage_d(b: BankView, n: int) -> BankView
    decreases n,
{
    if n <= 0 {
        b
    } else {
        let i = 16 * (n - 1);
        split3(split3(split3(stage_d(b, n - 1), i, i + 8, 1), i + 4, i + 12, 2), i + 6, i + 14, 3)
    }
}

/// The fifth stage after `n` groups.
pub open spec fn stage_e(b: BankView, n: int) -> BankView
    decreases n,
{
    if n <= 0 {
        b
    } else {
        let i = 32 * (n - 1);
        split3(split3(stage_e(b, n - 1), i, i + 16, 4), i + 8, i + 24, 5)
    }
}

/// The whole tree on a frame.
pub open spec fn filtered_bank(b: BankView) -> BankView {
    stage_e(stage_d(stage_c(stage_b(stage_a(b, 128), 64), 32), 16), 8)
}

/// The filter bank's working state.
struct Bank {
    buf: [Word16; FRAME_LEN],
    five: [Word16; 10],
    three: [Word16; 6],
}

impl Bank {
    spec fn view(&self) -> BankView {
        BankView { buf: self.buf@, five: self.five@, three: self.three@ }
    }

    /// One fifth-order pair: `lo` becomes the low half and `hi` the high half.
    fn split5(&mut self, lo: usize, hi: usize, slot: usize)
        requires
            lo < hi < 256,
            slot < 5,
        ensures
            final(self).view() == split5(old(self).view(), lo as int, hi as int, slot as int),
    {
        let ghost before = self.view();
        let m0 = self.five[2 * slot];
        let m1 = self.five[2 * slot + 1];
        let s0 = sub_s(self.buf[lo], mult(Word16(21955), m0));
        let t1 = add_s(m0, mult(Word16(21955), s0));
        let s1 = sub_s(self.buf[hi], mult(Word16(6390), m1));
        let t2 = add_s(m1, mult(Word16(6390), s1));
        self.five[2 * slot] = s0;
        self.five[2 * slot + 1] = s1;
        self.buf[lo] = extract_h(l_shl(Word32(t1.0 as i32 + t2.0 as i32), 15));
        self.buf[hi] = extract_h(l_shl(Word32(t1.0 as i32 - t2.0 as i32), 15));
        assert(self.view().buf =~= split5(before, lo as int, hi as int, slot as int).buf);
        assert(self.view().five =~= split5(before, lo as int, hi as int, slot as int).five);
    }

    /// One third-order pair.
    fn split3(&mut self, lo: usize, hi: usize, slot: usize)
        requires
            lo < hi < 256,
            slot < 6,
        ensures
            final(self).view() == split3(old(self).view(), lo as int, hi as int, slot as int),
    {
        let ghost before = self.view();
        let m = self.three[slot];
        let s = sub_s(self.buf[hi], mult(Word16(13363), m));
        let t = add_s(m, mult(Word16(13363), s));
        self.three[slot] = s;
        let low = self.buf[lo];
        self.buf[hi] = extract_h(l_shl(Word32(low.0 as i32 - t.0 as i32), 15));
        self.buf[lo] = extract_h(l_shl(Word32(low.0 as i32 + t.0 as i32), 15));
        assert(self.view().buf =~= split3(before, lo as int, hi as int, slot as int).buf);
        assert(self.view().three =~= split3(before, lo as int, hi as int, slot as int).three);
    }

    /// Run the tree of half-band pairs: each stage splits what it is given
    /// into a low and a high half at half the rate.
    fn run(&mut self)
        ensures
            final(self).view() == filtered_bank(old(self).view()),
    {
        let ghost b0 = self.view();
        for i in 0..128usize
            invariant
                self.view() == stage_a(b0, i as int),
        {
            self.split5(2 * i, 2 * i + 1, 0);
        }
        let ghost b1 = self.view();
        for i in 0..64usize
            invariant
                self.view() == stage_b(b1, i as int),
        {
            self.split5(4 * i, 4 * i + 2, 1);
            self.split5(4 * i + 1, 4 * i + 3, 2);
        }
        let ghost b2 = self.view();
        for i in 0..32usize
            invariant
                self.view() == stage_c(b2, i as int),
        {
            self.split5(8 * i, 8 * i + 4, 3);
            self.split5(8 * i + 2, 8 * i + 6, 4);
            self.split3(8 * i + 3, 8 * i + 7, 0);
        }
        let ghost b3 = self.view();
        for i in 0..16usize
            invariant
                self.view() == stage_d(b3, i as int),
        {
            self.split3(16 * i, 16 * i + 8, 1);
            self.split3(16 * i + 4, 16 * i + 12, 2);
            self.split3(16 * i + 6, 16 * i + 14, 3);
        }
        let ghost b4 = self.view();
        for i in 0..8usize
            invariant
                self.view() == stage_e(b4, i as int),
        {
            self.split3(32 * i, 32 * i + 16, 4);
            self.split3(32 * i + 8, 32 * i + 24, 5);
        }
    }
}

// ---------------------------------------------------------------------------
// Levels
// ---------------------------------------------------------------------------

/// Where one band's samples sit in the filter bank's output buffer.
#[derive(Clone, Copy)]
pub struct LevelSpan {
    /// Samples of this frame that belong to the *previous* frame's window.
    pub count1: usize,
    /// Total samples the band contributes.
    pub count2: usize,
    /// Distance between consecutive samples of the band.
    pub stride: usize,
    /// Index of the band's first sample.
    pub offset: usize,
    /// Left shift that brings the summed magnitudes into Q0.
    pub scale: i16,
}

/// Which samples of the filter bank's output band `b` occupies.
pub open spec fn spec_span_of(b: usize) -> LevelSpan {
    if b == 11 {
        LevelSpan { count1: 16, count2: 64, stride: 4, offset: 1, scale: 14 }
    } else if b >= 8 {
        LevelSpan {
            count1: 8,
            count2: 32,
            stride: 8,
            offset: if b == 10 {
                7
            } else if b == 9 {
                3
            } else {
                2
            },
            scale: 15,
        }
    } else if b >= 4 {
        LevelSpan {
            count1: 4,
            count2: 16,
            stride: 16,
            offset: if b == 7 {
                14
            } else if b == 6 {
                6
            } else if b == 5 {
                4
            } else {
                12
            },
            scale: 16,
        }
    } else {
        LevelSpan {
            count1: 2,
            count2: 8,
            stride: 32,
            offset: if b == 3 {
                8
            } else if b == 2 {
                24
            } else if b == 1 {
                16
            } else {
                0
            },
            scale: 17,
        }
    }
}

/// A band's samples fill the frame.
pub open spec fn well_spaced(span: LevelSpan) -> bool {
    ||| span.stride == 4 && span.count2 == 64
    ||| span.stride == 8 && span.count2 == 32
    ||| span.stride == 16 && span.count2 == 16
    ||| span.stride == 32 && span.count2 == 8
}

/// Which samples of the filter bank's output band `b` occupies, from 0–200 Hz
/// up to 4800–6400 Hz.
#[verifier::when_used_as_spec(spec_span_of)]
pub fn span_of(b: usize) -> (span: LevelSpan)
    requires
        b < 12,
    ensures
        span == spec_span_of(b),
        span.count1 <= span.count2 <= 64,
        span.stride <= 32,
        span.offset < span.stride,
        well_spaced(span),
        14 <= span.scale <= 17,
{
    if b == 11 {
        LevelSpan { count1: 16, count2: 64, stride: 4, offset: 1, scale: 14 }
    } else if b >= 8 {
        let offset: usize = if b == 10 {
            7
        } else if b == 9 {
            3
        } else {
            2
        };
        LevelSpan { count1: 8, count2: 32, stride: 8, offset, scale: 15 }
    } else if b >= 4 {
        let offset: usize = if b == 7 {
            14
        } else if b == 6 {
            6
        } else if b == 5 {
            4
        } else {
            12
        };
        LevelSpan { count1: 4, count2: 16, stride: 16, offset, scale: 16 }
    } else {
        let offset: usize = if b == 3 {
            8
        } else if b == 2 {
            24
        } else if b == 1 {
            16
        } else {
            0
        };
        LevelSpan { count1: 2, count2: 8, stride: 32, offset, scale: 17 }
    }
}

/// The accumulated magnitudes of samples `a..b` of a band.
pub open spec fn magnitudes(
    seed: Word32,
    data: Seq<Word16>,
    span: LevelSpan,
    a: int,
    b: int,
) -> Word32
    decreases b,
{
    if b <= a || b <= 0 {
        seed
    } else {
        l_mac(
            magnitudes(seed, data, span, a, b - 1),
            Word16(1),
            abs_s(data[span.stride * (b - 1) + span.offset]),
        )
    }
}

/// What the tail of the frame leaves for the next frame's level.
pub open spec fn band_tail(data: Seq<Word16>, span: LevelSpan) -> Word32 {
    magnitudes(Word32(0), data, span, span.count1 as int, span.count2 as int)
}

/// A band's level: its magnitudes, and what the previous frame's tail left.
pub open spec fn band_level(data: Seq<Word16>, carried: Word16, span: LevelSpan) -> Word16 {
    let seed = l_add(
        band_tail(data, span),
        l_shl(Word32(carried.0 as i32), (16 - span.scale) as i16),
    );
    extract_h(l_shl(magnitudes(seed, data, span, 0, span.count1 as int), span.scale))
}

/// The carried tail of a band, in the scale of its level.
pub open spec fn carried_tail(data: Seq<Word16>, span: LevelSpan) -> Word16 {
    extract_h(l_shl(band_tail(data, span), span.scale))
}

proof fn lemma_add_nonnegative(x: Word32, y: Word32)
    requires
        x.0 >= 0,
        y.0 >= 0,
    ensures
        l_add(x, y).0 >= 0,
{
    reveal(crate::fixed_point::spec_l_add);
}

proof fn lemma_magnitudes(seed: Word32, data: Seq<Word16>, span: LevelSpan, a: int, b: int)
    requires
        seed.0 >= 0,
    ensures
        magnitudes(seed, data, span, a, b).0 >= 0,
    decreases b,
{
    if !(b <= a || b <= 0) {
        lemma_magnitudes(seed, data, span, a, b - 1);
        reveal(crate::fixed_point::spec_l_mac);
        reveal(crate::fixed_point::spec_l_mult);
        reveal(crate::fixed_point::spec_abs_s);
        reveal(crate::fixed_point::spec_l_add);
    }
}

/// Accumulate the magnitudes of samples `a..b` of a band.
fn sum_magnitudes(
    seed: Word32,
    data: &[Word16; FRAME_LEN],
    span: LevelSpan,
    a: usize,
    b: usize,
) -> (acc: Word32)
    requires
        a <= b <= span.count2,
        span.stride <= 32,
        span.count2 <= 64,
        span.offset < span.stride,
        well_spaced(span),
    ensures
        acc == magnitudes(seed, data@, span, a as int, b as int),
{
    let mut acc = seed;
    let mut i: usize = a;
    while i < b
        invariant
            a <= i <= b <= span.count2,
            span.stride <= 32,
            span.count2 <= 64,
            span.offset < span.stride,
            well_spaced(span),
            acc == magnitudes(seed, data@, span, a as int, i as int),
        decreases b - i,
    {
        assert(span.stride * i + span.offset < 256 && span.stride * i >= 0) by (nonlinear_arith)
            requires
                0 <= i,
                i + 1 <= span.count2,
                span.offset < span.stride,
                well_spaced(span),
        ;
        acc = l_mac(acc, Word16(1), abs_s(data[span.stride * i + span.offset]));
        i = i + 1;
    }
    acc
}

/// One band's level and carried tail.
///
/// The tail is measured separately and carried, so every band's level spans
/// the same amount of *signal* even though the bands are decimated by
/// different factors.
fn level_calculation(data: &[Word16; FRAME_LEN], carried: Word16, b: usize) -> (r: (Word16, Word16))
    requires
        b < 12,
        carried.0 >= 0,
    ensures
        r.0 == band_level(data@, carried, span_of(b)),
        r.1 == carried_tail(data@, span_of(b)),
        r.0.0 >= 0,
        r.1.0 >= 0,
{
    let span = span_of(b);
    let tail = sum_magnitudes(Word32(0), data, span, span.count1, span.count2);
    let before = l_shl(Word32(carried.0 as i32), 16 - span.scale);
    let seed = l_add(tail, before);
    let total = sum_magnitudes(seed, data, span, 0, span.count1);
    proof {
        lemma_magnitudes(Word32(0), data@, span, span.count1 as int, span.count2 as int);
        lemma_shift_nonnegative(Word32(carried.0 as i32), (16 - span.scale) as i16);
        lemma_add_nonnegative(tail, before);
        lemma_magnitudes(seed, data@, span, 0, span.count1 as int);
        lemma_shift_nonnegative(total, span.scale);
        lemma_shift_nonnegative(tail, span.scale);
        lemma_extract_h_nonnegative(l_shl(total, span.scale));
        lemma_extract_h_nonnegative(l_shl(tail, span.scale));
    }
    (extract_h(l_shl(total, span.scale)), extract_h(l_shl(tail, span.scale)))
}

// ---------------------------------------------------------------------------
// Thresholds
// ---------------------------------------------------------------------------

/// A cheap *decreasing* pseudo-logarithm: bigger input, smaller output.
pub open spec fn spec_ilog2(value: Word16) -> Word16 {
    let mant = if value.0 <= 0 {
        Word16(1)
    } else {
        value
    };
    let ex = norm_s(mant);
    let m0 = shl(mant, ex);
    let m1 = mult(m0, m0);
    let m2 = mult(m1, m1);
    let m3 = mult(m2, m2);
    let squared = l_mult(m3, m3);
    let ex2 = norm_l(squared);
    let fraction = shr(extract_h(l_shl(squared, ex2)), 8);
    let binade = shl(add_s(Word16(ex), Word16(16)), 10);
    let refined = add_s(add_s(binade, shl(Word16(ex2), 6)), Word16(127));
    sub_s(refined, fraction)
}

/// A cheap *decreasing* pseudo-logarithm.
///
/// Raising the mantissa to the sixteenth power turns a normalisation count
/// into a fractional exponent. The threshold curve's break points were fitted
/// to this approximation, not to a logarithm.
#[verifier::when_used_as_spec(spec_ilog2)]
pub fn ilog2(value: Word16) -> (r: Word16)
    ensures
        r == spec_ilog2(value),
{
    let mant = if value.0 <= 0 {
        Word16(1)
    } else {
        value
    };
    let ex: i16 = norm_s(mant);
    let m0 = shl(mant, ex);
    let m1 = mult(m0, m0);
    let m2 = mult(m1, m1);
    let m3 = mult(m2, m2);
    let squared = l_mult(m3, m3);
    let ex2: i16 = norm_l(squared);
    let fraction = shr(extract_h(l_shl(squared, ex2)), 8);
    let binade = shl(add_s(Word16(ex), Word16(16)), 10);
    let refined = add_s(add_s(binade, shl(Word16(ex2), 6)), Word16(127));
    sub_s(refined, fraction)
}

/// The sum of entries `1..n`: the lowest band is where hum and rumble live.
pub open spec fn upper_sum(s: Seq<Word16>, n: int) -> Word32
    decreases n,
{
    if n <= 1 {
        Word32(0)
    } else {
        l_add(upper_sum(s, n - 1), Word32(s[n - 1].0 as i32))
    }
}

/// The average level, lowest band excluded.
pub open spec fn average_level(s: Seq<Word16>) -> Word16 {
    extract_h(l_shl(upper_sum(s, 12), 12))
}

fn mean_level(s: &[Word16; COMPLEN]) -> (r: Word16)
    ensures
        r == average_level(s@),
{
    let mut total = Word32(0);
    for i in 1..COMPLEN
        invariant
            total == upper_sum(s@, i as int),
    {
        total = l_add(total, Word32(s[i].0 as i32));
    }
    extract_h(l_shl(total, 12))
}

/// One band's signal-to-noise ratio.
pub open spec fn snr(level: Word16, noise: Word16) -> Word16 {
    let exp = norm_s(noise);
    shl(div_s(shr(level, 1), shl(noise, exp)), (exp - 6) as i16)
}

/// The sum of the first `n` bands' squared signal-to-noise ratios.
pub open spec fn snr_sum(level: Seq<Word16>, noise: Seq<Word16>, n: int) -> Word32
    decreases n,
{
    if n <= 0 {
        Word32(0)
    } else {
        let r = snr(level[n - 1], noise[n - 1]);
        l_mac(snr_sum(level, noise, n - 1), r, r)
    }
}

/// The lowest speech level that the noise allows.
pub open spec fn speech_floor(noise_level: Word16) -> Word16 {
    shl(mult(noise_level, Word16(4096)), 3)
}

/// The speech level, lifted onto its floor.
pub open spec fn lifted_speech(speech_level: Word16, noise_level: Word16) -> Word16 {
    if speech_level.0 < speech_floor(noise_level).0 {
        speech_floor(noise_level)
    } else {
        speech_level
    }
}

/// `v` held between two bounds.
pub open spec fn clamped(v: Word16, low: i16, high: i16) -> Word16 {
    if v.0 < low {
        Word16(low)
    } else if v.0 > high {
        Word16(high)
    } else {
        v
    }
}

/// The decision threshold for a noise level and a lifted speech level.
pub open spec fn spec_threshold(noise_level: Word16, speech_level: Word16) -> Word16 {
    let noise_term = mult(Word16(1509), sub_s(ilog2(noise_level), Word16(31744)));
    let from_noise = add_s(noise_term, Word16(768));
    let speech_log = ilog2(sub_s(speech_level, speech_floor(noise_level)));
    let speech_term = mult(Word16(-1339i16), sub_s(speech_log, Word16(22527)));
    let from_speech = clamped(add_s(Word16(-96i16), speech_term), -96i16, 96);
    let thr = add_s(from_noise, from_speech);
    if thr.0 < 204 {
        Word16(204)
    } else {
        thr
    }
}

/// The decision threshold.
///
/// Subtracting the floor is what stops a noise-dominated speech level from
/// raising the threshold twice over.
#[verifier::when_used_as_spec(spec_threshold)]
pub fn threshold(noise_level: Word16, speech_level: Word16) -> (r: Word16)
    ensures
        r == spec_threshold(noise_level, speech_level),
{
    let noise_term = mult(Word16(1509), sub_s(ilog2(noise_level), Word16(31744)));
    let from_noise = add_s(noise_term, Word16(768));
    let floor = shl(mult(noise_level, Word16(4096)), 3);
    let speech_log = ilog2(sub_s(speech_level, floor));
    let speech_term = mult(Word16(-1339), sub_s(speech_log, Word16(22527)));
    let raw = add_s(Word16(-96), speech_term);
    let from_speech = if raw.0 < -96 {
        Word16(-96)
    } else if raw.0 > 96 {
        Word16(96)
    } else {
        raw
    };
    let thr = add_s(from_noise, from_speech);
    if thr.0 < 204 {
        Word16(204)
    } else {
        thr
    }
}

/// Frames a decision is held after a burst.
pub open spec fn hang_length(thr: Word16) -> i16 {
    let len = add_s(mult(Word16(-1110i16), sub_s(thr, Word16(217))), Word16(12));
    if len.0 < 2 {
        2
    } else {
        len.0
    }
}

/// Active frames that earn a hangover.
pub open spec fn burst_length(thr: Word16) -> i16 {
    add_s(mult(Word16(297), sub_s(thr, Word16(768))), Word16(8)).0
}

// ---------------------------------------------------------------------------
// The detector
// ---------------------------------------------------------------------------

/// The detector's state.
pub struct VadView {
    /// Background noise estimate per band.
    pub noise: Seq<Word16>,
    /// Long-term average level per band, for the stationarity test.
    pub average: Seq<Word16>,
    /// The previous frame's band levels: what the noise estimate tracks.
    pub old_level: Seq<Word16>,
    /// Level of the tail of the frame, carried into the next one.
    pub tail: Seq<Word16>,
    /// Fifth-order all-pass memories.
    pub five: Seq<Word16>,
    /// Third-order all-pass memories.
    pub three: Seq<Word16>,
    pub burst_count: i16,
    pub hang_count: i16,
    pub stat_count: i16,
    /// Fifteen intermediate decisions, newest in bit 14.
    pub register: i16,
    /// Fifteen tone flags, newest in bit 14, two written per frame.
    pub tone: i16,
    pub sp_est_cnt: i16,
    pub sp_max: Word16,
    pub sp_max_cnt: i16,
    pub speech_level: Word16,
    pub prev_power: Word32,
}

/// The state after a half-frame's pitch gain has been folded into the tone
/// history.
pub open spec fn toned(v: VadView, pitch_gain: Word16) -> VadView {
    VadView {
        tone: (v.tone as int / 2 + if pitch_gain.0 > TONE_THR {
            0x4000int
        } else {
            0
        }) as i16,
        ..v
    }
}

/// One band's share in the measure of change: the larger of level and average
/// over the smaller, both at least 184.
pub open spec fn change_ratio(band: Word16, average: Word16) -> Word16 {
    let (num, denom) = if band.0 > average.0 {
        (band, average)
    } else {
        (average, band)
    };
    let num = if num.0 < 184 {
        Word16(184)
    } else {
        num
    };
    let denom = if denom.0 < 184 {
        Word16(184)
    } else {
        denom
    };
    let exp = norm_s(denom);
    shr(div_s(shr(num, 1), shl(denom, exp)), (8 - exp) as i16)
}

/// The measure of change over the first `n` bands.
pub open spec fn change_sum(level: Seq<Word16>, average: Seq<Word16>, n: int) -> Word16
    decreases n,
{
    if n <= 0 {
        Word16(0)
    } else {
        add_s(change_sum(level, average, n - 1), change_ratio(level[n - 1], average[n - 1]))
    }
}

/// The stationarity counter for a frame: full while a tone lasts, while no
/// decision was active for eight frames, and when the spectrum moved; counting
/// down while speech goes on.
pub open spec fn next_stat_count(v: VadView, level: Seq<Word16>) -> i16 {
    if v.tone >= 0x7c00 || v.register < 0x80 {
        20
    } else if change_sum(level, v.average, 12).0 > 1000 {
        20
    } else if v.register >= 0x4000 && v.stat_count != 0 {
        sub_s(Word16(v.stat_count), Word16(1)).0
    } else {
        v.stat_count
    }
}

/// How fast the average follows the level.
pub open spec fn average_speed(stat_count: i16, register: i16) -> Word16 {
    if stat_count == 20 {
        Word16(32767)
    } else if register < 0x4000 {
        Word16(16383)
    } else {
        Word16(3276)
    }
}

/// `from` moved towards `to` at the given speed.
pub open spec fn moved(from: Word16, to: Word16, speed: Word16) -> Word16 {
    add_s(from, mult_r(speed, sub_s(to, from)))
}

/// The state after the stationarity test.
pub open spec fn with_stationarity(v: VadView, level: Seq<Word16>) -> VadView {
    let count = next_stat_count(v, level);
    let speed = average_speed(count, v.register);
    VadView {
        stat_count: count,
        average: Seq::new(12, |i: int| moved(v.average[i], level[i], speed)),
        ..v
    }
}

/// How fast the noise estimate rises and falls, and what it rises by at least.
pub open spec fn noise_speed(register: i16, stat_count: i16) -> (Word16, Word16, Word16) {
    if register < 0x800 {
        (Word16(1638), Word16(2097), Word16(2))
    } else if stat_count == 0 {
        (Word16(491), Word16(1867), Word16(2))
    } else {
        (Word16(0), Word16(1638), Word16(0))
    }
}

/// A band's next noise estimate: downwards with a bias, so that an estimate
/// inflated by speech recovers, and always within its bounds.
pub open spec fn next_noise(
    noise: Word16,
    old_level: Word16,
    speed: (Word16, Word16, Word16),
) -> Word16 {
    let delta = sub_s(old_level, noise);
    if delta.0 < 0 {
        let v = add_s(Word16(-2i16), add_s(noise, mult_r(speed.1, delta)));
        if v.0 < NOISE_MIN {
            Word16(NOISE_MIN)
        } else {
            v
        }
    } else {
        let v = add_s(speed.2, add_s(noise, mult_r(speed.0, delta)));
        if v.0 > NOISE_MAX {
            Word16(NOISE_MAX)
        } else {
            v
        }
    }
}

/// The state after the noise estimate has followed a frame.
pub open spec fn with_noise(v: VadView, level: Seq<Word16>) -> VadView {
    let s = with_stationarity(v, level);
    let speed = noise_speed(s.register, s.stat_count);
    VadView {
        noise: Seq::new(12, |i: int| next_noise(s.noise[i], s.old_level[i], speed)),
        old_level: level,
        ..s
    }
}

/// The state and the decision after hangover.
pub open spec fn with_hangover(
    v: VadView,
    low_power: bool,
    hang_len: i16,
    burst_len: i16,
) -> (VadView, bool) {
    if low_power {
        (VadView { burst_count: 0, hang_count: 0, ..v }, false)
    } else if v.register >= 0x4000 {
        let burst = add_s(Word16(v.burst_count), Word16(1)).0;
        (
            VadView {
                burst_count: burst,
                hang_count: if burst >= burst_len {
                    hang_len
                } else {
                    v.hang_count
                },
                ..v
            },
            true,
        )
    } else if v.hang_count > 0 {
        (
            VadView {
                burst_count: 0,
                hang_count: sub_s(Word16(v.hang_count), Word16(1)).0,
                ..v
            },
            true,
        )
    } else {
        (VadView { burst_count: 0, ..v }, false)
    }
}

/// The decision on a frame's band levels and two frames' power: the register
/// takes in whether the signal-to-noise ratio passes the threshold.
pub open spec fn decided(v: VadView, level: Seq<Word16>, power: Word32) -> (VadView, bool) {
    let noise_level = average_level(v.noise);
    let speech_level = lifted_speech(v.speech_level, noise_level);
    let thr = threshold(noise_level, speech_level);
    let active = snr_sum(level, v.noise, 12).0 > l_mult(thr, Word16(6144)).0;
    let register = (v.register as int / 2 + if active {
        0x4000int
    } else {
        0
    }) as i16;
    let noted = with_noise(VadView { speech_level, register, ..v }, level);
    with_hangover(noted, power.0 < VAD_POW_LOW, hang_length(thr), burst_length(thr))
}

/// The state after the speech level has followed a frame: half the peak of
/// twenty-five active frames, gathered within eighty.
pub open spec fn with_speech(v: VadView, in_level: Word16) -> VadView {
    let late = sub_s(Word16(v.sp_est_cnt), Word16(v.sp_max_cnt)).0 > 55;
    let s = if late {
        VadView { sp_est_cnt: 0, sp_max: Word16(0), sp_max_cnt: 0, ..v }
    } else {
        v
    };
    let s = VadView { sp_est_cnt: add_s(Word16(s.sp_est_cnt), Word16(1)).0, ..s };
    let active = s.register >= 0x4000 || in_level.0 > s.speech_level.0;
    if !active || in_level.0 <= 129 {
        s
    } else {
        let peak = if in_level.0 > s.sp_max.0 {
            in_level
        } else {
            s.sp_max
        };
        let count = add_s(Word16(s.sp_max_cnt), Word16(1)).0;
        if count < 25 {
            VadView { sp_max: peak, sp_max_cnt: count, ..s }
        } else {
            let target = shr(peak, 1);
            VadView {
                speech_level: if target.0 > 410 {
                    moved(s.speech_level, target, Word16(4915))
                } else {
                    s.speech_level
                },
                sp_max: Word16(0),
                sp_max_cnt: 0,
                sp_est_cnt: 0,
                ..s
            }
        }
    }
}

/// The band levels of a frame.
pub open spec fn frame_levels(v: VadView, frame: Seq<Word16>) -> Seq<Word16> {
    let bank = filtered_bank(halved_bank(v, frame));
    Seq::new(12, |b: int| band_level(bank.buf, v.tail[b], span_of(b as usize)))
}

/// The filter bank's input: the frame at half its size.
pub open spec fn halved_bank(v: VadView, frame: Seq<Word16>) -> BankView {
    BankView {
        buf: Seq::new(256, |i: int| shr(frame[i], 1)),
        five: v.five,
        three: v.three,
    }
}

/// The state after the filter bank has taken in a frame.
pub open spec fn with_frame(v: VadView, frame: Seq<Word16>) -> VadView {
    let bank = filtered_bank(halved_bank(v, frame));
    VadView {
        tail: Seq::new(12, |b: int| carried_tail(bank.buf, span_of(b as usize))),
        five: bank.five,
        three: bank.three,
        ..v
    }
}

/// The state and the decision after one frame.
#[verifier::opaque]
pub open spec fn processed(v: VadView, frame: Seq<Word16>) -> (VadView, bool) {
    let power = mac_run(Word32(0), frame, 0, frame, 0, 256);
    let both = l_add(power, v.prev_power);
    let level = frame_levels(v, frame);
    let heard = VadView {
        prev_power: power,
        tone: if both.0 < POW_TONE_THR {
            (v.tone as int % 0x2000) as i16
        } else {
            v.tone
        },
        ..with_frame(v, frame)
    };
    let (after, flag) = decided(heard, level, both);
    (with_speech(after, average_level(level)), flag)
}

/// The reset state.
pub open spec fn vad_reset() -> VadView {
    VadView {
        noise: Seq::new(12, |i: int| Word16(150)),
        average: Seq::new(12, |i: int| Word16(150)),
        old_level: Seq::new(12, |i: int| Word16(150)),
        tail: Seq::new(12, |i: int| Word16(0)),
        five: Seq::new(10, |i: int| Word16(0)),
        three: Seq::new(6, |i: int| Word16(0)),
        burst_count: 0,
        hang_count: 0,
        stat_count: 0,
        register: 0,
        tone: 0,
        sp_est_cnt: 0,
        sp_max: Word16(0),
        sp_max_cnt: 0,
        speech_level: Word16(2050),
        prev_power: Word32(0),
    }
}

/// What every state of the detector keeps: the noise estimates stay within
/// their bounds, and registers and levels are not negative.
pub open spec fn vad_inv(v: VadView) -> bool {
    &&& v.noise.len() == 12 && v.average.len() == 12 && v.old_level.len() == 12 && v.tail.len()
        == 12
    &&& v.five.len() == 10 && v.three.len() == 6
    &&& forall|i: int| 0 <= i < 12 ==> NOISE_MIN <= #[trigger] v.noise[i].0 <= NOISE_MAX
    &&& forall|i: int| 0 <= i < 12 ==> #[trigger] v.tail[i].0 >= 0
    &&& v.register >= 0
    &&& v.tone >= 0
}

/// The voice activity detector.
///
/// One bit per frame reaches the bitstream: whether the frame carries speech.
#[derive(Clone, Debug)]
pub struct VoiceActivityDetector {
    noise: [Word16; COMPLEN],
    average: [Word16; COMPLEN],
    old_level: [Word16; COMPLEN],
    tail: [Word16; COMPLEN],
    five: [Word16; 10],
    three: [Word16; 6],
    burst_count: i16,
    hang_count: i16,
    stat_count: i16,
    register: i16,
    tone: i16,
    sp_est_cnt: i16,
    sp_max: Word16,
    sp_max_cnt: i16,
    speech_level: Word16,
    prev_power: Word32,
}

proof fn lemma_next_noise(noise: Word16, old_level: Word16, speed: (Word16, Word16, Word16))
    requires
        NOISE_MIN <= noise.0 <= NOISE_MAX,
        0 <= speed.0.0,
        0 <= speed.1.0,
        0 <= speed.2.0 <= 2,
    ensures
        NOISE_MIN <= next_noise(noise, old_level, speed).0 <= NOISE_MAX,
{
    reveal(crate::fixed_point::spec_add_s);
    reveal(crate::fixed_point::spec_sub_s);
    reveal(crate::fixed_point::spec_mult_r);
    let d = sub_s(old_level, noise).0 as int;
    let a = speed.0.0 as int;
    let b = speed.1.0 as int;
    assert(d >= 0 ==> a * d >= 0) by (nonlinear_arith)
        requires
            a >= 0,
    ;
    assert(d < 0 ==> b * d <= 0) by (nonlinear_arith)
        requires
            b >= 0,
    ;
}

impl VoiceActivityDetector {
    /// The detector's state as plain values.
    pub closed spec fn view(&self) -> VadView {
        VadView {
            noise: self.noise@,
            average: self.average@,
            old_level: self.old_level@,
            tail: self.tail@,
            five: self.five@,
            three: self.three@,
            burst_count: self.burst_count,
            hang_count: self.hang_count,
            stat_count: self.stat_count,
            register: self.register,
            tone: self.tone,
            sp_est_cnt: self.sp_est_cnt,
            sp_max: self.sp_max,
            sp_max_cnt: self.sp_max_cnt,
            speech_level: self.speech_level,
            prev_power: self.prev_power,
        }
    }

    /// The detector's invariant.
    pub open spec fn wf(&self) -> bool {
        vad_inv(self.view())
    }

    /// The reset state.
    #[must_use]
    pub fn new() -> (d: Self)
        ensures
            d.wf(),
            d.view() == vad_reset(),
    {
        let d = VoiceActivityDetector {
            noise: [Word16(150); COMPLEN],
            average: [Word16(150); COMPLEN],
            old_level: [Word16(150); COMPLEN],
            tail: [Word16(0); COMPLEN],
            five: [Word16(0); 10],
            three: [Word16(0); 6],
            burst_count: 0,
            hang_count: 0,
            stat_count: 0,
            register: 0,
            tone: 0,
            sp_est_cnt: 0,
            sp_max: Word16(0),
            sp_max_cnt: 0,
            speech_level: Word16(2050),
            prev_power: Word32(0),
        };
        assert(d.view().noise =~= vad_reset().noise);
        assert(d.view().average =~= vad_reset().average);
        assert(d.view().old_level =~= vad_reset().old_level);
        assert(d.view().tail =~= vad_reset().tail);
        assert(d.view().five =~= vad_reset().five);
        assert(d.view().three =~= vad_reset().three);
        d
    }

    /// Fold one half-frame's open-loop pitch gain into the tone history.
    ///
    /// A strongly periodic half is evidence of a signalling tone rather than
    /// of speech; five consecutive tonal halves freeze the noise estimate.
    pub fn tone_detection(&mut self, _ctx: &mut DspContext, pitch_gain: Word16)
        requires
            old(self).wf(),
        ensures
            final(self).wf(),
            final(self).view() == toned(old(self).view(), pitch_gain),
    {
        let half: i16 = ((self.tone as u16) / 2) as i16;
        if pitch_gain.0 > TONE_THR {
            self.tone = half + 0x4000;
        } else {
            self.tone = half;
        }
    }

    /// How stationary the spectrum is, which gates the noise estimate's speed.
    fn update_stationarity(&mut self, level: &[Word16; COMPLEN])
        requires
            old(self).wf(),
        ensures
            final(self).view() == with_stationarity(old(self).view(), level@),
    {
        let ghost v = self.view();
        if self.tone >= 0x7c00 || self.register < 0x80 {
            self.stat_count = STAT_COUNT;
        } else {
            let mut total = Word16(0);
            for i in 0..COMPLEN
                invariant
                    self.view() == v,
                    total == change_sum(level@, v.average, i as int),
            {
                let band = level[i];
                let average = self.average[i];
                let (num, denom): (Word16, Word16) = if band.0 > average.0 {
                    (band, average)
                } else {
                    (average, band)
                };
                let num = if num.0 < 184 {
                    Word16(184)
                } else {
                    num
                };
                let denom = if denom.0 < 184 {
                    Word16(184)
                } else {
                    denom
                };
                proof {
                    lemma_norm_s(denom);
                    lemma_half(num);
                }
                let exp: i16 = norm_s(denom);
                let ratio = div_s(shr(num, 1), shl(denom, exp));
                total = add_s(total, shr(ratio, 8 - exp));
            }
            if total.0 > 1000 {
                self.stat_count = STAT_COUNT;
            } else if self.register >= 0x4000 && self.stat_count != 0 {
                self.stat_count = sub_s(Word16(self.stat_count), Word16(1)).0;
            }
        }
        let alpha = if self.stat_count == STAT_COUNT {
            Word16(32767)
        } else if self.register < 0x4000 {
            Word16(16383)
        } else {
            Word16(3276)
        };
        let ghost counted = self.view();
        for i in 0..COMPLEN
            invariant
                counted == (VadView { stat_count: next_stat_count(v, level@), ..v }),
                alpha == average_speed(counted.stat_count, v.register),
                self.view() == (VadView { average: self.average@, ..counted }),
                forall|j: int|
                    0 <= j < i ==> #[trigger] self.average@[j] == moved(
                        v.average[j],
                        level@[j],
                        alpha,
                    ),
                forall|j: int| i <= j < 12 ==> #[trigger] self.average@[j] == v.average[j],
        {
            let delta = sub_s(level[i], self.average[i]);
            self.average[i] = add_s(self.average[i], mult_r(alpha, delta));
        }
        assert(self.view().average =~= with_stationarity(v, level@).average);
    }

    /// Track the background noise, at a speed the stationarity test picks.
    fn update_noise_estimate(&mut self, level: &[Word16; COMPLEN])
        requires
            old(self).wf(),
        ensures
            final(self).wf(),
            final(self).view() == with_noise(old(self).view(), level@),
    {
        let ghost v = self.view();
        self.update_stationarity(level);
        let ghost s = self.view();
        let (up, down, bias): (Word16, Word16, Word16) = if self.register < 0x800 {
            (Word16(1638), Word16(2097), Word16(2))
        } else if self.stat_count == 0 {
            (Word16(491), Word16(1867), Word16(2))
        } else {
            (Word16(0), Word16(1638), Word16(0))
        };
        for i in 0..COMPLEN
            invariant
                s == with_stationarity(v, level@),
                vad_inv(v),
                (up, down, bias) == noise_speed(s.register, s.stat_count),
                self.view() == (VadView { noise: self.noise@, ..s }),
                forall|j: int|
                    0 <= j < i ==> #[trigger] self.noise@[j] == next_noise(
                        s.noise[j],
                        s.old_level[j],
                        (up, down, bias),
                    ),
                forall|j: int| i <= j < 12 ==> #[trigger] self.noise@[j] == s.noise[j],
                forall|j: int|
                    0 <= j < 12 ==> NOISE_MIN <= #[trigger] self.noise@[j].0 <= NOISE_MAX,
        {
            proof {
                lemma_next_noise(self.noise@[i as int], self.old_level@[i as int], (up, down, bias));
            }
            let delta = sub_s(self.old_level[i], self.noise[i]);
            if delta.0 < 0 {
                let v = add_s(Word16(-2), add_s(self.noise[i], mult_r(down, delta)));
                self.noise[i] = if v.0 < NOISE_MIN {
                    Word16(NOISE_MIN)
                } else {
                    v
                };
            } else {
                let v = add_s(bias, add_s(self.noise[i], mult_r(up, delta)));
                self.noise[i] = if v.0 > NOISE_MAX {
                    Word16(NOISE_MAX)
                } else {
                    v
                };
            }
        }
        self.old_level = *level;
        assert(self.view().noise =~= with_noise(v, level@).noise);
    }

    /// Extend a decision past the end of a burst, so a trailing fricative is
    /// not cut off.
    fn hangover(&mut self, low_power: bool, hang_len: i16, burst_len: i16) -> (flag: bool)
        requires
            old(self).wf(),
        ensures
            final(self).wf(),
            (final(self).view(), flag) == with_hangover(
                old(self).view(),
                low_power,
                hang_len,
                burst_len,
            ),
    {
        if low_power {
            self.burst_count = 0;
            self.hang_count = 0;
            return false;
        }
        if self.register >= 0x4000 {
            self.burst_count = add_s(Word16(self.burst_count), Word16(1)).0;
            if self.burst_count >= burst_len {
                self.hang_count = hang_len;
            }
            return true;
        }
        self.burst_count = 0;
        if self.hang_count > 0 {
            self.hang_count = sub_s(Word16(self.hang_count), Word16(1)).0;
            return true;
        }
        false
    }

    /// The decision itself: signal-to-noise ratio against an adaptive
    /// threshold, then hangover.
    fn decide(&mut self, level: &[Word16; COMPLEN], power: Word32) -> (flag: bool)
        requires
            old(self).wf(),
            forall|i: int| 0 <= i < 12 ==> #[trigger] level@[i].0 >= 0,
        ensures
            final(self).wf(),
            (final(self).view(), flag) == decided(old(self).view(), level@, power),
    {
        let ghost v = self.view();
        let mut total = Word32(0);
        for i in 0..COMPLEN
            invariant
                self.view() == v,
                vad_inv(v),
                forall|i: int| 0 <= i < 12 ==> #[trigger] level@[i].0 >= 0,
                total == snr_sum(level@, v.noise, i as int),
        {
            let noise = self.noise[i];
            assert(noise == v.noise[i as int]);
            proof {
                lemma_norm_s(noise);
                lemma_half(level@[i as int]);
            }
            let exp: i16 = norm_s(noise);
            let ratio = div_s(shr(level[i], 1), shl(noise, exp));
            let ratio = shl(ratio, exp - 6);
            total = l_mac(total, ratio, ratio);
        }
        let noise_level = mean_level(&self.noise);
        let floor = shl(mult(noise_level, Word16(4096)), 3);
        if self.speech_level.0 < floor.0 {
            self.speech_level = floor;
        }
        let thr = threshold(noise_level, self.speech_level);
        let half: i16 = ((self.register as u16) / 2) as i16;
        if total.0 > l_mult(thr, Word16(6144)).0 {
            self.register = half + 0x4000;
        } else {
            self.register = half;
        }
        self.update_noise_estimate(level);
        let hang = add_s(mult(Word16(-1110), sub_s(thr, Word16(217))), Word16(12));
        let hang_len: i16 = if hang.0 < 2 {
            2
        } else {
            hang.0
        };
        let burst_len: i16 = add_s(mult(Word16(297), sub_s(thr, Word16(768))), Word16(8)).0;
        self.hangover(power.0 < VAD_POW_LOW, hang_len, burst_len)
    }

    /// Track the level of speech, from the peak of recent active frames.
    fn estimate_speech(&mut self, in_level: Word16)
        requires
            old(self).wf(),
        ensures
            final(self).wf(),
            final(self).view() == with_speech(old(self).view(), in_level),
    {
        if sub_s(Word16(self.sp_est_cnt), Word16(self.sp_max_cnt)).0 > 55 {
            self.sp_est_cnt = 0;
            self.sp_max = Word16(0);
            self.sp_max_cnt = 0;
        }
        self.sp_est_cnt = add_s(Word16(self.sp_est_cnt), Word16(1)).0;
        let active: bool = self.register >= 0x4000 || in_level.0 > self.speech_level.0;
        if !active || in_level.0 <= 129 {
            return ;
        }
        if in_level.0 > self.sp_max.0 {
            self.sp_max = in_level;
        }
        self.sp_max_cnt = add_s(Word16(self.sp_max_cnt), Word16(1)).0;
        if self.sp_max_cnt < 25 {
            return ;
        }
        let target = shr(self.sp_max, 1);
        if target.0 > 410 {
            let delta = sub_s(target, self.speech_level);
            self.speech_level = add_s(self.speech_level, mult_r(Word16(4915), delta));
        }
        self.sp_max = Word16(0);
        self.sp_max_cnt = 0;
        self.sp_est_cnt = 0;
    }

    /// Split the frame into twelve bands and measure each one's level.
    fn filter_bank(&mut self, input: &[Word16; FRAME_LEN]) -> (level: [Word16; COMPLEN])
        requires
            old(self).wf(),
        ensures
            final(self).wf(),
            final(self).view() == with_frame(old(self).view(), input@),
            level@ == frame_levels(old(self).view(), input@),
            forall|i: int| 0 <= i < 12 ==> #[trigger] level@[i].0 >= 0,
    {
        let ghost v = self.view();
        let mut buf: [Word16; FRAME_LEN] = [Word16(0); FRAME_LEN];
        for i in 0..FRAME_LEN
            invariant
                forall|j: int| 0 <= j < i ==> #[trigger] buf@[j] == shr(input@[j], 1),
        {
            buf[i] = shr(input[i], 1);
        }
        let mut bank = Bank { buf, five: self.five, three: self.three };
        assert(bank.view().buf =~= halved_bank(v, input@).buf);
        bank.run();
        self.five = bank.five;
        self.three = bank.three;
        let ghost out = bank.view();
        let mut level: [Word16; COMPLEN] = [Word16(0); COMPLEN];
        for b in 0..COMPLEN
            invariant
                out == filtered_bank(halved_bank(v, input@)),
                bank.buf@ == out.buf,
                vad_inv(v),
                self.view() == (VadView {
                    tail: self.tail@,
                    five: self.five@,
                    three: self.three@,
                    ..v
                }),
                self.five@ == out.five,
                self.three@ == out.three,
                forall|j: int|
                    0 <= j < b ==> #[trigger] level@[j] == band_level(
                        out.buf,
                        v.tail[j],
                        span_of(j as usize),
                    ) && level@[j].0 >= 0,
                forall|j: int|
                    0 <= j < b ==> #[trigger] self.tail@[j] == carried_tail(
                        out.buf,
                        span_of(j as usize),
                    ) && self.tail@[j].0 >= 0,
                forall|j: int| b <= j < 12 ==> #[trigger] self.tail@[j] == v.tail[j],
        {
            let (l, t) = level_calculation(&bank.buf, self.tail[b], b);
            level[b] = l;
            self.tail[b] = t;
        }
        assert(level@ =~= frame_levels(v, input@));
        assert(self.view().tail =~= with_frame(v, input@).tail);
        level
    }

    /// Decide whether one frame carries speech.
    ///
    /// `frame` is the pre-emphasised 12.8 kHz frame brought to Q1.
    pub fn process(&mut self, _ctx: &mut DspContext, frame: &[Word16; FRAME_LEN]) -> (flag: bool)
        requires
            old(self).wf(),
        ensures
            final(self).wf(),
            (final(self).view(), flag) == processed(old(self).view(), frame@),
    {
        proof {
            reveal(processed);
        }
        let power = accumulate(Word32(0), frame, 0, frame, 0, FRAME_LEN);
        let both = l_add(power, self.prev_power);
        self.prev_power = power;
        if both.0 < POW_TONE_THR {
            self.tone = ((self.tone as u16) % 0x2000) as i16;
        }
        let ghost heard = self.view();
        let level = self.filter_bank(frame);
        let flag: bool = self.decide(&level, both);
        let input_level = mean_level(&level);
        self.estimate_speech(input_level);
        flag
    }
}

/// A frame that is quiet together with the one before it is never speech,
/// whatever the detector has heard before.
pub proof fn law_quiet_is_not_speech(v: VadView, frame: Seq<Word16>)
    requires
        l_add(mac_run(Word32(0), frame, 0, frame, 0, 256), v.prev_power).0 < VAD_POW_LOW,
    ensures
        !processed(v, frame).1,
        processed(v, frame).0.hang_count == 0,
        processed(v, frame).0.burst_count == 0,
{
    reveal(processed);
}

/// Silence adds no power.
proof fn lemma_silent_power(frame: Seq<Word16>, n: int)
    requires
        forall|i: int| 0 <= i < n ==> #[trigger] frame[i] == Word16(0),
    ensures
        mac_run(Word32(0), frame, 0, frame, 0, n) == Word32(0),
    decreases n,
{
    if n > 0 {
        lemma_silent_power(frame, n - 1);
        assert(frame[n - 1] == Word16(0));
        reveal(crate::fixed_point::spec_l_mac);
        reveal(crate::fixed_point::spec_l_mult);
        reveal(crate::fixed_point::spec_l_add);
    }
}

/// A silent frame behind a silent one is never speech, and leaves the detector
/// behind a silent one: neither a detector out of reset nor one that hears
/// silence again calls it speech.
pub proof fn law_silence_is_not_speech(v: VadView, frame: Seq<Word16>)
    requires
        v.prev_power == Word32(0),
        forall|i: int| 0 <= i < 256 ==> #[trigger] frame[i] == Word16(0),
    ensures
        vad_reset().prev_power == Word32(0),
        !processed(v, frame).1,
        processed(v, frame).0.prev_power == Word32(0),
{
    lemma_silent_power(frame, 256);
    assert(l_add(Word32(0), Word32(0)) == Word32(0)) by {
        reveal(crate::fixed_point::spec_l_add);
    }
    law_quiet_is_not_speech(v, frame);
    reveal(processed);
}

/// A quotient of a band's level by its noise rises with the level.
proof fn lemma_ratio_rises(level: Word16, louder: Word16, noise: Word16)
    requires
        0 <= level.0 <= louder.0,
        0 < noise.0,
    ensures
        0 <= snr(level, noise).0 <= snr(louder, noise).0,
{
    reveal(crate::fixed_point::spec_shr);
    reveal(crate::fixed_point::spec_div_s);
    reveal(crate::fixed_point::spec_shl);
    vstd::arithmetic::power2::lemma2_to64();
    crate::fixed_point::lemma_norm_s(noise);
    let exp = norm_s(noise);
    let d = shl(noise, exp).0 as int;
    let a = shr(level, 1).0 as int;
    let b = shr(louder, 1).0 as int;
    assert(a == level.0 as int / 2 && b == louder.0 as int / 2);
    assert(0x4000 <= d && 0 <= a <= b <= 16383);
    assert(0 <= (a * 32768) / d <= (b * 32768) / d <= 32767) by (nonlinear_arith)
        requires
            0 <= a <= b <= 16383,
            0x4000 <= d,
    ;
    let p = div_s(shr(level, 1), shl(noise, exp));
    let q = div_s(shr(louder, 1), shl(noise, exp));
    assert(0 <= p.0 <= q.0);
    let n = (exp - 6) as i16;
    let x = p.0 as int;
    let y = q.0 as int;
    if n >= 0 {
        let k = vstd::arithmetic::power2::pow2(n as nat) as int;
        assert(0 <= x * k <= y * k) by (nonlinear_arith)
            requires
                0 <= x <= y,
                0 <= k,
        ;
    } else {
        let k = vstd::arithmetic::power2::pow2((-n) as nat) as int;
        vstd::arithmetic::power2::lemma_pow2_pos((-n) as nat);
        assert(0 <= x / k <= y / k && y / k <= y) by (nonlinear_arith)
            requires
                0 <= x <= y,
                1 <= k,
        ;
    }
}

/// The summed ratios rise with every band's level.
proof fn lemma_ratios_rise(level: Seq<Word16>, louder: Seq<Word16>, noise: Seq<Word16>, n: int)
    requires
        0 <= n <= 12,
        forall|i: int| 0 <= i < 12 ==> 0 <= (#[trigger] level[i]).0 <= louder[i].0,
        forall|i: int| 0 <= i < 12 ==> 0 < (#[trigger] noise[i]).0,
    ensures
        0 <= snr_sum(level, noise, n).0 <= snr_sum(louder, noise, n).0,
    decreases n,
{
    if n > 0 {
        lemma_ratios_rise(level, louder, noise, n - 1);
        assert(0 <= level[n - 1].0 <= louder[n - 1].0 && 0 < noise[n - 1].0);
        lemma_ratio_rises(level[n - 1], louder[n - 1], noise[n - 1]);
        let a = snr(level[n - 1], noise[n - 1]);
        let b = snr(louder[n - 1], noise[n - 1]);
        let x = a.0 as int;
        let y = b.0 as int;
        assert(0 <= x * x <= y * y <= 32767 * 32767) by (nonlinear_arith)
            requires
                0 <= x <= y <= 32767,
        ;
        crate::fixed_point::lemma_l_mac(snr_sum(level, noise, n - 1), a, a);
        crate::fixed_point::lemma_l_mac(snr_sum(louder, noise, n - 1), b, b);
    }
}

/// What is speech stays speech when it is louder: a frame with at least as much
/// in every band, and no less power, is called speech wherever the quieter one
/// is.
pub proof fn law_louder_is_still_speech(
    v: VadView,
    level: Seq<Word16>,
    louder: Seq<Word16>,
    power: Word32,
    more_power: Word32,
)
    requires
        0 <= v.register,
        power.0 <= more_power.0,
        forall|i: int| 0 <= i < 12 ==> 0 <= (#[trigger] level[i]).0 <= louder[i].0,
        forall|i: int| 0 <= i < 12 ==> 0 < (#[trigger] v.noise[i]).0,
        decided(v, level, power).1,
    ensures
        decided(v, louder, more_power).1,
{
    lemma_ratios_rise(level, louder, v.noise, 12);
}

/// Speech is told from noise by the summed ratios: above the threshold a frame
/// with power is speech, and below it only while a hangover lasts.
pub proof fn law_ratios_decide(v: VadView, level: Seq<Word16>, power: Word32)
    requires
        0 <= v.register,
        power.0 >= VAD_POW_LOW,
    ensures
        ({
            let noise_level = average_level(v.noise);
            let thr = threshold(noise_level, lifted_speech(v.speech_level, noise_level));
            let ratios = snr_sum(level, v.noise, 12).0;
            &&& ratios > 12288 * thr.0 ==> decided(v, level, power).1
            &&& ratios <= 12288 * thr.0 ==> decided(v, level, power).1 == (v.hang_count > 0)
        }),
{
    let noise_level = average_level(v.noise);
    let thr = threshold(noise_level, lifted_speech(v.speech_level, noise_level));
    crate::fixed_point::lemma_l_mac(Word32(0), thr, Word16(6144));
}

/// A level that follows another never goes past it, nor away from it.
pub proof fn law_following_stays_between(from: Word16, to: Word16, speed: Word16)
    requires
        0 <= from.0,
        0 <= to.0,
        0 <= speed.0,
    ensures
        from.0 <= to.0 ==> from.0 <= moved(from, to, speed).0 <= to.0,
        to.0 <= from.0 ==> to.0 <= moved(from, to, speed).0 <= from.0,
{
    reveal(crate::fixed_point::spec_sub_s);
    reveal(crate::fixed_point::spec_add_s);
    reveal(crate::fixed_point::spec_mult_r);
    let d = to.0 - from.0;
    let k = speed.0 as int;
    assert((d >= 0 ==> 0 <= k * d <= 32767 * d) && (d <= 0 ==> 32767 * d <= k * d <= 0)) by (nonlinear_arith)
        requires
            0 <= k <= 32767,
    ;
    assert((d >= 0 ==> 0 <= (k * d + 16384) / 32768 <= d) && (d < 0 ==> d <= (k * d + 16384) / 32768
        <= 0));
}

/// The noise estimate follows the level: below it the estimate never rises,
/// above it never falls but for its ceiling, and while speech that is not
/// stationary goes on it does not rise at all.
pub proof fn law_speech_does_not_raise_the_noise(
    noise: Word16,
    old_level: Word16,
    register: i16,
    stat_count: i16,
)
    requires
        NOISE_MIN <= noise.0 <= NOISE_MAX,
        0 <= old_level.0,
    ensures
        ({
            let next = next_noise(noise, old_level, noise_speed(register, stat_count)).0;
            &&& NOISE_MIN <= next <= NOISE_MAX
            &&& old_level.0 < noise.0 ==> next <= noise.0
            &&& old_level.0 >= noise.0 ==> next >= noise.0
            &&& register >= 0x800 && stat_count != 0 ==> next <= noise.0
        }),
{
    reveal(crate::fixed_point::spec_sub_s);
    reveal(crate::fixed_point::spec_add_s);
    reveal(crate::fixed_point::spec_mult_r);
    let speed = noise_speed(register, stat_count);
    let d = old_level.0 - noise.0;
    let u = speed.0.0 as int;
    let w = speed.1.0 as int;
    assert((d >= 0 ==> 0 <= u * d <= 1638 * d) && (d <= 0 ==> 2097 * d <= w * d <= 0) && (u == 0
        ==> u * d == 0)) by (nonlinear_arith)
        requires
            0 <= u <= 1638,
            0 <= w <= 2097,
    ;
}

/// A hangover holds a decision for as many frames as it was given, and no
/// more: each inactive frame takes one.
pub proof fn law_hangover_counts_down(v: VadView, hang_len: i16, burst_len: i16)
    requires
        v.register < 0x4000,
    ensures
        ({
            let (after, flag) = with_hangover(v, false, hang_len, burst_len);
            &&& flag == (v.hang_count > 0)
            &&& v.hang_count > 0 ==> after.hang_count == v.hang_count - 1
            &&& v.hang_count <= 0 ==> after.hang_count == v.hang_count
            &&& after.burst_count == 0
        }),
{
    reveal(crate::fixed_point::spec_sub_s);
}

/// The two halves of a band pair hold what went in: their difference is the
/// second signal, and their sum the first, less a lost half.
pub proof fn law_halves_add_up(a: Word16, b: Word16)
    ensures
        half_sum(a, b).0 - half_difference(a, b).0 == b.0,
        a.0 - 1 <= half_sum(a, b).0 + half_difference(a, b).0 <= a.0,
{
    vstd::arithmetic::power2::lemma2_to64();
    let s = Word32((a.0 + b.0) as i32);
    let d = Word32((a.0 - b.0) as i32);
    crate::fixed_point::lemma_l_shl(s, 15, 32768);
    crate::fixed_point::lemma_l_shl(d, 15, 32768);
    reveal(crate::fixed_point::spec_extract_h);
    assert(half_sum(a, b).0 == (a.0 + b.0) / 2);
    assert(half_difference(a, b).0 == (a.0 - b.0) / 2);
}

/// An all-pass section loses nothing: the sample and the memory that went in
/// follow from the output and the memory that comes out.
pub proof fn law_sections_lose_nothing(x: Word16, memory: Word16, coefficient: i16)
    requires
        -8192 <= x.0 <= 8192,
        -8192 <= memory.0 <= 8192,
        0 <= coefficient,
    ensures
        ({
            let state = section_state(x, memory, coefficient);
            let output = section_output(x, memory, coefficient);
            &&& x == add_s(state, mult(Word16(coefficient), memory))
            &&& memory == sub_s(output, mult(Word16(coefficient), state))
        }),
{
    reveal(crate::fixed_point::spec_add_s);
    reveal(crate::fixed_point::spec_sub_s);
    reveal(crate::fixed_point::spec_mult);
    let c = coefficient as int;
    let m = memory.0 as int;
    assert(-8192 * 32768 <= c * m <= 8192 * 32768) by (nonlinear_arith)
        requires
            0 <= c <= 32767,
            -8192 <= m <= 8192,
    ;
    let s = section_state(x, memory, coefficient).0 as int;
    assert(-16384 <= s <= 16384);
    assert(-16384 * 32768 <= c * s <= 16384 * 32768) by (nonlinear_arith)
        requires
            0 <= c <= 32767,
            -16384 <= s <= 16384,
    ;
}

proof fn lemma_louder_magnitudes(
    seed: Word32,
    more: Word32,
    data: Seq<Word16>,
    louder: Seq<Word16>,
    span: LevelSpan,
    a: int,
    b: int,
)
    requires
        0 <= seed.0 <= more.0,
        0 <= a,
        b <= span.count2,
        span.offset < span.stride,
        well_spaced(span),
        data.len() == FRAME_LEN,
        forall|i: int| 0 <= i < FRAME_LEN ==> abs_s(#[trigger] data[i]).0 <= abs_s(louder[i]).0,
    ensures
        0 <= magnitudes(seed, data, span, a, b).0 <= magnitudes(more, louder, span, a, b).0,
    decreases b,
{
    if !(b <= a || b <= 0) {
        lemma_louder_magnitudes(seed, more, data, louder, span, a, b - 1);
        reveal(crate::fixed_point::spec_l_mac);
        reveal(crate::fixed_point::spec_l_mult);
        reveal(crate::fixed_point::spec_l_add);
        reveal(crate::fixed_point::spec_abs_s);
        let i = span.stride * (b - 1) + span.offset;
        let w = span.stride as int;
        assert(0 <= w * (b - 1) && w * (b - 1) + w <= w * span.count2) by (nonlinear_arith)
            requires
                0 < b <= span.count2,
                0 <= w,
        ;
        assert(w * span.count2 == 256) by (nonlinear_arith)
            requires
                w == 4 && span.count2 == 64 || w == 8 && span.count2 == 32 || w == 16 && span.count2
                    == 16 || w == 32 && span.count2 == 8,
        ;
        assert(abs_s(data[i]).0 <= abs_s(louder[i]).0);
    }
}

/// A louder frame has no lower level in any band, and carries no less over.
pub proof fn law_louder_bands_have_higher_levels(
    data: Seq<Word16>,
    louder: Seq<Word16>,
    carried: Word16,
    more: Word16,
    span: LevelSpan,
)
    requires
        0 <= carried.0 <= more.0,
        14 <= span.scale <= 17,
        span.count1 <= span.count2,
        span.offset < span.stride,
        well_spaced(span),
        data.len() == FRAME_LEN,
        louder.len() == FRAME_LEN,
        forall|i: int| 0 <= i < FRAME_LEN ==> abs_s(#[trigger] data[i]).0 <= abs_s(louder[i]).0,
    ensures
        0 <= band_level(data, carried, span).0 <= band_level(louder, more, span).0,
        0 <= carried_tail(data, span).0 <= carried_tail(louder, span).0,
{
    let a = span.count1 as int;
    let b = span.count2 as int;
    lemma_louder_magnitudes(Word32(0), Word32(0), data, louder, span, a, b);
    lemma_shift_rises(band_tail(data, span), band_tail(louder, span), span.scale);
    let c = Word32(carried.0 as i32);
    let m = Word32(more.0 as i32);
    lemma_shift_rises(c, m, (16 - span.scale) as i16);
    let n = (16 - span.scale) as i16;
    let seed = l_add(band_tail(data, span), l_shl(c, n));
    let larger = l_add(band_tail(louder, span), l_shl(m, n));
    reveal(crate::fixed_point::spec_l_add);
    assert(0 <= seed.0 <= larger.0);
    lemma_louder_magnitudes(seed, larger, data, louder, span, 0, a);
    lemma_shift_rises(
        magnitudes(seed, data, span, 0, a),
        magnitudes(larger, louder, span, 0, a),
        span.scale,
    );
}

proof fn lemma_shift_rises(x: Word32, y: Word32, n: i16)
    requires
        0 <= x.0 <= y.0,
        -31 <= n <= 31,
    ensures
        0 <= l_shl(x, n).0 <= l_shl(y, n).0,
        0 <= extract_h(l_shl(x, n)).0 <= extract_h(l_shl(y, n)).0,
{
    reveal(crate::fixed_point::spec_l_shl);
    reveal(crate::fixed_point::spec_extract_h);
    let a = x.0 as int;
    let b = y.0 as int;
    if n >= 0 {
        let p = vstd::arithmetic::power2::pow2(n as nat) as int;
        assert(0 <= a * p <= b * p) by (nonlinear_arith)
            requires
                0 <= a <= b,
                0 <= p,
        ;
    } else {
        let p = vstd::arithmetic::power2::pow2((-n) as nat) as int;
        vstd::arithmetic::power2::lemma_pow2_pos((-n) as nat);
        assert(0 <= a / p <= b / p && b / p <= b) by (nonlinear_arith)
            requires
                0 <= a <= b,
                1 <= p,
        ;
    }
}

/// The fractional part of the pseudo-logarithm of a normalised word.
spec fn fractional_log(m0: Word16) -> int {
    let m1 = mult(m0, m0);
    let m2 = mult(m1, m1);
    let m3 = mult(m2, m2);
    let squared = l_mult(m3, m3);
    64 * norm_l(squared) + 127 - extract_h(l_shl(squared, norm_l(squared))).0 as int / 256
}

proof fn lemma_squares_rise(a: Word16, b: Word16, low: int)
    requires
        0 <= low <= a.0 <= b.0,
    ensures
        (low * low) / 32768 <= mult(a, a).0 <= mult(b, b).0,
{
    reveal(crate::fixed_point::spec_mult);
    let x = a.0 as int;
    let y = b.0 as int;
    assert(low * low <= x * x <= y * y && y * y <= 32767 * 32767) by (nonlinear_arith)
        requires
            0 <= low <= x <= y <= 32767,
    ;
}

proof fn lemma_fractional_log(m: Word16, n: Word16)
    requires
        0x4000 <= m.0 <= n.0,
    ensures
        fractional_log(m) >= fractional_log(n),
        0 <= fractional_log(n),
        fractional_log(m) <= 1023,
{
    lemma_squares_rise(m, n, 0x4000);
    let (m1, n1) = (mult(m, m), mult(n, n));
    assert((0x4000int * 0x4000int) / 32768 == 8192);
    lemma_squares_rise(m1, n1, 8192);
    let (m2, n2) = (mult(m1, m1), mult(n1, n1));
    assert((8192int * 8192int) / 32768 == 2048);
    lemma_squares_rise(m2, n2, 2048);
    let (m3, n3) = (mult(m2, m2), mult(n2, n2));
    assert((2048int * 2048int) / 32768 == 128);
    let x = m3.0 as int;
    let y = n3.0 as int;
    assert(128 * 128 <= x * x <= y * y && y * y <= 32767 * 32767) by (nonlinear_arith)
        requires
            128 <= x <= y <= 32767,
    ;
    lemma_l_mac(Word32(0), m3, m3);
    lemma_l_mac(Word32(0), n3, n3);
    let p = l_mult(m3, m3);
    let q = l_mult(n3, n3);
    assert(32768 <= p.0 <= q.0);
    lemma_larger_l_shifts_less(p, q);
    lemma_normalised(p);
    lemma_normalised(q);
    lemma_normalised(Word32(32768));
    lemma_larger_l_shifts_less(Word32(32768), p);
    vstd::arithmetic::power2::lemma2_to64();
    let k = norm_l(Word32(32768)) as nat;
    if k > 15 {
        vstd::arithmetic::power2::lemma_pow2_strictly_increases(15, k);
    }
    assert(norm_l(p) <= 15);
    reveal(crate::fixed_point::spec_extract_h);
}

proof fn lemma_ilog_parts(v: Word16)
    requires
        v.0 > 0,
    ensures
        ilog2(v).0 == 1024 * (norm_s(v) + 16) + fractional_log(shl(v, norm_s(v))),
{
    lemma_normalised_s(v);
    let m0 = shl(v, norm_s(v));
    lemma_fractional_log(m0, m0);
    vstd::arithmetic::power2::lemma2_to64();
    let m1 = mult(m0, m0);
    let m2 = mult(m1, m1);
    let m3 = mult(m2, m2);
    let squared = l_mult(m3, m3);
    lemma_norm_l(squared);
    reveal(crate::fixed_point::spec_add_s);
    reveal(crate::fixed_point::spec_sub_s);
    let ex2 = norm_l(squared);
    let top = extract_h(l_shl(squared, ex2));
    lemma_shr(top, 8, 256);
    lemma_shl(add_s(Word16(norm_s(v)), Word16(16)), 10, 1024);
    lemma_shl(Word16(ex2), 6, 64);
}

/// The pseudo-logarithm falls: a larger value has no larger one.
pub proof fn law_pseudo_logarithm_falls(v: Word16, w: Word16)
    requires
        v.0 <= w.0,
    ensures
        ilog2(v).0 >= ilog2(w).0,
{
    let a = if v.0 <= 0 {
        Word16(1)
    } else {
        v
    };
    let b = if w.0 <= 0 {
        Word16(1)
    } else {
        w
    };
    assert(ilog2(v) == ilog2(a) && ilog2(w) == ilog2(b));
    lemma_ilog_parts(a);
    lemma_ilog_parts(b);
    lemma_larger_shifts_less(a, b);
    lemma_normalised_s(a);
    lemma_normalised_s(b);
    let m = shl(a, norm_s(a));
    let n = shl(b, norm_s(b));
    lemma_fractional_log(m, m);
    lemma_fractional_log(n, n);
    if norm_s(a) == norm_s(b) {
        lemma_fractional_log(m, n);
    }
}

/// Louder speech raises the threshold, or leaves it.
pub proof fn law_loud_speech_raises_the_threshold(noise: Word16, speech: Word16, louder: Word16)
    requires
        speech.0 <= louder.0,
    ensures
        204 <= spec_threshold(noise, speech).0 <= spec_threshold(noise, louder).0,
{
    reveal(crate::fixed_point::spec_add_s);
    reveal(crate::fixed_point::spec_sub_s);
    reveal(crate::fixed_point::spec_mult);
    let s = sub_s(speech, speech_floor(noise));
    let t = sub_s(louder, speech_floor(noise));
    law_pseudo_logarithm_falls(s, t);
    assert(Word16(-1339i16).0 == -1339);
}

/// A higher threshold asks for a longer burst, and holds the decision for a
/// shorter time.
pub proof fn law_high_thresholds_hold_less(low: Word16, high: Word16)
    requires
        low.0 <= high.0,
    ensures
        hang_length(low) >= hang_length(high) >= 2,
        burst_length(low) <= burst_length(high),
{
    reveal(crate::fixed_point::spec_add_s);
    reveal(crate::fixed_point::spec_sub_s);
    reveal(crate::fixed_point::spec_mult);
    assert(Word16(-1110i16).0 == -1110);
    assert(Word16(297).0 == 297);
}

/// A band that rose and one that fell by as much count alike.
pub proof fn law_change_counts_both_ways(band: Word16, average: Word16)
    ensures
        change_ratio(band, average) == change_ratio(average, band),
{
}

/// Five strong half-frames in a row make a tone, and a weak one ends it.
pub proof fn law_five_strong_halves_make_a_tone(v: VadView, gains: Seq<Word16>)
    requires
        v.tone >= 0,
        gains.len() == 5,
    ensures
        ({
            let w = toned(
                toned(toned(toned(toned(v, gains[0]), gains[1]), gains[2]), gains[3]),
                gains[4],
            );
            &&& (forall|i: int| 0 <= i < 5 ==> (#[trigger] gains[i]).0 > TONE_THR) ==> w.tone >= 0x7c00
            &&& (exists|i: int| 0 <= i < 5 && (#[trigger] gains[i]).0 <= TONE_THR) ==> w.tone < 0x7c00
        }),
{
}

/// Splitting a pair moves its two samples and its own memory, and leaves every
/// other: the low half takes the sum and the high half the difference.
pub proof fn law_splits_touch_their_pair(b: BankView, lo: int, hi: int, slot: int, i: int)
    requires
        b.buf.len() == FRAME_LEN,
        b.five.len() == 10,
        b.three.len() == 6,
        0 <= lo < FRAME_LEN,
        0 <= hi < FRAME_LEN,
        lo != hi,
        0 <= slot < 5,
        0 <= i < FRAME_LEN,
    ensures
        i != lo && i != hi ==> split5(b, lo, hi, slot).buf[i] == b.buf[i] && split3(
            b,
            lo,
            hi,
            slot,
        ).buf[i] == b.buf[i],
        i < 10 && i / 2 != slot ==> split5(b, lo, hi, slot).five[i] == b.five[i],
        i < 6 && i != slot ==> split3(b, lo, hi, slot).three[i] == b.three[i],
        split5(b, lo, hi, slot).three == b.three,
        split3(b, lo, hi, slot).five == b.five,
        split3(b, lo, hi, slot).buf[lo].0 + split3(b, lo, hi, slot).buf[hi].0 <= b.buf[lo].0,
        split3(b, lo, hi, slot).buf[lo].0 + split3(b, lo, hi, slot).buf[hi].0 >= b.buf[lo].0 - 1,
{
    law_halves_add_up(b.buf[lo], section_output(b.buf[hi], b.three[slot], 13363));
}

/// The averages follow the levels at once while the spectrum is not
/// stationary, and never overshoot.
pub proof fn law_averages_follow_the_levels(v: VadView, level: Seq<Word16>, i: int)
    requires
        vad_inv(v),
        level.len() == 12,
        0 <= i < 12,
        0 <= level[i].0,
        0 <= v.average[i].0 <= level[i].0,
    ensures
        ({
            let w = with_stationarity(v, level);
            &&& v.average[i].0 <= w.average[i].0 <= level[i].0
            &&& w.stat_count == STAT_COUNT ==> w.average[i].0 >= level[i].0 - 1
        }),
{
    let w = with_stationarity(v, level);
    let speed = average_speed(w.stat_count, v.register);
    reveal(crate::fixed_point::spec_add_s);
    reveal(crate::fixed_point::spec_sub_s);
    reveal(crate::fixed_point::spec_mult_r);
    let d = level[i].0 - v.average[i].0;
    let s = speed.0 as int;
    assert(0 <= s * d <= 32767 * d) by (nonlinear_arith)
        requires
            0 <= s <= 32767,
            0 <= d,
    ;
}

} // verus!
