//! The synthesis side's filters: the 50 Hz high-pass, the double-precision
//! synthesis filter and the de-emphasis behind it.

use vstd::prelude::*;
use crate::fixed_point::{
    add_s, extract_h, extract_l, l_deposit_h, l_extract, l_mac, l_msu, l_mult, l_shl, l_shr,
    lemma_l_mac, lemma_l_shl, lemma_l_shr, lemma_round, norm_s, round, shr, sub_s, Word16, Word32,
};
use crate::isf_noise::LP_ORDER;

verus! {

/// Samples per subframe, at 12.8 kHz.
pub const L_SUBFR: usize = 64;

/// Pre-emphasis factor, 0.68 in Q15.
pub const PREEMPH_FAC: i16 = 22282;

// ---------------------------------------------------------------------------
// Second-order sections
// ---------------------------------------------------------------------------

/// The memory of a second-order section: two double-precision outputs and two
/// inputs.
#[derive(Clone, Copy, Debug, PartialEq, Eq, Structural)]
pub struct Section {
    pub y1_hi: Word16,
    pub y1_lo: Word16,
    pub y2_hi: Word16,
    pub y2_lo: Word16,
    pub x0: Word16,
    pub x1: Word16,
}

/// The coefficients of a second-order section, and how far its sum is shifted.
#[derive(Clone, Copy, Debug, PartialEq, Eq, Structural)]
pub struct SectionTaps {
    pub b0: i16,
    pub b1: i16,
    pub b2: i16,
    pub a1: i16,
    pub a2: i16,
    pub shift: i16,
}

/// A section with no history.
pub open spec fn silent_section() -> Section {
    Section {
        y1_hi: Word16(0),
        y1_lo: Word16(0),
        y2_hi: Word16(0),
        y2_lo: Word16(0),
        x0: Word16(0),
        x1: Word16(0),
    }
}

/// The shifted sum of a section that is handed a sample.
#[verifier::opaque]
pub open spec fn section_sum(s: Section, t: SectionTaps, x: Word16) -> Word32 {
    let low = l_mac(l_mac(Word32(16384), s.y1_lo, Word16(t.a1)), s.y2_lo, Word16(t.a2));
    let recursive = l_mac(l_mac(l_shr(low, 15), s.y1_hi, Word16(t.a1)), s.y2_hi, Word16(t.a2));
    let direct = l_mac(l_mac(recursive, x, Word16(t.b0)), s.x0, Word16(t.b1));
    l_shl(l_mac(direct, s.x1, Word16(t.b2)), t.shift)
}

/// The section after a sample.
pub open spec fn section_next(s: Section, t: SectionTaps, x: Word16) -> Section {
    let y = l_extract(section_sum(s, t, x));
    Section { y1_hi: y.0, y1_lo: y.1, y2_hi: s.y1_hi, y2_lo: s.y1_lo, x0: x, x1: s.x0 }
}

/// The section after the first `n` samples of a signal.
pub open spec fn section_after(s: Section, t: SectionTaps, x: Seq<Word16>, n: int) -> Section
    decreases n,
{
    if n <= 0 {
        s
    } else {
        section_next(section_after(s, t, x, n - 1), t, x[n - 1])
    }
}

/// Sample `i` of a filtered signal; `lift` is a last shift, with saturation.
pub open spec fn section_output(
    s: Section,
    t: SectionTaps,
    lift: i16,
    x: Seq<Word16>,
    i: int,
) -> Word16 {
    round(l_shl(section_sum(section_after(s, t, x, i), t, x[i]), lift))
}

/// A signal through a section.
pub open spec fn sectioned(s: Section, t: SectionTaps, lift: i16, x: Seq<Word16>) -> Seq<Word16> {
    Seq::new(x.len(), |i: int| section_output(s, t, lift, x, i))
}

impl Section {
    /// A section with no history.
    pub fn new() -> (s: Self)
        ensures
            s == silent_section(),
    {
        Section {
            y1_hi: Word16(0),
            y1_lo: Word16(0),
            y2_hi: Word16(0),
            y2_lo: Word16(0),
            x0: Word16(0),
            x1: Word16(0),
        }
    }

    /// Filter a signal in place.
    pub fn filter(&mut self, t: SectionTaps, lift: i16, signal: &mut [Word16])
        ensures
            final(signal)@ == sectioned(*old(self), t, lift, old(signal)@),
            *final(self) == section_after(*old(self), t, old(signal)@, old(signal)@.len() as int),
    {
        let ghost x = signal@;
        let ghost start = *self;
        let n: usize = signal.len();
        for i in 0..n
            invariant
                n == x.len(),
                signal@.len() == n,
                *self == section_after(start, t, x, i as int),
                forall|j: int|
                    0 <= j < i ==> #[trigger] signal@[j] == section_output(start, t, lift, x, j),
                forall|j: int| i <= j < n ==> #[trigger] signal@[j] == x[j],
        {
            proof {
                reveal(section_sum);
            }
            let sample = signal[i];
            let low = l_mac(
                l_mac(Word32(16384), self.y1_lo, Word16(t.a1)),
                self.y2_lo,
                Word16(t.a2),
            );
            let recursive = l_mac(
                l_mac(l_shr(low, 15), self.y1_hi, Word16(t.a1)),
                self.y2_hi,
                Word16(t.a2),
            );
            let direct = l_mac(l_mac(recursive, sample, Word16(t.b0)), self.x0, Word16(t.b1));
            let sum = l_shl(l_mac(direct, self.x1, Word16(t.b2)), t.shift);
            let (hi, lo) = l_extract(sum);
            self.y2_hi = self.y1_hi;
            self.y2_lo = self.y1_lo;
            self.y1_hi = hi;
            self.y1_lo = lo;
            self.x1 = self.x0;
            self.x0 = sample;
            signal[i] = round(l_shl(sum, lift));
        }
        assert(signal@ =~= sectioned(start, t, lift, x));
    }
}

/// The 50 Hz high-pass at 12.8 kHz.
#[derive(Clone, Copy, Debug, PartialEq, Eq, Structural)]
pub struct HighPass50 {
    pub memory: Section,
}

/// The coefficients of the 50 Hz high-pass.
pub open spec fn high_pass_50() -> SectionTaps {
    SectionTaps { b0: 4053, b1: -8106i16, b2: 4053, a1: 16211, a2: -8021i16, shift: 2 }
}

impl HighPass50 {
    /// A filter with no history.
    #[must_use]
    pub fn new() -> (f: Self)
        ensures
            f.memory == silent_section(),
    {
        HighPass50 { memory: Section::new() }
    }

    /// Filter a signal in place.
    pub fn filter(&mut self, signal: &mut [Word16])
        ensures
            final(signal)@ == sectioned(old(self).memory, high_pass_50(), 1, old(signal)@),
            final(self).memory == section_after(
                old(self).memory,
                high_pass_50(),
                old(signal)@,
                old(signal)@.len() as int,
            ),
    {
        let taps = SectionTaps { b0: 4053, b1: -8106, b2: 4053, a1: 16211, a2: -8021, shift: 2 };
        self.memory.filter(taps, 1, signal);
    }
}

// ---------------------------------------------------------------------------
// Double-precision synthesis
// ---------------------------------------------------------------------------

/// The synthesis filter's memory: sixteen double-precision samples.
#[derive(Clone, Copy, Debug, PartialEq, Eq)]
pub struct SynthesisFilter {
    /// Upper sixteen bits.
    pub high: [Word16; LP_ORDER],
    /// The twelve bits below them.
    pub low: [Word16; LP_ORDER],
}

/// A run of `n` products of a predictor with the samples before `at`,
/// subtracted from an accumulator.
pub open spec fn feedback(seed: Word32, a: Seq<Word16>, y: Seq<Word16>, at: int, n: int) -> Word32
    decreases n,
{
    if n <= 0 {
        seed
    } else {
        l_msu(feedback(seed, a, y, at, n - 1), y[at - n], a[n])
    }
}

/// The synthesis sum of one sample, from the upper and lower samples so far.
#[verifier::opaque]
pub open spec fn synthesis_sum(
    a: Seq<Word16>,
    x: Word16,
    q_new: i16,
    high: Seq<Word16>,
    low: Seq<Word16>,
) -> Word32 {
    let at = high.len() as int;
    let headroom = sub_s(Word16(norm_s(a[0])), Word16(2));
    let a0 = shr(a[0], add_s(Word16(4), Word16(q_new)).0);
    let start = l_mac(l_shr(feedback(Word32(0), a, low, at, 16), 12), x, a0);
    l_shl(feedback(start, a, high, at, 16), add_s(Word16(3), headroom).0)
}

/// The lower part of a synthesised sample.
pub open spec fn low_part(sum: Word32) -> Word16 {
    extract_l(l_msu(l_shr(sum, 4), extract_h(sum), Word16(2048)))
}

/// The memory and the first `n` synthesised samples, upper and lower parts.
pub open spec fn synthesis_run(
    high: Seq<Word16>,
    low: Seq<Word16>,
    a: Seq<Word16>,
    x: Seq<Word16>,
    q_new: i16,
    n: int,
) -> (Seq<Word16>, Seq<Word16>)
    decreases n,
{
    if n <= 0 {
        (high, low)
    } else {
        let (h, l) = synthesis_run(high, low, a, x, q_new, n - 1);
        let sum = synthesis_sum(a, x[n - 1], q_new, h, l);
        (h.push(extract_h(sum)), l.push(low_part(sum)))
    }
}

/// Subtract a run of products from an accumulator.
fn subtract_products(seed: Word32, a: &[Word16; 17], y: &[Word16; 80], at: usize) -> (acc: Word32)
    requires
        16 <= at < 80,
    ensures
        acc == feedback(seed, a@, y@, at as int, 16),
{
    let mut acc = seed;
    for j in 1..17usize
        invariant
            16 <= at < 80,
            acc == feedback(seed, a@, y@, at as int, j - 1),
    {
        acc = l_msu(acc, y[at - j], a[j]);
    }
    acc
}

/// A run of products reads only the samples before it.
pub proof fn lemma_feedback_prefix(
    seed: Word32,
    a: Seq<Word16>,
    y: Seq<Word16>,
    z: Seq<Word16>,
    at: int,
    n: int,
)
    requires
        0 <= n <= at <= z.len(),
        at <= y.len(),
        forall|i: int| 0 <= i < at ==> #[trigger] y[i] == z[i],
    ensures
        feedback(seed, a, y, at, n) == feedback(seed, a, z, at, n),
    decreases n,
{
    if n > 0 {
        lemma_feedback_prefix(seed, a, y, z, at, n - 1);
        assert(y[at - n] == z[at - n]);
    }
}

impl SynthesisFilter {
    /// A filter with no history.
    #[must_use]
    pub fn new() -> (f: Self)
        ensures
            f.high@ == Seq::new(16, |i: int| Word16(0)),
            f.low@ == Seq::new(16, |i: int| Word16(0)),
    {
        let f = SynthesisFilter { high: [Word16(0); LP_ORDER], low: [Word16(0); LP_ORDER] };
        assert(f.high@ =~= Seq::new(16, |i: int| Word16(0)));
        assert(f.low@ =~= Seq::new(16, |i: int| Word16(0)));
        f
    }

    /// Synthesise one subframe.
    pub fn filter(&mut self, a: &[Word16; 17], x: &[Word16; L_SUBFR], q_new: i16) -> (r: (
        [Word16; L_SUBFR],
        [Word16; L_SUBFR],
    ))
        ensures
            ({
                let run = synthesis_run(old(self).high@, old(self).low@, a@, x@, q_new, 64);
                &&& r.0@ == run.0.subrange(16, 80)
                &&& r.1@ == run.1.subrange(16, 80)
                &&& final(self).high@ == run.0.subrange(64, 80)
                &&& final(self).low@ == run.1.subrange(64, 80)
            }),
    {
        let ghost start = *self;
        let mut high: [Word16; 80] = [Word16(0); 80];
        let mut low: [Word16; 80] = [Word16(0); 80];
        for i in 0..LP_ORDER
            invariant
                *self == start,
                forall|j: int| 0 <= j < i ==> #[trigger] high@[j] == start.high@[j],
                forall|j: int| 0 <= j < i ==> #[trigger] low@[j] == start.low@[j],
        {
            high[i] = self.high[i];
            low[i] = self.low[i];
        }
        let headroom = sub_s(Word16(norm_s(a[0])), Word16(2));
        let lift: i16 = add_s(Word16(3), headroom).0;
        let a0 = shr(a[0], add_s(Word16(4), Word16(q_new)).0);
        for i in 0..L_SUBFR
            invariant
                headroom == sub_s(Word16(norm_s(a@[0])), Word16(2)),
                lift == add_s(Word16(3), headroom).0,
                a0 == shr(a@[0], add_s(Word16(4), Word16(q_new)).0),
                synthesis_run(start.high@, start.low@, a@, x@, q_new, i as int).0.len() == 16 + i,
                synthesis_run(start.high@, start.low@, a@, x@, q_new, i as int).1.len() == 16 + i,
                forall|j: int|
                    0 <= j < 16 + i ==> #[trigger] high@[j] == synthesis_run(
                        start.high@,
                        start.low@,
                        a@,
                        x@,
                        q_new,
                        i as int,
                    ).0[j],
                forall|j: int|
                    0 <= j < 16 + i ==> #[trigger] low@[j] == synthesis_run(
                        start.high@,
                        start.low@,
                        a@,
                        x@,
                        q_new,
                        i as int,
                    ).1[j],
        {
            let ghost run = synthesis_run(start.high@, start.low@, a@, x@, q_new, i as int);
            let fine = subtract_products(Word32(0), a, &low, 16 + i);
            let begun = l_mac(l_shr(fine, 12), x[i], a0);
            let sum = l_shl(subtract_products(begun, a, &high, 16 + i), lift);
            proof {
                reveal(synthesis_sum);
                lemma_feedback_prefix(Word32(0), a@, low@, run.1, 16 + i, 16);
                lemma_feedback_prefix(begun, a@, high@, run.0, 16 + i, 16);
                assert(sum == synthesis_sum(a@, x@[i as int], q_new, run.0, run.1));
            }
            let top = extract_h(sum);
            high[16 + i] = top;
            low[16 + i] = extract_l(l_msu(l_shr(sum, 4), top, Word16(2048)));
        }
        let ghost run = synthesis_run(start.high@, start.low@, a@, x@, q_new, 64);
        let mut out_high: [Word16; L_SUBFR] = [Word16(0); L_SUBFR];
        let mut out_low: [Word16; L_SUBFR] = [Word16(0); L_SUBFR];
        for i in 0..L_SUBFR
            invariant
                forall|j: int| 0 <= j < i ==> #[trigger] out_high@[j] == high@[16 + j],
                forall|j: int| 0 <= j < i ==> #[trigger] out_low@[j] == low@[16 + j],
        {
            out_high[i] = high[16 + i];
            out_low[i] = low[16 + i];
        }
        for i in 0..LP_ORDER
            invariant
                forall|j: int| 0 <= j < i ==> #[trigger] self.high@[j] == high@[64 + j],
                forall|j: int| 0 <= j < i ==> #[trigger] self.low@[j] == low@[64 + j],
        {
            self.high[i] = high[64 + i];
            self.low[i] = low[64 + i];
        }
        assert(high@ =~= run.0);
        assert(low@ =~= run.1);
        assert(out_high@ =~= run.0.subrange(16, 80));
        assert(out_low@ =~= run.1.subrange(16, 80));
        assert(self.high@ =~= run.0.subrange(64, 80));
        assert(self.low@ =~= run.1.subrange(64, 80));
        (out_high, out_low)
    }
}

/// One de-emphasised sample from the double-precision one and the sample
/// before it.
#[verifier::opaque]
pub open spec fn deemphasised(hi: Word16, lo: Word16, fac: Word16, before: Word16) -> Word16 {
    let x = l_shl(l_mac(l_deposit_h(hi), lo, Word16(8)), 3);
    round(l_shl(l_mac(x, before, fac), 1))
}

/// De-emphasised sample `i`.
pub open spec fn deemphasis_at(
    high: Seq<Word16>,
    low: Seq<Word16>,
    fac: Word16,
    memory: Word16,
    i: int,
) -> Word16
    decreases i,
{
    let before = if i <= 0 {
        memory
    } else {
        deemphasis_at(high, low, fac, memory, i - 1)
    };
    deemphasised(high[i], low[i], fac, before)
}

/// A de-emphasised subframe.
pub open spec fn deemphasis_of(
    high: Seq<Word16>,
    low: Seq<Word16>,
    mu: i16,
    memory: Word16,
) -> Seq<Word16> {
    Seq::new(64, |i: int| deemphasis_at(high, low, shr(Word16(mu), 1), memory, i))
}

/// De-emphasise one subframe.
pub fn deemphasis(
    high: &[Word16; L_SUBFR],
    low: &[Word16; L_SUBFR],
    mu: i16,
    memory: &mut Word16,
) -> (y: [Word16; L_SUBFR])
    ensures
        y@ == deemphasis_of(high@, low@, mu, *old(memory)),
        *final(memory) == y@[63],
{
    let fac = shr(Word16(mu), 1);
    let mut y: [Word16; L_SUBFR] = [Word16(0); L_SUBFR];
    for i in 0..L_SUBFR
        invariant
            i == 0 ==> *memory == *old(memory),
            i > 0 ==> *memory == y@[i - 1],
            forall|j: int|
                0 <= j < i ==> #[trigger] y@[j] == deemphasis_at(
                    high@,
                    low@,
                    fac,
                    *old(memory),
                    j,
                ),
    {
        proof {
            reveal(deemphasised);
        }
        let x = l_shl(l_mac(l_deposit_h(high[i]), low[i], Word16(8)), 3);
        let sample = round(l_shl(l_mac(x, *memory, fac), 1));
        y[i] = sample;
        *memory = sample;
    }
    assert(y@ =~= deemphasis_of(high@, low@, mu, *old(memory)));
    y
}

// ---------------------------------------------------------------------------
// Single-precision synthesis
// ---------------------------------------------------------------------------

/// One sample of the single-precision synthesis filter, from the samples so
/// far.
#[verifier::opaque]
pub open spec fn synthesised_sample(a: Seq<Word16>, x: Word16, y: Seq<Word16>) -> Word16 {
    let sum = feedback(l_mult(x, shr(a[0], 1)), a, y, y.len() as int, a.len() - 1);
    round(l_shl(sum, (1 + norm_s(a[0])) as i16))
}

/// The memory and the first `n` samples of a synthesised signal.
pub open spec fn synthesised_run(
    a: Seq<Word16>,
    memory: Seq<Word16>,
    x: Seq<Word16>,
    n: int,
) -> Seq<Word16>
    decreases n,
{
    if n <= 0 {
        memory
    } else {
        let y = synthesised_run(a, memory, x, n - 1);
        y.push(synthesised_sample(a, x[n - 1], y))
    }
}

/// A signal through the single-precision synthesis filter.
pub open spec fn synthesised_signal(a: Seq<Word16>, memory: Seq<Word16>, x: Seq<Word16>) -> Seq<
    Word16,
> {
    synthesised_run(a, memory, x, x.len() as int).skip(memory.len() as int)
}

/// The filter's memory after a signal.
pub open spec fn synthesised_memory(a: Seq<Word16>, memory: Seq<Word16>, x: Seq<Word16>) -> Seq<
    Word16,
> {
    synthesised_run(a, memory, x, x.len() as int).skip(x.len() as int)
}

/// A run is as long as its memory and its samples.
pub proof fn lemma_synthesised_length(
    a: Seq<Word16>,
    memory: Seq<Word16>,
    x: Seq<Word16>,
    n: int,
)
    requires
        n >= 0,
    ensures
        synthesised_run(a, memory, x, n).len() == memory.len() + n,
    decreases n,
{
    if n > 0 {
        lemma_synthesised_length(a, memory, x, n - 1);
    }
}

/// Subtract a run of products of any order from an accumulator.
fn subtract_run(seed: Word32, a: &[Word16], y: &[Word16; 100], at: usize, m: usize) -> (acc: Word32)
    requires
        m + 1 == a.len(),
        m <= at <= 100,
    ensures
        acc == feedback(seed, a@, y@, at as int, m as int),
{
    let mut acc = seed;
    for j in 1..m + 1
        invariant
            m + 1 == a.len(),
            m <= at <= 100,
            acc == feedback(seed, a@, y@, at as int, j - 1),
    {
        acc = l_msu(acc, y[at - j], a[j]);
    }
    acc
}

/// The single-precision synthesis filter.
///
/// `memory` supplies as many samples of history as the predictor has taps
/// behind its first, and is written back only when `update` is set.
pub fn syn_filt(
    a: &[Word16],
    input: &[Word16],
    output: &mut [Word16],
    memory: &mut [Word16],
    update: bool,
)
    requires
        1 <= a.len() <= 21,
        old(memory).len() == a.len() - 1,
        input.len() <= 80,
        input.len() == old(output).len(),
    ensures
        final(output)@ == synthesised_signal(a@, old(memory)@, input@),
        final(memory)@ == if update {
            synthesised_memory(a@, old(memory)@, input@)
        } else {
            old(memory)@
        },
{
    let m: usize = a.len() - 1;
    let n: usize = input.len();
    let ghost start = memory@;
    let mut buffer: [Word16; 100] = [Word16(0); 100];
    for i in 0..m
        invariant
            m <= 20,
            m == memory@.len(),
            memory@ == start,
            forall|j: int| 0 <= j < i ==> #[trigger] buffer@[j] == start[j],
    {
        buffer[i] = memory[i];
    }
    proof {
        crate::fixed_point::lemma_norm_s(a@[0]);
    }
    let lift: i16 = 1 + norm_s(a[0]);
    // The input is halved, and one shift puts the result back.
    let a0 = shr(a[0], 1);
    for i in 0..n
        invariant
            m == a@.len() - 1,
            a.len() == m + 1,
            m <= 20,
            n == input@.len(),
            n <= 80,
            n == output@.len(),
            start.len() == m,
            memory@ == start,
            lift == 1 + norm_s(a@[0]),
            a0 == shr(a@[0], 1),
            synthesised_run(a@, start, input@, i as int).len() == m + i,
            forall|j: int|
                0 <= j < m + i ==> #[trigger] buffer@[j] == synthesised_run(
                    a@,
                    start,
                    input@,
                    i as int,
                )[j],
            forall|j: int| 0 <= j < i ==> #[trigger] output@[j] == buffer@[m + j],
    {
        let ghost run = synthesised_run(a@, start, input@, i as int);
        let seed = l_mult(input[i], a0);
        let sum = subtract_run(seed, a, &buffer, m + i, m);
        let filtered = round(l_shl(sum, lift));
        proof {
            reveal(synthesised_sample);
            lemma_feedback_prefix(seed, a@, buffer@, run, m + i, m as int);
            assert(filtered == synthesised_sample(a@, input@[i as int], run));
        }
        buffer[m + i] = filtered;
        output[i] = filtered;
    }
    let ghost run = synthesised_run(a@, start, input@, n as int);
    assert(output@ =~= run.skip(m as int));
    if update {
        for i in 0..m
            invariant
                m == memory@.len(),
                m <= 20,
                n <= 80,
                forall|j: int| 0 <= j < i ==> #[trigger] memory@[j] == buffer@[n + j],
        {
            memory[i] = buffer[n + i];
        }
        assert(memory@ =~= run.skip(n as int));
    }
}

// ---------------------------------------------------------------------------
// Laws
// ---------------------------------------------------------------------------

/// Synthesis takes each past sample out at the tap of its distance: where only
/// one of the last sixteen sounds, only its tap counts, and against it.
pub proof fn law_feedback_takes_the_past_out(
    seed: Word32,
    a: Seq<Word16>,
    y: Seq<Word16>,
    at: int,
    k: int,
    n: int,
)
    requires
        1 <= k,
        0 <= n,
        forall|i: int| at - n <= i < at && i != at - k ==> #[trigger] y[i] == Word16(0),
    ensures
        feedback(seed, a, y, at, n) == if k <= n {
            l_msu(seed, y[at - k], a[k])
        } else {
            seed
        },
    decreases n,
{
    if n > 0 {
        law_feedback_takes_the_past_out(seed, a, y, at, k, n - 1);
        if n != k {
            assert(y[at - n] == Word16(0));
            reveal(crate::fixed_point::spec_l_msu);
            reveal(crate::fixed_point::spec_l_sub);
            reveal(crate::fixed_point::spec_l_mult);
            let b = a[n];
            assert(0 * b.0 == 0) by (nonlinear_arith);
        }
    }
}

/// De-emphasis adds a share of the sample made before to each, to the nearest
/// unit, wherever nothing saturates: it undoes what pre-emphasis took out.
pub proof fn law_deemphasis_adds_the_past(hi: Word16, lo: Word16, fac: Word16, before: Word16)
    requires
        -4096 <= hi.0 <= 4095,
        0 <= lo.0 <= 4095,
        0 <= fac.0 <= 16384,
        -16384 <= before.0 <= 16383,
    ensures
        ({
            let sum = 2 * (8 * (65536 * hi.0 + 16 * lo.0) + 2 * (before.0 * fac.0));
            -0x8000_0000 <= sum <= 0x7fff_7fff ==> deemphasised(hi, lo, fac, before).0 == (sum
                + 32768) / 65536
        }),
{
    reveal(crate::fixed_point::spec_l_deposit_h);
    vstd::arithmetic::power2::lemma2_to64();
    let b = before.0 as int;
    let f = fac.0 as int;
    assert(-0x1000_0000 <= b * f <= 0x1000_0000) by (nonlinear_arith)
        requires
            -16384 <= b <= 16383,
            0 <= f <= 16384,
    ;
    lemma_l_mac(l_deposit_h(hi), lo, Word16(8));
    let x = l_mac(l_deposit_h(hi), lo, Word16(8));
    assert(x.0 == 65536 * hi.0 + 16 * lo.0);
    lemma_l_shl(x, 3, 8);
    assert(l_shl(x, 3).0 == 8 * x.0);
    lemma_l_mac(l_shl(x, 3), before, fac);
    let sum = l_mac(l_shl(x, 3), before, fac);
    let total = 8 * x.0 + 2 * (b * f);
    reveal(deemphasised);
    lemma_l_shl(sum, 1, 2);
    if -0x8000_0000 <= 2 * total <= 0x7fff_7fff {
        assert(sum.0 == total);
        assert(l_shl(sum, 1).0 == 2 * total);
        lemma_round(l_shl(sum, 1));
    }
}

/// A section whose direct taps add up to nothing gives nothing of a constant:
/// at rest on one it stays at rest.
pub proof fn law_high_passes_reject_constants(t: SectionTaps, x: Word16)
    requires
        t.b0 + t.b1 + t.b2 == 0,
        0 <= t.shift <= 3,
        -8192 <= x.0 <= 8191,
        -16384 <= t.b0 <= 16383,
        -16384 <= t.b1 <= 16383,
        -16384 <= t.b2 <= 16383,
    ensures
        ({
            let s = Section { x0: x, x1: x, ..silent_section() };
            &&& section_sum(s, t, x) == Word32(0)
            &&& section_next(s, t, x) == s
        }),
{
    reveal(section_sum);
    vstd::arithmetic::power2::lemma2_to64();
    let z = Word16(0);
    assert(0 * t.a1 == 0 && 0 * t.a2 == 0);
    lemma_l_mac(Word32(16384), z, Word16(t.a1));
    lemma_l_mac(Word32(16384), z, Word16(t.a2));
    lemma_l_shr(Word32(16384), 15, 32768);
    lemma_l_mac(Word32(0), z, Word16(t.a1));
    lemma_l_mac(Word32(0), z, Word16(t.a2));
    let v = x.0 as int;
    let p = t.b0 as int;
    let q = t.b1 as int;
    let r = t.b2 as int;
    assert(-0x0800_0000 <= v * p <= 0x0800_0000 && -0x0800_0000 <= v * q <= 0x0800_0000
        && -0x0800_0000 <= v * r <= 0x0800_0000 && v * p + v * q + v * r == 0) by (nonlinear_arith)
        requires
            -8192 <= v <= 8191,
            -16384 <= p <= 16383,
            -16384 <= q <= 16383,
            -16384 <= r <= 16383,
            p + q + r == 0,
    ;
    lemma_l_mac(Word32(0), x, Word16(t.b0));
    let a = l_mac(Word32(0), x, Word16(t.b0));
    lemma_l_mac(a, x, Word16(t.b1));
    let b = l_mac(a, x, Word16(t.b1));
    lemma_l_mac(b, x, Word16(t.b2));
    let k = vstd::arithmetic::power2::pow2(t.shift as nat) as int;
    lemma_l_shl(Word32(0), t.shift, k);
    assert(0 * k == 0);
    reveal(crate::fixed_point::spec_l_extract);
}

/// The 50 Hz high-pass is such a section.
pub proof fn law_constant_speech_is_removed(x: Word16)
    requires
        -8192 <= x.0 <= 8191,
    ensures
        ({
            let s = Section { x0: x, x1: x, ..silent_section() };
            &&& section_sum(s, high_pass_50(), x) == Word32(0)
            &&& section_next(s, high_pass_50(), x) == s
        }),
{
    law_high_passes_reject_constants(high_pass_50(), x);
}

/// The two parts of a synthesised sample hold its sum but for the lowest four
/// bits.
pub proof fn law_parts_hold_the_sum(sum: Word32)
    ensures
        ({
            let held = 65536 * extract_h(sum).0 + 16 * low_part(sum).0;
            &&& held <= sum.0 < held + 16
            &&& 0 <= low_part(sum).0 < 4096
        }),
{
    vstd::arithmetic::power2::lemma2_to64();
    reveal(crate::fixed_point::spec_extract_h);
    reveal(crate::fixed_point::spec_extract_l);
    lemma_l_shr(sum, 4, 16);
    lemma_l_mac(l_shr(sum, 4), extract_h(sum), Word16(2048));
    let y = sum.0 as int;
    assert(0 <= y / 16 - 4096 * (y / 65536) < 4096);
}

} // verus!
