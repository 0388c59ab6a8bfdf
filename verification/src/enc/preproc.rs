//! Input conditioning: 16 kHz to 12.8 kHz, a 50 Hz high-pass, pre-emphasis,
//! and the adaptive scaling that every later stage inherits.

use vstd::prelude::*;
use crate::fixed_point::{
    extract_h, l_abs, l_mac, l_msu, l_mult, l_shl, lemma_l_mac, lemma_norm_s, lemma_normalised_s,
    norm_s, round, shr, sub_s, Word16, Word32,
};
use crate::synthesis::{
    high_pass_50, section_after, sectioned, silent_section, HighPass50, Section, PREEMPH_FAC,
};

verus! {

/// Input frame at 16 kHz: 20 ms.
pub const L_FRAME16K: usize = 320;

/// Internal frame at 12.8 kHz.
pub const L_FRAME: usize = 256;

/// Group delay of the down-sampling filter, at 16 kHz.
pub const L_FILT16K: usize = 15;

/// Length of the synthesised tail, at 12.8 kHz.
pub const L_FILT: usize = 12;

/// Total internal speech buffer, which is also the analysis window.
pub const L_TOTAL: usize = 384;

/// Offset of the fresh speech within the total buffer.
pub const NEW_SPEECH: usize = 116;

/// Ceiling on the adaptive scaling exponent.
pub const Q_MAX: i16 = 8;

/// 4/5 in Q15, rounded up so that a product with it floors to the right
/// length.
pub const DOWN_FAC: i16 = 26215;

/// Decimation filter, Q14, as a bank of four phases read with stride 4.
pub const FIR_DOWN: [i16; 120] = [
    -1, -3, -6, -5, 0, 9, 19, 24, 18, 0, -26, -50, -58, -41, 0, 54, 99, 111, 77, 0, -95, -170,
    -188, -128, 0, 153, 270, 294, 198, 0, -233, -408, -441, -295, 0, 344, 601, 649, 434, 0, -507,
    -888, -964, -647, 0, 770, 1366, 1505, 1030, 0, -1293, -2379, -2746, -1997, 0, 3034, 6575,
    9894, 12254, 13107, 12254, 9894, 6575, 3034, 0, -1997, -2746, -2379, -1293, 0, 1030, 1505,
    1366, 770, 0, -647, -964, -888, -507, 0, 434, 649, 601, 344, 0, -295, -441, -408, -233, 0,
    198, 294, 270, 153, 0, -128, -188, -170, -95, 0, 77, 111, 99, 54, 0, -41, -58, -50, -26, 0,
    18, 24, 19, 9, 0, -5, -6, -3, -1, 0,
];

/// A sample without its two lowest bits.
pub open spec fn fourteen_bits(x: Word16) -> Word16 {
    Word16((x.0 - x.0 as int % 4) as i16)
}

/// Discard the two least significant bits of every sample: the codec is
/// specified for 14-bit input.
pub fn restrict_to_14_bit(frame: &mut [Word16])
    ensures
        final(frame)@ == Seq::new(old(frame)@.len(), |i: int| fourteen_bits(old(frame)@[i])),
{
    let n: usize = frame.len();
    for i in 0..n
        invariant
            n == frame@.len(),
            n == old(frame)@.len(),
            forall|j: int| 0 <= j < i ==> #[trigger] frame@[j] == fourteen_bits(old(frame)@[j]),
            forall|j: int| i <= j < n ==> #[trigger] frame@[j] == old(frame)@[j],
    {
        let x: i16 = frame[i].0;
        frame[i] = Word16(((x as i32 + 32768) / 4 * 4 - 32768) as i16);
    }
    assert(frame@ =~= Seq::new(old(frame)@.len(), |i: int| fourteen_bits(old(frame)@[i])));
}

/// The frame scaling chosen by [`Preprocessor::preemphasise`].
#[derive(Clone, Copy, Debug, PartialEq, Eq, Structural)]
pub struct Scaling {
    /// The left shift folded into this frame's pre-emphasis: the least of this
    /// frame's headroom and the previous two frames'.
    pub q_new: i16,
    /// How far the new frame moved relative to the last one.
    pub exp: i16,
}

// ---------------------------------------------------------------------------
// Decimation
// ---------------------------------------------------------------------------

/// The first `n` products of one output sample: the signal from `at`, with
/// phase `frac` of the bank.
pub open spec fn phase_sum(signal: Seq<Word16>, at: int, frac: int, n: int) -> Word32
    decreases n,
{
    if n <= 0 {
        Word32(0)
    } else {
        l_mac(
            phase_sum(signal, at, frac, n - 1),
            signal[at + n - 1],
            Word16(FIR_DOWN@[4 * (n - 1) + 3 - frac]),
        )
    }
}

/// Output sample `j`, from the carried input and the new input end to end.
pub open spec fn decimated_sample(signal: Seq<Word16>, j: int) -> Word16 {
    round(l_shl(phase_sum(signal, (5 * j) / 4 + 1, (5 * j) % 4, 30), 1))
}

/// How many samples an input of a length gives.
pub open spec fn decimated_length(lg: int) -> int {
    (lg * 26215) / 32768
}

/// A decimated signal.
pub open spec fn decimated(memory: Seq<Word16>, input: Seq<Word16>) -> Seq<Word16> {
    Seq::new(
        decimated_length(input.len() as int) as nat,
        |j: int| decimated_sample(memory + input, j),
    )
}

/// What the decimator carries after an input: the last thirty samples of the
/// carried and the new input end to end.
pub open spec fn carried(memory: Seq<Word16>, input: Seq<Word16>) -> Seq<Word16> {
    (memory + input).skip(input.len() as int)
}

/// The decimator from 16 kHz to 12.8 kHz.
#[derive(Clone, Copy, Debug)]
pub struct Decimator {
    /// The last thirty input samples.
    pub memory: [Word16; 30],
}

impl Default for Decimator {
    fn default() -> (d: Self)
        ensures
            d.memory@ == Seq::new(30, |i: int| Word16(0)),
    {
        Decimator::new()
    }
}

/// One output sample of the bank.
fn interpolate(signal: &[Word16; 350], at: usize, frac: usize) -> (y: Word16)
    requires
        at + 30 <= 350,
        frac < 4,
    ensures
        y == round(l_shl(phase_sum(signal@, at as int, frac as int, 30), 1)),
{
    let mut sum = Word32(0);
    for n in 0..30usize
        invariant
            at + 30 <= 350,
            frac < 4,
            sum == phase_sum(signal@, at as int, frac as int, n as int),
    {
        sum = l_mac(sum, signal[at + n], Word16(FIR_DOWN[4 * n + 3 - frac]));
    }
    round(l_shl(sum, 1))
}

/// The bank reads only what it spans.
proof fn lemma_phase_prefix(x: Seq<Word16>, y: Seq<Word16>, at: int, frac: int, n: int)
    requires
        0 <= n,
        forall|i: int| at <= i < at + n ==> #[trigger] x[i] == y[i],
    ensures
        phase_sum(x, at, frac, n) == phase_sum(y, at, frac, n),
    decreases n,
{
    if n > 0 {
        lemma_phase_prefix(x, y, at, frac, n - 1);
        assert(x[at + n - 1] == y[at + n - 1]);
    }
}

impl Decimator {
    /// A decimator with no history.
    #[must_use]
    pub fn new() -> (d: Self)
        ensures
            d.memory@ == Seq::new(30, |i: int| Word16(0)),
    {
        let d = Decimator { memory: [Word16(0); 30] };
        assert(d.memory@ =~= Seq::new(30, |i: int| Word16(0)));
        d
    }

    /// Decimate a signal of at most one frame into four fifths as many
    /// samples.
    pub fn decimate(&mut self, sig16k: &[Word16], out: &mut [Word16])
        requires
            sig16k.len() <= 320,
            old(out).len() == decimated_length(sig16k.len() as int),
        ensures
            final(out)@ == decimated(old(self).memory@, sig16k@),
            final(self).memory@ == carried(old(self).memory@, sig16k@),
    {
        let lg: usize = sig16k.len();
        let n_out: usize = out.len();
        let ghost whole = self.memory@ + sig16k@;
        let mut signal: [Word16; 350] = [Word16(0); 350];
        for i in 0..30usize
            invariant
                self.memory@ == old(self).memory@,
                forall|j: int| 0 <= j < i ==> #[trigger] signal@[j] == self.memory@[j],
        {
            signal[i] = self.memory[i];
        }
        for i in 0..lg
            invariant
                lg == sig16k@.len(),
                lg <= 320,
                self.memory@ == old(self).memory@,
                forall|j: int| 0 <= j < 30 ==> #[trigger] signal@[j] == self.memory@[j],
                forall|j: int| 30 <= j < 30 + i ==> #[trigger] signal@[j] == sig16k@[j - 30],
        {
            signal[30 + i] = sig16k[i];
        }
        assert forall|j: int| 0 <= j < 30 + lg implies #[trigger] signal@[j] == whole[j] by {}
        for j in 0..n_out
            invariant
                lg == sig16k@.len(),
                lg <= 320,
                n_out == out@.len(),
                n_out == (lg * 26215) / 32768,
                whole.len() == 30 + lg,
                forall|i: int| 0 <= i < 30 + lg ==> #[trigger] signal@[i] == whole[i],
                forall|i: int| 0 <= i < j ==> #[trigger] out@[i] == decimated_sample(whole, i),
        {
            let at: usize = 5 * j / 4 + 1;
            let frac: usize = (5 * j) % 4;
            proof {
                assert(at + 30 <= 30 + lg);
                lemma_phase_prefix(signal@, whole, at as int, frac as int, 30);
            }
            out[j] = interpolate(&signal, at, frac);
        }
        for i in 0..30usize
            invariant
                lg <= 320,
                forall|j: int| 0 <= j < i ==> #[trigger] self.memory@[j] == signal@[lg + j],
        {
            self.memory[i] = signal[lg + i];
        }
        assert(out@ =~= decimated(old(self).memory@, sig16k@));
        assert(self.memory@ =~= carried(old(self).memory@, sig16k@));
    }
}

// ---------------------------------------------------------------------------
// Pre-emphasis and scaling
// ---------------------------------------------------------------------------

/// The state of the input conditioning as plain values.
pub struct PreprocessorView {
    /// The decimator's thirty samples.
    pub decimator: Seq<Word16>,
    /// The high-pass.
    pub highpass: Section,
    /// The last real input sample of the previous frame, unscaled.
    pub preemph_memory: Word16,
    /// The scaling the previous frame settled on.
    pub q_old: i16,
    /// The headroom of the previous two frames, most recent first.
    pub q_max: (i16, i16),
}

/// The state out of reset. The scalings start above their ceiling, so that
/// history does not constrain the first frame.
pub open spec fn preprocessor_reset() -> PreprocessorView {
    PreprocessorView {
        decimator: Seq::new(30, |i: int| Word16(0)),
        highpass: silent_section(),
        preemph_memory: Word16(0),
        q_old: 15,
        q_max: (15, 15),
    }
}

/// The invariant: scalings stay between none and their reset value.
pub open spec fn preprocessor_inv(v: PreprocessorView) -> bool {
    &&& v.decimator.len() == 30
    &&& 0 <= v.q_old <= 15
    &&& 0 <= v.q_max.0 <= 15
    &&& 0 <= v.q_max.1 <= 15
}

/// The fifteen silent samples that stand in for input not seen yet.
pub open spec fn silence() -> Seq<Word16> {
    Seq::new(15, |i: int| Word16(0))
}

/// A frame decimated and high-passed.
pub open spec fn banded_frame(v: PreprocessorView, input: Seq<Word16>) -> Seq<Word16> {
    sectioned(v.highpass, high_pass_50(), 1, decimated(v.decimator, input))
}

/// The high-pass after a frame.
pub open spec fn highpass_after(v: PreprocessorView, input: Seq<Word16>) -> Section {
    section_after(v.highpass, high_pass_50(), decimated(v.decimator, input), 256)
}

/// What the next fifteen input samples would give if they were silent.
pub open spec fn banded_tail(v: PreprocessorView, input: Seq<Word16>) -> Seq<Word16> {
    sectioned(
        highpass_after(v, input),
        high_pass_50(),
        1,
        decimated(carried(v.decimator, input), silence()),
    )
}

/// The state after a frame has been decimated: the tail leaves no trace.
pub open spec fn banded(v: PreprocessorView, input: Seq<Word16>) -> PreprocessorView {
    PreprocessorView {
        decimator: carried(v.decimator, input),
        highpass: highpass_after(v, input),
        ..v
    }
}

/// The pre-emphasised sum of sample `i`.
pub open spec fn emphasis_sum(x: Seq<Word16>, memory: Word16, i: int) -> Word32 {
    let before = if i == 0 {
        memory
    } else {
        x[i - 1]
    };
    l_msu(l_mult(x[i], Word16(16384)), before, shr(Word16(PREEMPH_FAC), 1))
}

/// The largest magnitude among the first `n` pre-emphasised sums.
pub open spec fn peak_sum(x: Seq<Word16>, memory: Word16, n: int) -> Word32
    decreases n,
{
    if n <= 1 {
        l_abs(emphasis_sum(x, memory, 0))
    } else {
        let before = peak_sum(x, memory, n - 1);
        let here = l_abs(emphasis_sum(x, memory, n - 1));
        if here.0 > before.0 {
            here
        } else {
            before
        }
    }
}

/// The headroom of a frame and its tail, as a left shift.
pub open spec fn headroom_of(x: Seq<Word16>, memory: Word16) -> i16 {
    let top = extract_h(peak_sum(x, memory, 268));
    if top.0 == 0 {
        Q_MAX
    } else {
        let shift = sub_s(Word16(norm_s(top)), Word16(1)).0;
        if shift < 0 {
            0
        } else if shift > Q_MAX {
            Q_MAX
        } else {
            shift
        }
    }
}

/// The lesser of two shifts.
pub open spec fn lesser(a: i16, b: i16) -> i16 {
    if b < a {
        b
    } else {
        a
    }
}

/// The scaling of a frame.
pub open spec fn scaling_of(v: PreprocessorView, x: Seq<Word16>) -> Scaling {
    let shift = headroom_of(x, v.preemph_memory);
    let q_new = lesser(lesser(shift, v.q_max.0), v.q_max.1);
    Scaling { q_new, exp: sub_s(Word16(q_new), Word16(v.q_old)).0 }
}

/// A frame and its tail, pre-emphasised and scaled.
pub open spec fn emphasised(v: PreprocessorView, x: Seq<Word16>) -> Seq<Word16> {
    Seq::new(
        268,
        |i: int| round(l_shl(emphasis_sum(x, v.preemph_memory, i), scaling_of(v, x).q_new)),
    )
}

/// The state after a frame has been pre-emphasised. What is remembered of the
/// headroom is the raw value, so the limiter cannot compound.
pub open spec fn after_emphasis(v: PreprocessorView, x: Seq<Word16>) -> PreprocessorView {
    PreprocessorView {
        preemph_memory: x[255],
        q_old: scaling_of(v, x).q_new,
        q_max: (headroom_of(x, v.preemph_memory), v.q_max.0),
        ..v
    }
}

/// Input conditioning and the adaptive frame scaling, with its carried state.
#[derive(Clone, Copy, Debug)]
pub struct Preprocessor {
    decimator: Decimator,
    highpass: HighPass50,
    preemph_memory: Word16,
    q_old: i16,
    q_max: [i16; 2],
}

impl Default for Preprocessor {
    fn default() -> (p: Self)
        ensures
            p.view() == preprocessor_reset(),
    {
        Preprocessor::new()
    }
}

impl Preprocessor {
    /// The state as plain values.
    pub closed spec fn view(&self) -> PreprocessorView {
        PreprocessorView {
            decimator: self.decimator.memory@,
            highpass: self.highpass.memory,
            preemph_memory: self.preemph_memory,
            q_old: self.q_old,
            q_max: (self.q_max@[0], self.q_max@[1]),
        }
    }

    /// A cold-start preprocessor.
    #[must_use]
    pub fn new() -> (p: Self)
        ensures
            p.view() == preprocessor_reset(),
    {
        Preprocessor {
            decimator: Decimator::new(),
            highpass: HighPass50::new(),
            preemph_memory: Word16(0),
            q_old: 15,
            q_max: [15, 15],
        }
    }

    /// Decimate one 16 kHz frame to 12.8 kHz and high-pass it at 50 Hz.
    ///
    /// `new_speech` receives 256 real samples and then a tail of twelve: what
    /// the next fifteen input samples would give if they were silence. Both
    /// filters run over the tail from a copy of their state.
    pub fn band_limit(&mut self, speech16k: &[Word16; L_FRAME16K], new_speech: &mut [Word16])
        requires
            old(new_speech).len() == 268,
        ensures
            final(new_speech)@ == banded_frame(old(self).view(), speech16k@) + banded_tail(
                old(self).view(),
                speech16k@,
            ),
            final(self).view() == banded(old(self).view(), speech16k@),
    {
        let ghost v = self.view();
        let mut frame: [Word16; L_FRAME] = [Word16(0); L_FRAME];
        let mut tail: [Word16; L_FILT] = [Word16(0); L_FILT];
        self.decimator.decimate(speech16k, &mut frame);
        let mut tail_decimator = self.decimator;
        let quiet: [Word16; L_FILT16K] = [Word16(0); L_FILT16K];
        assert(quiet@ =~= silence());
        tail_decimator.decimate(&quiet, &mut tail);
        self.highpass.filter(&mut frame);
        let mut tail_highpass = self.highpass;
        tail_highpass.filter(&mut tail);
        for i in 0..L_FRAME
            invariant
                new_speech@.len() == 268,
                forall|j: int| 0 <= j < i ==> #[trigger] new_speech@[j] == frame@[j],
        {
            new_speech[i] = frame[i];
        }
        for i in 0..L_FILT
            invariant
                new_speech@.len() == 268,
                forall|j: int| 0 <= j < 256 ==> #[trigger] new_speech@[j] == frame@[j],
                forall|j: int| 256 <= j < 256 + i ==> #[trigger] new_speech@[j] == tail@[j - 256],
        {
            new_speech[L_FRAME + i] = tail[i];
        }
        assert(frame@ == banded_frame(v, speech16k@));
        assert(tail@ == banded_tail(v, speech16k@));
        assert(new_speech@ =~= banded_frame(v, speech16k@) + banded_tail(v, speech16k@));
    }

    /// The headroom of the frame once pre-emphasised, as a left shift.
    ///
    /// One bit is given away, because later stages add gain; silence takes the
    /// ceiling.
    fn headroom(&self, new_speech: &[Word16], mu: Word16) -> (shift: i16)
        requires
            new_speech.len() == 268,
            mu == shr(Word16(PREEMPH_FAC), 1),
        ensures
            shift == headroom_of(new_speech@, self.view().preemph_memory),
    {
        let mut peak = l_abs(
            l_msu(l_mult(new_speech[0], Word16(16384)), self.preemph_memory, mu),
        );
        for i in 1..L_FRAME + L_FILT
            invariant
                new_speech.len() == 268,
                mu == shr(Word16(PREEMPH_FAC), 1),
                peak == peak_sum(new_speech@, self.preemph_memory, i as int),
        {
            let magnitude = l_abs(
                l_msu(l_mult(new_speech[i], Word16(16384)), new_speech[i - 1], mu),
            );
            if magnitude.0 > peak.0 {
                peak = magnitude;
            }
        }
        let top = extract_h(peak);
        if top.0 == 0 {
            Q_MAX
        } else {
            let shift: i16 = sub_s(Word16(norm_s(top)), Word16(1)).0;
            if shift < 0 {
                0
            } else if shift > Q_MAX {
                Q_MAX
            } else {
                shift
            }
        }
    }

    /// Pre-emphasise a frame and its tail in place, folding in the frame's
    /// adaptive left shift.
    pub fn preemphasise(&mut self, new_speech: &mut [Word16]) -> (scaling: Scaling)
        requires
            old(new_speech).len() == 268,
        ensures
            scaling == scaling_of(old(self).view(), old(new_speech)@),
            final(new_speech)@ == emphasised(old(self).view(), old(new_speech)@),
            final(self).view() == after_emphasis(old(self).view(), old(new_speech)@),
    {
        let ghost v = self.view();
        let ghost x = new_speech@;
        // The filter runs at half scale.
        let mu = shr(Word16(PREEMPH_FAC), 1);
        let shift: i16 = self.headroom(new_speech, mu);
        let limited: i16 = if self.q_max[0] < shift {
            self.q_max[0]
        } else {
            shift
        };
        let q_new: i16 = if self.q_max[1] < limited {
            self.q_max[1]
        } else {
            limited
        };
        let exp: i16 = sub_s(Word16(q_new), Word16(self.q_old)).0;
        self.q_old = q_new;
        self.q_max[1] = self.q_max[0];
        self.q_max[0] = shift;
        // The last real sample: next frame's speech continues from there.
        let memory = new_speech[L_FRAME - 1];
        // Downward, because each step reads the sample before it unfiltered.
        let mut i: usize = L_FRAME + L_FILT - 1;
        while i > 0
            invariant
                i <= 267,
                new_speech@.len() == 268,
                x.len() == 268,
                mu == shr(Word16(PREEMPH_FAC), 1),
                forall|j: int|
                    i < j < 268 ==> #[trigger] new_speech@[j] == round(
                        l_shl(emphasis_sum(x, v.preemph_memory, j), q_new),
                    ),
                forall|j: int| 0 <= j <= i ==> #[trigger] new_speech@[j] == x[j],
            decreases i,
        {
            let sum = l_msu(l_mult(new_speech[i], Word16(16384)), new_speech[i - 1], mu);
            new_speech[i] = round(l_shl(sum, q_new));
            i -= 1;
        }
        let sum = l_msu(l_mult(new_speech[0], Word16(16384)), self.preemph_memory, mu);
        new_speech[0] = round(l_shl(sum, q_new));
        self.preemph_memory = memory;
        assert(new_speech@ =~= emphasised(v, x));
        Scaling { q_new, exp }
    }
}

/// The scaling of a frame never exceeds its own headroom or the previous two
/// frames', and the carried exponent is exactly its change.
pub proof fn law_scaling_is_the_least_headroom(v: PreprocessorView, x: Seq<Word16>)
    requires
        preprocessor_inv(v),
    ensures
        preprocessor_inv(after_emphasis(v, x)),
        0 <= headroom_of(x, v.preemph_memory) <= Q_MAX,
        0 <= scaling_of(v, x).q_new <= Q_MAX,
        scaling_of(v, x).q_new <= v.q_max.0,
        scaling_of(v, x).q_new <= v.q_max.1,
        scaling_of(v, x).exp == scaling_of(v, x).q_new - v.q_old,
        after_emphasis(v, x).q_old == scaling_of(v, x).q_new,
{
    reveal(crate::fixed_point::spec_sub_s);
}

/// Decimating two inputs one after the other carries what decimating them at
/// once carries: the state is the last thirty samples, whatever the cut.
pub proof fn law_carry_is_the_recent_input(memory: Seq<Word16>, a: Seq<Word16>, b: Seq<Word16>)
    requires
        memory.len() == 30,
    ensures
        carried(carried(memory, a), b) == carried(memory, a + b),
{
    assert(carried(carried(memory, a), b) =~= carried(memory, a + b));
}

/// The products of the first `m` samples with the prototype, each weighted by
/// its distance from the centre alone: sample `k` is `4 * k - 5 * j - 60`
/// fifths of an output sample away from output `j`, and the prototype reaches
/// from -59 to 60.
pub open spec fn centred_sum(signal: Seq<Word16>, j: int, m: int) -> Word32
    decreases m,
{
    if m <= 0 {
        Word32(0)
    } else {
        let distance = 4 * (m - 1) - 5 * j - 60;
        if -59 <= distance <= 60 {
            l_mac(centred_sum(signal, j, m - 1), signal[m - 1], Word16(FIR_DOWN@[distance + 59]))
        } else {
            centred_sum(signal, j, m - 1)
        }
    }
}

/// Before the prototype's reach nothing is summed.
proof fn lemma_centred_start(signal: Seq<Word16>, j: int, m: int)
    requires
        m <= (5 * j) / 4 + 1,
    ensures
        centred_sum(signal, j, m) == Word32(0),
    decreases m,
{
    if m > 0 {
        lemma_centred_start(signal, j, m - 1);
    }
}

/// Inside it every sample is.
proof fn lemma_centred_phase(signal: Seq<Word16>, j: int, n: int)
    requires
        0 <= j,
        0 <= n <= 30,
    ensures
        centred_sum(signal, j, (5 * j) / 4 + 1 + n) == phase_sum(
            signal,
            (5 * j) / 4 + 1,
            (5 * j) % 4,
            n,
        ),
    decreases n,
{
    let at = (5 * j) / 4 + 1;
    if n > 0 {
        lemma_centred_phase(signal, j, n - 1);
        let distance = 4 * (at + n - 1) - 5 * j - 60;
        assert(distance + 59 == 4 * (n - 1) + 3 - (5 * j) % 4);
    } else {
        lemma_centred_start(signal, j, at);
    }
}

/// Behind it nothing is.
proof fn lemma_centred_end(signal: Seq<Word16>, j: int, m: int)
    requires
        0 <= j,
        (5 * j) / 4 + 31 <= m,
    ensures
        centred_sum(signal, j, m) == centred_sum(signal, j, (5 * j) / 4 + 31),
    decreases m,
{
    if m > (5 * j) / 4 + 31 {
        lemma_centred_end(signal, j, m - 1);
    }
}

/// Every output sample is the input through one prototype, centred at five
/// quarters of its number: what an input sample weighs depends on its distance
/// from that centre alone, whichever output sample it is.
pub proof fn law_decimation_is_one_prototype(memory: Seq<Word16>, input: Seq<Word16>, j: int)
    requires
        memory.len() == 30,
        input.len() <= 320,
        0 <= j < decimated_length(input.len() as int),
    ensures
        decimated(memory, input)[j] == round(
            l_shl(centred_sum(memory + input, j, 30 + input.len() as int), 1),
        ),
{
    let signal = memory + input;
    let lg = input.len() as int;
    assert(5 * j < 4 * lg);
    lemma_centred_phase(signal, j, 30);
    lemma_centred_end(signal, j, 30 + lg);
}

/// A product with silence adds nothing.
proof fn lemma_silent_product(acc: Word32, b: Word16)
    ensures
        l_mac(acc, Word16(0), b) == acc,
{
    reveal(crate::fixed_point::spec_l_mac);
    reveal(crate::fixed_point::spec_l_mult);
    reveal(crate::fixed_point::spec_l_add);
    assert(0 * b.0 == 0) by (nonlinear_arith);
}

/// What a lone sample at `at` leaves in the sum of output `j`.
proof fn lemma_lone_sum(signal: Seq<Word16>, at: int, j: int, m: int)
    requires
        0 <= at,
        m <= signal.len(),
        forall|k: int|
            0 <= k < signal.len() && k != at ==> #[trigger] signal[k] == Word16(0),
    ensures
        ({
            let distance = 4 * at - 5 * j - 60;
            centred_sum(signal, j, m) == if at < m && -59 <= distance <= 60 {
                l_mac(Word32(0), signal[at], Word16(FIR_DOWN@[distance + 59]))
            } else {
                Word32(0)
            }
        }),
    decreases m,
{
    if m > 0 {
        lemma_lone_sum(signal, at, j, m - 1);
        if m - 1 != at {
            assert(signal[m - 1] == Word16(0));
            lemma_silent_product(
                centred_sum(signal, j, m - 1),
                Word16(FIR_DOWN@[4 * (m - 1) - 5 * j - 1]),
            );
        }
    }
}

/// Two lone samples of equal size at equal distances from two output samples
/// leave equal outputs there, wherever they are.
pub proof fn law_equal_distances_weigh_alike(
    x: Seq<Word16>,
    at: int,
    j: int,
    y: Seq<Word16>,
    other_at: int,
    k: int,
)
    requires
        30 <= x.len() <= 350,
        30 <= y.len() <= 350,
        0 <= at < x.len(),
        0 <= other_at < y.len(),
        0 <= j < decimated_length(x.len() - 30),
        0 <= k < decimated_length(y.len() - 30),
        forall|i: int| 0 <= i < x.len() && i != at ==> #[trigger] x[i] == Word16(0),
        forall|i: int| 0 <= i < y.len() && i != other_at ==> #[trigger] y[i] == Word16(0),
        x[at] == y[other_at],
        4 * at - 5 * j == 4 * other_at - 5 * k,
    ensures
        decimated(x.take(30), x.skip(30))[j] == decimated(y.take(30), y.skip(30))[k],
{
    assert(x.take(30) + x.skip(30) =~= x);
    assert(y.take(30) + y.skip(30) =~= y);
    law_decimation_is_one_prototype(x.take(30), x.skip(30), j);
    law_decimation_is_one_prototype(y.take(30), y.skip(30), k);
    lemma_lone_sum(x, at, j, x.len() as int);
    lemma_lone_sum(y, other_at, k, y.len() as int);
}

/// Pre-emphasis takes 0.68 of the sample before out of each, exactly: at twice
/// the Q14 weight of the sample itself.
pub proof fn law_emphasis_takes_differences(x: Seq<Word16>, memory: Word16, i: int)
    requires
        0 <= i < x.len(),
    ensures
        emphasis_sum(x, memory, i).0 == 32768 * x[i].0 - 22282 * if i == 0 {
            memory.0
        } else {
            x[i - 1].0
        },
{
    reveal(crate::fixed_point::spec_shr);
    vstd::arithmetic::power2::lemma2_to64();
    assert(shr(Word16(PREEMPH_FAC), 1).0 == PREEMPH_FAC as int / 2);
    let before = if i == 0 {
        memory
    } else {
        x[i - 1]
    };
    lemma_l_mac(Word32(0), x[i], Word16(16384));
    assert(shr(Word16(PREEMPH_FAC), 1) == Word16(11141));
    lemma_l_mac(l_mult(x[i], Word16(16384)), before, Word16(11141));
}

/// A frame goes on where the last one ended: the sample before its first is the
/// last frame's last, and not one of the samples that stood in for input to
/// come.
pub proof fn law_emphasis_goes_on(v: PreprocessorView, x: Seq<Word16>, next: Seq<Word16>)
    requires
        x.len() == 268,
        next.len() == 268,
    ensures
        emphasis_sum(next, after_emphasis(v, x).preemph_memory, 0).0 == 32768 * next[0].0 - 22282
            * x[255].0,
        after_emphasis(v, x).q_max.1 == v.q_max.0,
{
    law_emphasis_takes_differences(next, after_emphasis(v, x).preemph_memory, 0);
}

proof fn lemma_peak_sum(x: Seq<Word16>, memory: Word16, n: int, i: int)
    requires
        1 <= n,
        0 <= i < n,
    ensures
        l_abs(emphasis_sum(x, memory, i)).0 <= peak_sum(x, memory, n).0,
        0 <= peak_sum(x, memory, n).0,
    decreases n,
{
    reveal(crate::fixed_point::spec_l_abs);
    if n > 1 {
        lemma_peak_sum(x, memory, n - 1, if i < n - 1 {
            i
        } else {
            0
        });
    }
}

/// The scaling is the least of the frame's headroom and the last two frames',
/// and no sample of the frame overflows in it.
pub proof fn law_scaling_leaves_headroom(v: PreprocessorView, x: Seq<Word16>, i: int)
    requires
        preprocessor_inv(v),
        0 <= i < 268,
        emphasis_sum(x, v.preemph_memory, i).0 > -0x8000_0000,
    ensures
        ({
            let q = scaling_of(v, x).q_new;
            let own = headroom_of(x, v.preemph_memory);
            let level = emphasis_sum(x, v.preemph_memory, i).0
                * vstd::arithmetic::power2::pow2(q as nat);
            &&& q <= own && q <= v.q_max.0 && q <= v.q_max.1
            &&& q == own || q == v.q_max.0 || q == v.q_max.1
            &&& 0 <= q <= Q_MAX
            &&& -0x7fff_ffff <= level <= 0x7fff_ffff
        }),
{
    lemma_peak_sum(x, v.preemph_memory, 268, i);
    reveal(crate::fixed_point::spec_l_abs);
    reveal(crate::fixed_point::spec_extract_h);
    reveal(crate::fixed_point::spec_sub_s);
    vstd::arithmetic::power2::lemma2_to64();
    let peak = peak_sum(x, v.preemph_memory, 268);
    let top = extract_h(peak);
    let s = emphasis_sum(x, v.preemph_memory, i).0 as int;
    assert(-peak.0 <= s <= peak.0);
    lemma_norm_s(top);
    let q = scaling_of(v, x).q_new;
    let w = vstd::arithmetic::power2::pow2(q as nat) as int;
    vstd::arithmetic::power2::lemma_pow2_pos(q as nat);
    if q == 0 {
        assert(s * 1 == s);
    } else if top.0 == 0 {
        if q < 8 {
            vstd::arithmetic::power2::lemma_pow2_strictly_increases(q as nat, 8);
        }
        assert(-0x7fff_ffff <= s * w <= 0x7fff_ffff) by (nonlinear_arith)
            requires
                -65536 < s < 65536,
                0 < w <= 256,
        ;
    } else {
        lemma_normalised_s(top);
        let n = norm_s(top);
        let p = vstd::arithmetic::power2::pow2(n as nat) as int;
        vstd::arithmetic::power2::lemma_pow2_unfold(n as nat);
        if q < n - 1 {
            vstd::arithmetic::power2::lemma_pow2_strictly_increases(q as nat, (n - 1) as nat);
        }
        let t = top.0 as int;
        assert(2 * w <= p);
        assert(-65536 * (t + 1) < s < 65536 * (t + 1));
        assert(-0x7fff_0000 <= s * w <= 0x7fff_0000) by (nonlinear_arith)
            requires
                -65536 * (t + 1) < s < 65536 * (t + 1),
                1 <= t,
                t * p <= 32767,
                0 < w,
                2 * w <= p,
        ;
    }
}

/// The input keeps its upper fourteen bits.
pub proof fn law_input_keeps_fourteen_bits(x: Word16)
    ensures
        x.0 - 3 <= fourteen_bits(x).0 <= x.0,
        fourteen_bits(x).0 % 4 == 0,
{
}

} // verus!
