//! The decoder's excitation history and its scaling, and the step from 12.8 to
//! 16 kHz.

use vstd::prelude::*;
use crate::conceal::L_SUBFR;
use crate::enc::high_band::{excitation_of, excited};
use crate::enc::subframe::with_block;
use crate::fixed_point::{abs_s, l_mac, l_mult, l_shl, lemma_l_shl, norm_s, round, Word16, Word32};
use crate::highband::L_SUBFR16K;
use crate::ltp::{low_pass, predict, predicted, smoothed_at};
use crate::math::{scale_sig, scaled_seq};

verus! {

/// Past samples that the adaptive codebook can reach.
pub const HISTORY: usize = 248;

/// The history, a subframe, and one sample that the low-pass reads ahead.
pub const BUFFER: usize = 313;

/// The highest scaling of the excitation.
pub const Q_MAX: i16 = 8;

// ---------------------------------------------------------------------------
// Excitation
// ---------------------------------------------------------------------------

/// The excitation as plain values.
pub struct ExcitationView {
    pub buffer: Seq<Word16>,
    /// The scaling that the buffer is in.
    pub q_old: i16,
    /// What each of the last four subframes left room for, newest first.
    pub room: Seq<i16>,
}

/// What every state keeps.
pub open spec fn excitation_inv(e: ExcitationView) -> bool {
    &&& e.buffer.len() == 313
    &&& e.room.len() == 4
    &&& 0 <= e.q_old <= 8
    &&& forall|i: int| 0 <= i < 4 ==> -1 <= #[trigger] e.room[i] <= 40
}

/// The state before anything was decoded.
pub open spec fn excitation_reset() -> ExcitationView {
    ExcitationView {
        buffer: Seq::new(313, |i: int| Word16(0)),
        q_old: 8,
        room: Seq::new(4, |i: int| 8i16),
    }
}

/// The least of the first `n`.
pub open spec fn least(s: Seq<i16>, n: int) -> i16
    decreases n,
{
    if n <= 1 {
        s[0]
    } else if s[n - 1] < least(s, n - 1) {
        s[n - 1]
    } else {
        least(s, n - 1)
    }
}

/// The scaling that the last four subframes leave room for.
pub open spec fn scaling_limit(room: Seq<i16>) -> int {
    if least(room, 4) > 8 {
        8
    } else {
        least(room, 4) as int
    }
}

/// How often a gain can be doubled before it reaches `0x0800_0000` or `limit`,
/// and what it is then; `n` doublings are done.
pub open spec fn doubled(gain: Word32, limit: int, n: int) -> (Word32, int)
    decreases limit - n,
{
    if gain.0 < 0x0800_0000 && n < limit {
        doubled(l_shl(gain, 1), limit, n + 1)
    } else {
        (gain, n)
    }
}

/// The scaling that a code gain puts the excitation in.
pub open spec fn next_scaling(e: ExcitationView, gain: Word32) -> i16 {
    doubled(gain, scaling_limit(e.room), 0).1 as i16
}

/// The code gain in that scaling.
pub open spec fn scaled_gain(e: ExcitationView, gain: Word32) -> Word16 {
    round(doubled(gain, scaling_limit(e.room), 0).0)
}

/// The buffer with the adaptive codebook's vector: the past at a lag, filtered
/// or not.
#[verifier::opaque]
pub open spec fn adapted(buffer: Seq<Word16>, lag: int, frac: int, filtered: bool) -> Seq<Word16> {
    let p = predicted(buffer, 248, lag, frac, 65);
    if filtered {
        with_block(p, 248, Seq::new(64, |i: int| smoothed_at(p, 248 + i)))
    } else {
        p
    }
}

/// The subframe in a buffer.
pub open spec fn current(buffer: Seq<Word16>) -> Seq<Word16> {
    buffer.subrange(248, 312)
}

/// The state in the scaling that a gain asks for.
pub open spec fn rescaled(e: ExcitationView, gain: Word32) -> ExcitationView {
    let q = next_scaling(e, gain);
    ExcitationView {
        buffer: scaled_seq(e.buffer, (q - e.q_old) as i16),
        q_old: q,
        room: e.room,
    }
}

/// The largest magnitude among the first `n`, one at least.
pub open spec fn peak(x: Seq<Word16>, n: int) -> Word16
    decreases n,
{
    if n <= 0 {
        Word16(1)
    } else if abs_s(x[n - 1]).0 > peak(x, n - 1).0 {
        abs_s(x[n - 1])
    } else {
        peak(x, n - 1)
    }
}

/// The state with the subframe's total: the adaptive part and the codeword at
/// their gains.
pub open spec fn totalled(
    e: ExcitationView,
    code: Seq<Word16>,
    gain_pit: Word16,
    gain_code: Word16,
) -> ExcitationView {
    let total = excitation_of(code, gain_code, current(e.buffer), gain_pit);
    ExcitationView {
        buffer: with_block(e.buffer, 248, total),
        q_old: e.q_old,
        room: seq![
            (norm_s(peak(total, 64)) + e.q_old - 1) as i16,
            e.room[0],
            e.room[1],
            e.room[2],
        ],
    }
}

/// The state with the subframe moved into the history.
pub open spec fn moved_on(e: ExcitationView) -> ExcitationView {
    ExcitationView {
        buffer: Seq::new(
            313,
            |i: int|
                if i < 249 {
                    e.buffer[i + 64]
                } else {
                    Word16(0)
                },
        ),
        ..e
    }
}

/// The excitation of the decoder.
#[derive(Debug, Clone, Copy)]
pub struct Excitation {
    buffer: [Word16; BUFFER],
    q_old: i16,
    room: [i16; 4],
}

impl Excitation {
    /// The state as plain values.
    pub closed spec fn view(&self) -> ExcitationView {
        ExcitationView { buffer: self.buffer@, q_old: self.q_old, room: self.room@ }
    }

    /// The invariant.
    pub open spec fn wf(&self) -> bool {
        excitation_inv(self@)
    }

    /// A silent history.
    #[must_use]
    pub fn new() -> (e: Self)
        ensures
            e.wf(),
            e@ == excitation_reset(),
    {
        let e = Excitation { buffer: [Word16(0); BUFFER], q_old: Q_MAX, room: [Q_MAX; 4] };
        assert(e@.buffer =~= excitation_reset().buffer);
        assert(e@.room =~= excitation_reset().room);
        e
    }

    /// Predict the subframe from the history.
    pub fn adapt(&mut self, lag: usize, frac: u8, filtered: bool)
        requires
            old(self).wf(),
            16 <= lag <= 231,
            frac <= 3,
        ensures
            final(self).wf(),
            final(self)@ == (ExcitationView {
                buffer: adapted(old(self)@.buffer, lag as int, frac as int, filtered),
                ..old(self)@
            }),
    {
        proof {
            reveal(adapted);
        }
        predict(&mut self.buffer, HISTORY, lag, frac, L_SUBFR + 1);
        if filtered {
            let ghost p = self.buffer@;
            let smoothed = low_pass(&self.buffer, HISTORY);
            self.write(&smoothed);
            assert(smoothed@ =~= Seq::new(64, |i: int| smoothed_at(p, 248 + i)));
        }
    }

    /// Replace the subframe.
    fn write(&mut self, block: &[Word16; L_SUBFR])
        ensures
            final(self)@ == (ExcitationView {
                buffer: with_block(old(self)@.buffer, 248, block@),
                ..old(self)@
            }),
    {
        for i in 0..L_SUBFR
            invariant
                self.q_old == old(self).q_old,
                self.room == old(self).room,
                forall|j: int|
                    0 <= j < 313 ==> #[trigger] self.buffer@[j] == if 248 <= j < 248 + i {
                        block@[j - 248]
                    } else {
                        old(self).buffer@[j]
                    },
        {
            self.buffer[HISTORY + i] = block[i];
        }
        assert(self.buffer@ =~= with_block(old(self)@.buffer, 248, block@));
    }

    /// The subframe.
    pub fn subframe(&self) -> (block: [Word16; L_SUBFR])
        ensures
            block@ == current(self@.buffer),
    {
        let mut block: [Word16; L_SUBFR] = [Word16(0); L_SUBFR];
        for i in 0..L_SUBFR
            invariant
                forall|j: int| 0 <= j < i ==> #[trigger] block@[j] == self.buffer@[248 + j],
        {
            block[i] = self.buffer[HISTORY + i];
        }
        assert(block@ =~= current(self@.buffer));
        block
    }

    /// Bring the whole buffer into the scaling that this subframe's code gain
    /// and the last four subframes allow, and return it with the scaled gain.
    pub fn rescale_to(&mut self, gain: Word32) -> (r: (i16, Word16))
        requires
            old(self).wf(),
        ensures
            final(self).wf(),
            final(self)@ == rescaled(old(self)@, gain),
            r.0 == next_scaling(old(self)@, gain),
            r.1 == scaled_gain(old(self)@, gain),
            0 <= r.0 <= 8,
    {
        let mut limit: i16 = self.room[0];
        for i in 1..4usize
            invariant
                self.wf(),
                -1 <= limit <= 40,
                limit == least(self.room@, i as int),
        {
            if self.room[i] < limit {
                limit = self.room[i];
            }
        }
        if limit > Q_MAX {
            limit = Q_MAX;
        }
        let mut lifted = gain;
        let mut q: i16 = 0;
        while lifted.0 < 0x0800_0000 && q < limit
            invariant
                -1 <= limit <= 8,
                0 <= q <= 8,
                doubled(lifted, limit as int, q as int) == doubled(gain, limit as int, 0),
            decreases limit - q,
        {
            lifted = l_shl(lifted, 1);
            q = q + 1;
        }
        let change: i16 = q - self.q_old;
        scale_sig(&mut self.buffer, change);
        self.q_old = q;
        (q, round(lifted))
    }

    /// Write the plain total into the subframe, and note what room it leaves.
    pub fn build(&mut self, code: &[Word16; L_SUBFR], gain_pit: Word16, gain_code: Word16)
        requires
            old(self).wf(),
        ensures
            final(self).wf(),
            final(self)@ == totalled(old(self)@, code@, gain_pit, gain_code),
    {
        let ghost before = self@;
        let adaptive = self.subframe();
        let mut total: [Word16; L_SUBFR] = [Word16(0); L_SUBFR];
        let mut top = Word16(1);
        for i in 0..L_SUBFR
            invariant
                forall|j: int|
                    0 <= j < i ==> #[trigger] total@[j] == excited(
                        code@[j],
                        gain_code,
                        adaptive@[j],
                        gain_pit,
                    ),
                top == peak(total@, i as int),
        {
            let acc = l_mac(l_shl(l_mult(code[i], gain_code), 5), adaptive[i], gain_pit);
            let ghost earlier = total@;
            total[i] = round(l_shl(acc, 1));
            proof {
                lemma_peak_prefix(earlier, total@, i as int);
            }
            let size = abs_s(total[i]);
            if size.0 > top.0 {
                top = size;
            }
        }
        assert(total@ =~= excitation_of(code@, gain_code, current(before.buffer), gain_pit));
        self.write(&total);
        let newest: i16 = norm_s(top) + self.q_old - 1;
        self.room = [newest, self.room[0], self.room[1], self.room[2]];
        assert(self@.room =~= totalled(before, code@, gain_pit, gain_code).room);
    }

    /// Move the subframe into the history.
    pub fn advance(&mut self)
        requires
            old(self).wf(),
        ensures
            final(self).wf(),
            final(self)@ == moved_on(old(self)@),
    {
        let ghost before = self@;
        let mut next: [Word16; BUFFER] = [Word16(0); BUFFER];
        for i in 0..249usize
            invariant
                forall|j: int| 0 <= j < i ==> #[trigger] next@[j] == self.buffer@[j + 64],
                forall|j: int| i <= j < 313 ==> #[trigger] next@[j] == Word16(0),
        {
            next[i] = self.buffer[i + L_SUBFR];
        }
        self.buffer = next;
        assert(self@.buffer =~= moved_on(before).buffer);
    }
}

/// A peak depends only on what it covers.
proof fn lemma_peak_prefix(x: Seq<Word16>, y: Seq<Word16>, n: int)
    requires
        0 <= n <= x.len(),
        n <= y.len(),
        forall|j: int| 0 <= j < n ==> #[trigger] x[j] == y[j],
    ensures
        peak(x, n) == peak(y, n),
    decreases n,
{
    if n > 0 {
        lemma_peak_prefix(x, y, n - 1);
    }
}

// ---------------------------------------------------------------------------
// 16 kHz
// ---------------------------------------------------------------------------

/// The interpolation at `n` taps of a phase.
pub open spec fn phase_sum(s: Seq<Word16>, taps: Seq<i16>, at: int, phase: int, n: int) -> Word32
    decreases n,
{
    if n <= 0 {
        Word32(0)
    } else {
        l_mac(
            phase_sum(s, taps, at, phase, n - 1),
            s[at + n - 1],
            Word16(taps[phase + 5 * (n - 1)]),
        )
    }
}

/// Output sample `j`: four fifths of a sample on for each, at one of five
/// phases.
#[verifier::opaque]
pub open spec fn upsampled_at(s: Seq<Word16>, taps: Seq<i16>, j: int) -> Word16 {
    round(l_shl(phase_sum(s, taps, 4 * j / 5 + 1, 4 - 4 * j % 5, 24), 1))
}

/// A subframe at 16 kHz.
pub open spec fn upsampled(memory: Seq<Word16>, taps: Seq<i16>, x: Seq<Word16>) -> Seq<Word16> {
    Seq::new(80, |j: int| upsampled_at(memory + x, taps, j))
}

/// Interpolation by five quarters.
#[derive(Debug, Clone, Copy)]
pub struct Upsampler {
    /// The last 24 samples at 12.8 kHz.
    pub memory: [Word16; 24],
}

impl Upsampler {
    /// An interpolator over silence.
    #[must_use]
    pub fn new() -> (u: Self)
        ensures
            u.memory@ == Seq::new(24, |i: int| Word16(0)),
    {
        let u = Upsampler { memory: [Word16(0); 24] };
        assert(u.memory@ =~= Seq::new(24, |i: int| Word16(0)));
        u
    }

    /// Bring a subframe to 16 kHz, with a filter of 24 taps for each of five
    /// phases, interleaved by phase.
    pub fn process(&mut self, taps: &[i16; 120], speech: &[Word16; L_SUBFR]) -> (out: [Word16;
        L_SUBFR16K])
        ensures
            out@ == upsampled(old(self).memory@, taps@, speech@),
            final(self).memory@ == speech@.skip(40),
    {
        let mut s: [Word16; 88] = [Word16(0); 88];
        for i in 0..88usize
            invariant
                forall|j: int|
                    0 <= j < i ==> #[trigger] s@[j] == (self.memory@ + speech@)[j],
        {
            s[i] = if i < 24 {
                self.memory[i]
            } else {
                speech[i - 24]
            };
        }
        assert(s@ =~= self.memory@ + speech@);
        let mut out: [Word16; L_SUBFR16K] = [Word16(0); L_SUBFR16K];
        for j in 0..L_SUBFR16K
            invariant
                forall|k: int| 0 <= k < j ==> #[trigger] out@[k] == upsampled_at(s@, taps@, k),
        {
            proof {
                reveal(upsampled_at);
            }
            let at: usize = 4 * j / 5 + 1;
            let phase: usize = 4 - 4 * j % 5;
            let mut acc = Word32(0);
            for n in 0..24usize
                invariant
                    at <= 64,
                    phase <= 4,
                    acc == phase_sum(s@, taps@, at as int, phase as int, n as int),
            {
                acc = l_mac(acc, s[at + n], Word16(taps[phase + 5 * n]));
            }
            out[j] = round(l_shl(acc, 1));
        }
        assert(out@ =~= upsampled(self.memory@, taps@, speech@));
        for i in 0..24usize
            invariant
                forall|j: int| 0 <= j < i ==> #[trigger] self.memory@[j] == speech@[40 + j],
        {
            self.memory[i] = speech[40 + i];
        }
        assert(self.memory@ =~= speech@.skip(40));
        out
    }
}

// ---------------------------------------------------------------------------
// Laws
// ---------------------------------------------------------------------------

/// The products of the first `m` samples with the interpolator's prototype,
/// each weighted by its distance from the centre alone: sample `k` is
/// `5 * k - 4 * j - 1` fifths on from where output `j` starts reading.
pub open spec fn centred_sum(s: Seq<Word16>, taps: Seq<i16>, j: int, m: int) -> Word32
    decreases m,
{
    if m <= 0 {
        Word32(0)
    } else {
        let distance = 5 * (m - 1) - 4 * j - 1;
        if 0 <= distance < 120 {
            l_mac(centred_sum(s, taps, j, m - 1), s[m - 1], Word16(taps[distance]))
        } else {
            centred_sum(s, taps, j, m - 1)
        }
    }
}

/// Before the prototype's reach nothing is summed.
proof fn lemma_centred_start(s: Seq<Word16>, taps: Seq<i16>, j: int, m: int)
    requires
        0 <= j,
        m <= 4 * j / 5 + 1,
    ensures
        centred_sum(s, taps, j, m) == Word32(0),
    decreases m,
{
    if m > 0 {
        lemma_centred_start(s, taps, j, m - 1);
    }
}

/// Inside it every sample is.
proof fn lemma_centred_phase(s: Seq<Word16>, taps: Seq<i16>, j: int, n: int)
    requires
        0 <= j,
        0 <= n <= 24,
    ensures
        centred_sum(s, taps, j, 4 * j / 5 + 1 + n) == phase_sum(
            s,
            taps,
            4 * j / 5 + 1,
            4 - 4 * j % 5,
            n,
        ),
    decreases n,
{
    if n > 0 {
        lemma_centred_phase(s, taps, j, n - 1);
        assert(5 * (4 * j / 5 + n) - 4 * j - 1 == 4 - 4 * j % 5 + 5 * (n - 1));
    } else {
        lemma_centred_start(s, taps, j, 4 * j / 5 + 1);
    }
}

/// Behind it nothing is.
proof fn lemma_centred_end(s: Seq<Word16>, taps: Seq<i16>, j: int, m: int)
    requires
        0 <= j,
        4 * j / 5 + 25 <= m,
    ensures
        centred_sum(s, taps, j, m) == centred_sum(s, taps, j, 4 * j / 5 + 25),
    decreases m,
{
    if m > 4 * j / 5 + 25 {
        lemma_centred_end(s, taps, j, m - 1);
    }
}

/// Every sample at 16 kHz is the low band through one prototype, centred four
/// fifths of a sample on from the one before: what a sample weighs depends on
/// its distance from that centre alone.
pub proof fn law_upsampling_is_one_prototype(
    memory: Seq<Word16>,
    taps: Seq<i16>,
    x: Seq<Word16>,
    j: int,
)
    requires
        memory.len() == 24,
        x.len() == 64,
        0 <= j < 80,
    ensures
        upsampled(memory, taps, x)[j] == round(
            l_shl(centred_sum(memory + x, taps, j, 88), 1),
        ),
{
    reveal(upsampled_at);
    let s = memory + x;
    let at = 4 * j / 5 + 1;
    lemma_centred_phase(s, taps, j, 24);
    lemma_centred_end(s, taps, j, 88);
    assert(at + 24 == 4 * j / 5 + 25);
    assert(centred_sum(s, taps, j, 88) == phase_sum(s, taps, at, 4 - 4 * j % 5, 24));
    assert(upsampled(memory, taps, x)[j] == upsampled_at(s, taps, j));
    assert(upsampled_at(s, taps, j) == round(l_shl(centred_sum(s, taps, j, 88), 1)));
}

/// What is heard next starts where this subframe ends: the history moves on by
/// one subframe and keeps its order.
pub proof fn law_history_moves_by_a_subframe(e: ExcitationView, i: int)
    requires
        e.buffer.len() == 313,
        0 <= i < 249,
    ensures
        moved_on(e).buffer[i] == e.buffer[i + 64],
        moved_on(e).q_old == e.q_old,
{
}

/// A total leaves the history alone and fills the subframe, and the newest
/// headroom comes first.
pub proof fn law_total_fills_the_subframe(
    e: ExcitationView,
    code: Seq<Word16>,
    gain_pit: Word16,
    gain_code: Word16,
    i: int,
)
    requires
        e.buffer.len() == 313,
        e.room.len() == 4,
        0 <= i < 313,
    ensures
        ({
            let t = totalled(e, code, gain_pit, gain_code);
            &&& t.room[1] == e.room[0] && t.room[2] == e.room[1] && t.room[3] == e.room[2]
            &&& t.buffer[i] == if 248 <= i < 312 {
                excited(code[i - 248], gain_code, e.buffer[i], gain_pit)
            } else {
                e.buffer[i]
            }
        }),
{
}

proof fn lemma_least(s: Seq<i16>, n: int, i: int)
    requires
        1 <= n,
        0 <= i < n,
    ensures
        least(s, n) <= s[i],
    decreases n,
{
    if n > 1 {
        lemma_least(s, n - 1, if i < n - 1 {
            i
        } else {
            0
        });
    }
}

proof fn lemma_doubled(gain: Word32, limit: int, n: int)
    requires
        0 <= gain.0,
        0 <= n,
    ensures
        ({
            let (g, m) = doubled(gain, limit, n);
            &&& n <= m
            &&& m <= limit || m == n
            &&& g.0 == gain.0 * vstd::arithmetic::power2::pow2((m - n) as nat)
            &&& m > n ==> g.0 < 0x1000_0000
        }),
    decreases limit - n,
{
    vstd::arithmetic::power2::lemma2_to64();
    if gain.0 < 0x0800_0000 && n < limit {
        lemma_l_shl(gain, 1, 2);
        let next = l_shl(gain, 1);
        assert(next.0 == 2 * gain.0);
        lemma_doubled(next, limit, n + 1);
        let m = doubled(gain, limit, n).1;
        vstd::arithmetic::power2::lemma_pow2_unfold((m - n) as nat);
        let p = vstd::arithmetic::power2::pow2((m - n - 1) as nat) as int;
        let v = gain.0 as int;
        assert((2 * v) * p == v * (2 * p)) by (nonlinear_arith);
    } else {
        assert(gain.0 * 1 == gain.0);
    }
}

/// The scaling never takes more room than any of the last four subframes left,
/// nor more than eight bits, and the gain is doubled exactly that often.
pub proof fn law_scaling_keeps_to_the_room(e: ExcitationView, gain: Word32, i: int)
    requires
        excitation_inv(e),
        0 <= gain.0,
        0 <= i < 4,
    ensures
        ({
            let q = next_scaling(e, gain);
            &&& 0 <= q <= 8
            &&& q > 0 ==> q <= e.room[i]
            &&& doubled(gain, scaling_limit(e.room), 0).0.0 == gain.0
                * vstd::arithmetic::power2::pow2(q as nat)
        }),
{
    lemma_least(e.room, 4, i);
    lemma_doubled(gain, scaling_limit(e.room), 0);
}

/// No sample of the total exceeds its peak.
pub proof fn law_peak_bounds_the_total(x: Seq<Word16>, n: int, i: int)
    requires
        0 <= i < n,
    ensures
        abs_s(x[i]).0 <= peak(x, n).0,
        1 <= peak(x, n).0,
    decreases n,
{
    reveal_with_fuel(peak, 2);
    if i < n - 1 {
        law_peak_bounds_the_total(x, n - 1, i);
    } else if n > 1 {
        law_peak_bounds_the_total(x, n - 1, 0);
    }
}

} // verus!
