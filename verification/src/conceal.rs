//! What a decoder does when a frame does not arrive intact.
//!
//! A **damaged** frame's payload arrived, but a checksum says some of it is
//! wrong: its pulses are still decoded, its lag and gains are rebuilt from
//! history. Of a **lost** frame nothing usable arrived: its innovation is noise
//! from the decoder's own generator.

use vstd::prelude::*;
use crate::fixed_point::{add_s, mult, shr, sub_s, DspContext, Word16};
use crate::noise::{drawn, next_seed, NoiseGenerator};
use crate::order::{ascending, lemma_ascending, sort5, within};

verus! {

/// Samples in a subframe.
pub const L_SUBFR: usize = 64;

/// The reset pitch lag, in samples at 12.8 kHz: mid-range, and what the
/// history holds before any frame has been decoded.
pub const RESET_LAG: i16 = 64;

/// The severity counter's ceiling. Beyond six consecutive losses there is
/// nothing left to attenuate.
pub const MAX_SEVERITY: i16 = 6;

/// How well a frame arrived.
#[derive(Clone, Copy, Debug, PartialEq, Eq, Structural)]
pub enum FrameQuality {
    /// Intact.
    Good,
    /// Damaged: the payload is there, some of it wrong.
    Bad,
    /// Lost: nothing usable arrived.
    Unusable,
}

// ---------------------------------------------------------------------------
// The lag history
// ---------------------------------------------------------------------------

/// The last five good subframes' pitch lags and gains.
pub struct HistoryView {
    /// Pitch lags, newest first.
    pub lags: Seq<i16>,
    /// Pitch gains of the same subframes, Q14, oldest first.
    pub gains: Seq<i16>,
    /// The most recent good lag.
    pub last_good: i16,
    /// The last sample of the jitter generator.
    pub jitter: Word16,
}

/// The history after a good subframe.
pub open spec fn pushed(h: HistoryView, lag: i16, gain: i16) -> HistoryView {
    HistoryView {
        lags: seq![lag, h.lags[0], h.lags[1], h.lags[2], h.lags[3]],
        gains: seq![h.gains[1], h.gains[2], h.gains[3], h.gains[4], gain],
        last_good: lag,
        ..h
    }
}

/// `lag` held inside a range.
pub open spec fn held(lag: i16, low: i16, high: i16) -> i16 {
    if lag > high {
        high
    } else if lag < low {
        low
    } else {
        lag
    }
}

/// A lag built from the history's three largest values, plus jitter spread
/// over the gap between the largest and the median.
pub open spec fn guessed(h: HistoryView) -> i16 {
    let s = ascending(h.lags);
    let gap = sub_s(Word16(s[4]), Word16(s[2]));
    let gap = if gap.0 > 40 {
        Word16(40)
    } else {
        gap
    };
    let jitter = mult(shr(gap, 1), next_seed(h.jitter));
    let upper = add_s(add_s(Word16(s[2]), Word16(s[3])), Word16(s[4]));
    add_s(mult(upper, Word16(10923)), jitter).0
}

/// Voiced throughout, and the contour barely moved.
pub open spec fn steady(h: HistoryView) -> bool {
    let s = ascending(h.lags);
    ascending(h.gains)[0] > 8192 && sub_s(Word16(s[4]), Word16(s[0])).0 < 10
}

/// The two most recent subframes were confidently voiced.
pub open spec fn recently_voiced(h: HistoryView) -> bool {
    h.gains[4] > 8192 && h.gains[3] > 8192
}

/// The mean of the lag history.
pub open spec fn mean_lag(h: HistoryView) -> i16 {
    let sum = add_s(
        add_s(
            add_s(
                add_s(add_s(Word16(0), Word16(h.lags[0])), Word16(h.lags[1])),
                Word16(h.lags[2]),
            ),
            Word16(h.lags[3]),
        ),
        Word16(h.lags[4]),
    );
    mult(sum, Word16(6554)).0
}

/// Whether a received lag sits where the last five did: within a steady
/// contour, near a confidently voiced one, or inside the history's own range.
pub open spec fn plausible(h: HistoryView, received: i16) -> bool {
    let s = ascending(h.lags);
    let (low, high) = (s[0], s[4]);
    let weakest = ascending(h.gains)[0];
    let spread = sub_s(Word16(high), Word16(low)).0;
    let inside = low < received < high;
    let gap = sub_s(Word16(received), Word16(h.lags[0])).0;
    ||| spread < 10 && received > sub_s(Word16(low), Word16(5)).0 && sub_s(
        Word16(received),
        Word16(high),
    ).0 < 5
    ||| recently_voiced(h) && -10 < gap < 10
    ||| weakest < 6554 && h.gains[4] == weakest && inside
    ||| spread < 70 && inside
    ||| received > mean_lag(h) && received < high
}

/// Whether a substitution draws from the jitter generator.
pub open spec fn draws(h: HistoryView, received: i16, lost: bool) -> bool {
    &&& lost || !plausible(h, received)
    &&& !steady(h)
    &&& !recently_voiced(h)
}

/// The lag for a subframe of a bad frame: a plausible received one, else what
/// a steady or recently voiced history held, else a guess, always inside the
/// range of the history.
pub open spec fn substituted(h: HistoryView, received: i16, lost: bool) -> i16 {
    let s = ascending(h.lags);
    if !lost && plausible(h, received) {
        received
    } else if lost && steady(h) {
        held(h.last_good, s[0], s[4])
    } else if steady(h) || recently_voiced(h) {
        held(h.lags[0], s[0], s[4])
    } else {
        held(guessed(h), s[0], s[4])
    }
}

/// The last five good subframes' pitch lags and gains.
#[derive(Debug, Clone)]
pub struct LagHistory {
    /// Pitch lags, **newest first**.
    lags: [i16; 5],
    /// Pitch gains of the same subframes, Q14, **oldest first**.
    gains: [i16; 5],
    /// The most recent good lag.
    last_good: i16,
    /// Jitter for a substituted lag.
    jitter: NoiseGenerator,
}

impl LagHistory {
    /// The history as plain values.
    pub closed spec fn view(&self) -> HistoryView {
        HistoryView {
            lags: self.lags@,
            gains: self.gains@,
            last_good: self.last_good,
            jitter: self.jitter.seed,
        }
    }

    /// A history seeded with the reset lag throughout.
    pub fn new() -> (h: Self)
        ensures
            h.view() == reset_history(),
    {
        let h = LagHistory {
            lags: [RESET_LAG; 5],
            gains: [0; 5],
            last_good: RESET_LAG,
            jitter: NoiseGenerator::new(),
        };
        assert(h.view().lags =~= reset_history().lags);
        assert(h.view().gains =~= reset_history().gains);
        h
    }

    /// Shift a good subframe in.
    pub fn push(&mut self, lag: i16, pitch_gain: i16)
        ensures
            final(self).view() == pushed(old(self).view(), lag, pitch_gain),
    {
        let ghost h = self.view();
        self.lags = [lag, self.lags[0], self.lags[1], self.lags[2], self.lags[3]];
        self.gains = [self.gains[1], self.gains[2], self.gains[3], self.gains[4], pitch_gain];
        self.last_good = lag;
        assert(self.view().lags =~= pushed(h, lag, pitch_gain).lags);
        assert(self.view().gains =~= pushed(h, lag, pitch_gain).gains);
    }

    /// A lag built from the history's three largest values, plus jitter.
    ///
    /// Biased high on purpose: halving a pitch period is a far worse error
    /// than doubling one. The jitter stops a long erasure from producing an
    /// exactly periodic buzz.
    fn weighted_guess(&mut self, sorted: &[i16; 5]) -> (lag: i16)
        requires
            sorted@ == ascending(old(self).view().lags),
        ensures
            lag == guessed(old(self).view()),
            final(self).view() == (HistoryView {
                jitter: next_seed(old(self).view().jitter),
                ..old(self).view()
            }),
    {
        let mut ctx = DspContext::new();
        let mut gap = sub_s(Word16(sorted[4]), Word16(sorted[2]));
        if gap.0 > 40 {
            gap = Word16(40);
        }
        let draw = self.jitter.next(&mut ctx);
        let jitter = mult(shr(gap, 1), draw);
        let upper = add_s(add_s(Word16(sorted[2]), Word16(sorted[3])), Word16(sorted[4]));
        add_s(mult(upper, Word16(10923)), jitter).0
    }

    /// Decide the lag for a subframe of a bad frame, Q0 samples.
    ///
    /// `received` is the lag the payload decoded to, which is meaningful when
    /// the frame is merely damaged and meaningless when it is lost. A damaged
    /// frame's lag index is usually intact, so the received value is replaced
    /// only when the history makes it implausible.
    pub fn substitute(&mut self, received: i16, lost: bool) -> (lag: i16)
        ensures
            lag == substituted(old(self).view(), received, lost),
            final(self).view() == (HistoryView {
                jitter: if draws(old(self).view(), received, lost) {
                    next_seed(old(self).view().jitter)
                } else {
                    old(self).view().jitter
                },
                ..old(self).view()
            }),
    {
        let ghost h = self.view();
        let sorted = sort5(&self.lags);
        let sorted_gains = sort5(&self.gains);
        let low: i16 = sorted[0];
        let high: i16 = sorted[4];
        let weakest: i16 = sorted_gains[0];
        let newest_gain: i16 = self.gains[4];
        let spread: i16 = sub_s(Word16(high), Word16(low)).0;
        let is_steady: bool = weakest > 8192 && spread < 10;
        let recent: bool = newest_gain > 8192 && self.gains[3] > 8192;
        if !lost {
            let inside: bool = received > low && received < high;
            let gap: i16 = sub_s(Word16(received), Word16(self.lags[0])).0;
            let mut sum = add_s(Word16(0), Word16(self.lags[0]));
            sum = add_s(sum, Word16(self.lags[1]));
            sum = add_s(sum, Word16(self.lags[2]));
            sum = add_s(sum, Word16(self.lags[3]));
            sum = add_s(sum, Word16(self.lags[4]));
            let mean: i16 = mult(sum, Word16(6554)).0;
            let keep: bool = (spread < 10 && received > sub_s(Word16(low), Word16(5)).0 && sub_s(
                Word16(received),
                Word16(high),
            ).0 < 5) || (recent && gap > -10 && gap < 10) || (weakest < 6554 && newest_gain
                == weakest && inside) || (spread < 70 && inside) || (received > mean && received
                < high);
            assert(keep == plausible(h, received));
            if keep {
                return received;
            }
        }
        let chosen: i16 = if lost && is_steady {
            self.last_good
        } else if is_steady || recent {
            self.lags[0]
        } else {
            self.weighted_guess(&sorted)
        };
        clamp(chosen, low, high)
    }
}

/// Hold a substituted lag inside the range the history actually visited.
fn clamp(lag: i16, min_lag: i16, max_lag: i16) -> (r: i16)
    ensures
        r == held(lag, min_lag, max_lag),
{
    if lag > max_lag {
        max_lag
    } else if lag < min_lag {
        min_lag
    } else {
        lag
    }
}

/// The history before anything was decoded.
pub open spec fn reset_history() -> HistoryView {
    HistoryView {
        lags: Seq::new(5, |i: int| RESET_LAG),
        gains: Seq::new(5, |i: int| 0i16),
        last_good: RESET_LAG,
        jitter: Word16(21845),
    }
}

// ---------------------------------------------------------------------------
// Erasure
// ---------------------------------------------------------------------------

/// Everything that concealment remembers.
pub struct ErasureView {
    /// Consecutive-erasure severity, 0 to 6.
    pub severity: i16,
    /// Whether the frame before the current one was bad.
    pub previous_bad: bool,
    /// Whether the current frame is bad.
    pub current_bad: bool,
    /// The lags and gains of good subframes.
    pub history: HistoryView,
    /// The last sample of the innovation generator.
    pub innovation: Word16,
}

/// The state at the opening of a frame: severity climbs by one to its ceiling
/// on a bad frame, and halves on a good one.
pub open spec fn begun(e: ErasureView, quality: FrameQuality) -> ErasureView {
    let bad = quality != FrameQuality::Good;
    ErasureView {
        previous_bad: e.current_bad,
        current_bad: bad,
        severity: if bad {
            if e.severity >= 6 {
                6
            } else {
                (e.severity + 1) as i16
            }
        } else {
            (e.severity as int / 2) as i16
        },
        ..e
    }
}

/// What every state keeps: severity is in range, and no lag is negative.
pub open spec fn erasure_inv(e: ErasureView) -> bool {
    &&& 0 <= e.severity <= 6
    &&& e.history.lags.len() == 5 && e.history.gains.len() == 5
    &&& within(e.history.lags, 0, 32767)
    &&& e.history.last_good >= 0
}

/// A received lag as a signed word; one that does not fit counts as the reset
/// lag.
pub open spec fn signed_lag(lag: u16) -> i16 {
    if lag > 32767 {
        RESET_LAG
    } else {
        lag as i16
    }
}

/// Everything the decoder must remember across frames in order to conceal one.
///
/// [`Self::begin_frame`] must be called once at the top of every frame, good
/// frames included: that is where the severity counter recovers.
#[derive(Debug, Clone)]
pub struct Erasure {
    severity: i16,
    previous_bad: bool,
    current_bad: bool,
    lags: LagHistory,
    innovation: NoiseGenerator,
}

impl Erasure {
    /// The state as plain values.
    pub closed spec fn view(&self) -> ErasureView {
        ErasureView {
            severity: self.severity,
            previous_bad: self.previous_bad,
            current_bad: self.current_bad,
            history: self.lags.view(),
            innovation: self.innovation.seed,
        }
    }

    /// The invariant.
    pub open spec fn wf(&self) -> bool {
        erasure_inv(self.view())
    }

    /// A decoder that has seen nothing yet.
    #[must_use]
    pub fn new() -> (e: Self)
        ensures
            e.wf(),
            e.view() == (ErasureView {
                severity: 0,
                previous_bad: false,
                current_bad: false,
                history: reset_history(),
                innovation: Word16(21845),
            }),
    {
        Erasure {
            severity: 0,
            previous_bad: false,
            current_bad: false,
            lags: LagHistory::new(),
            innovation: NoiseGenerator::new(),
        }
    }

    /// Open a frame: roll the previous frame's verdict forward and move the
    /// severity counter.
    ///
    /// Call once per frame, before any subframe work, whatever the quality.
    pub fn begin_frame(&mut self, quality: FrameQuality)
        requires
            old(self).wf(),
        ensures
            final(self).wf(),
            final(self).view() == begun(old(self).view(), quality),
    {
        self.previous_bad = self.current_bad;
        self.current_bad = quality != FrameQuality::Good;
        if self.current_bad {
            if self.severity >= MAX_SEVERITY {
                self.severity = MAX_SEVERITY;
            } else {
                self.severity = self.severity + 1;
            }
        } else {
            // Halved, not cleared: a single good frame inside a bad patch is
            // weak evidence that the channel recovered.
            self.severity = ((self.severity as u16) / 2) as i16;
        }
    }

    /// The severity counter, 0 to 6.
    #[must_use]
    pub fn severity(&self) -> (s: usize)
        requires
            self.wf(),
        ensures
            s == self.view().severity,
            s <= 6,
    {
        self.severity as usize
    }

    /// Whether the frame before this one was bad.
    #[must_use]
    pub fn previous_frame_was_bad(&self) -> (bad: bool)
        ensures
            bad == self.view().previous_bad,
    {
        self.previous_bad
    }

    /// The pitch lag and fraction to actually use for a subframe, Q0 samples at
    /// 12.8 kHz and quarters.
    ///
    /// On a good frame this returns what was received. Otherwise the fraction
    /// is dropped, and the lag is passed through [`LagHistory::substitute`].
    pub fn pitch_lag(
        &mut self,
        _ctx: &mut DspContext,
        lag: u16,
        frac: u8,
        quality: FrameQuality,
    ) -> (r: (u16, u8))
        requires
            old(self).wf(),
        ensures
            final(self).wf(),
            quality == FrameQuality::Good ==> r == (lag, frac) && final(self).view() == old(
                self,
            ).view(),
            quality != FrameQuality::Good ==> ({
                let h = old(self).view().history;
                let received = signed_lag(lag);
                let lost = quality == FrameQuality::Unusable;
                &&& r.0 == substituted(h, received, lost)
                &&& r.1 == 0
                &&& final(self).view() == (ErasureView {
                    history: HistoryView {
                        jitter: if draws(h, received, lost) {
                            next_seed(h.jitter)
                        } else {
                            h.jitter
                        },
                        ..h
                    },
                    ..old(self).view()
                })
            }),
    {
        if quality == FrameQuality::Good {
            return (lag, frac);
        }
        let received: i16 = if lag > 32767 {
            RESET_LAG
        } else {
            lag as i16
        };
        proof {
            lemma_substitute_range(self.lags.view(), received, quality == FrameQuality::Unusable);
        }
        let chosen: i16 = self.lags.substitute(received, quality == FrameQuality::Unusable);
        (chosen as u16, 0)
    }

    /// Record a subframe that decoded cleanly.
    ///
    /// Only good subframes enter the history: a concealed lag is this module's
    /// own guess, and feeding it back would let one erasure define the pitch
    /// contour for the next five.
    pub fn note_good_subframe(&mut self, lag: u16, pitch_gain: Word16)
        requires
            old(self).wf(),
        ensures
            final(self).wf(),
            final(self).view() == (ErasureView {
                history: pushed(old(self).view().history, signed_lag(lag), pitch_gain.0),
                ..old(self).view()
            }),
    {
        let lag: i16 = if lag > 32767 {
            RESET_LAG
        } else {
            lag as i16
        };
        self.lags.push(lag, pitch_gain.0);
    }

    /// A substituted innovation vector for a frame that carried no usable bits,
    /// Q9 like the algebraic codebook it replaces.
    #[must_use]
    pub fn lost_innovation(&mut self, ctx: &mut DspContext) -> (code: [Word16; L_SUBFR])
        ensures
            forall|i: int|
                0 <= i < 64 ==> #[trigger] code@[i] == shr(
                    drawn(old(self).view().innovation, i + 1),
                    3,
                ),
            final(self).view() == (ErasureView {
                innovation: drawn(old(self).view().innovation, 64),
                ..old(self).view()
            }),
    {
        let ghost seed = self.innovation.seed;
        let ghost e = self.view();
        let mut code: [Word16; L_SUBFR] = [Word16(0); L_SUBFR];
        for i in 0..L_SUBFR
            invariant
                self.innovation.seed == drawn(seed, i as int),
                self.view() == (ErasureView { innovation: self.innovation.seed, ..e }),
                forall|j: int| 0 <= j < i ==> #[trigger] code@[j] == shr(drawn(seed, j + 1), 3),
        {
            let sample = self.innovation.next(ctx);
            code[i] = shr(sample, 3);
        }
        code
    }
}

/// A substituted lag is the received one, kept because it is plausible, or
/// lies inside the range of the last five good lags: concealment invents no
/// pitch that was never spoken.
pub proof fn lemma_substitute_range(h: HistoryView, received: i16, lost: bool)
    requires
        h.lags.len() == 5,
    ensures
        ({
            let lag = substituted(h, received, lost);
            let s = ascending(h.lags);
            &&& s[0] <= s[4]
            &&& (!lost && lag == received) || s[0] <= lag <= s[4]
            &&& lost ==> s[0] <= lag <= s[4]
            &&& within(h.lags, 0, 32767) && received >= 0 ==> lag >= 0
        }),
{
    lemma_ascending(h.lags, 0, 32767);
}

/// A substituted lag of a lost frame lies between the smallest and the
/// largest of the last five good lags.
pub proof fn law_lost_lag_stays_in_history(h: HistoryView, received: i16, low: i16, high: i16)
    requires
        h.lags.len() == 5,
        within(h.lags, low, high),
    ensures
        low <= substituted(h, received, true) <= high,
{
    lemma_ascending(h.lags, low, high);
    lemma_substitute_range(h, received, true);
}

/// A steady voiced history holds its lag through a loss of any length: the
/// lag does not depend on what was received, nor on how often the jitter
/// generator was drawn from.
pub proof fn law_steady_history_holds_its_lag(h: HistoryView, received: i16, jitter: Word16)
    requires
        h.lags.len() == 5,
        h.last_good == h.lags[0],
        steady(h),
    ensures
        substituted(HistoryView { jitter, ..h }, received, true) == h.last_good,
{
    let after = HistoryView { jitter, ..h };
    assert(steady(after));
    lemma_ascending(h.lags, 0, 0);
    let s = ascending(h.lags);
    let y = choose|y: int| 0 <= y < 5 && #[trigger] s[y] == h.lags[0];
    assert(s[0] <= s[y] <= s[4]);
}

/// A good frame halves the severity that losses built up; four losses take
/// three good frames to forget.
pub proof fn law_severity_recovers_by_halves(e: ErasureView)
    requires
        erasure_inv(e),
    ensures
        begun(e, FrameQuality::Good).severity == e.severity as int / 2,
        begun(begun(begun(e, FrameQuality::Good), FrameQuality::Good), FrameQuality::Good).severity
            == 0,
        begun(e, FrameQuality::Bad).severity == begun(e, FrameQuality::Unusable).severity,
        e.severity < begun(e, FrameQuality::Bad).severity || e.severity == 6,
{
}

/// Drawing an innovation does not move the lag generator.
pub proof fn law_generators_are_independent(e: ErasureView, n: int, received: i16, lost: bool)
    ensures
        ({
            let after = ErasureView { innovation: drawn(e.innovation, n), ..e };
            substituted(after.history, received, lost) == substituted(e.history, received, lost)
        }),
{
}

/// The newest lag of a history lies inside its range.
proof fn lemma_newest_in_range(h: HistoryView)
    requires
        h.lags.len() == 5,
    ensures
        ascending(h.lags)[0] <= h.lags[0] <= ascending(h.lags)[4],
{
    lemma_ascending(h.lags, 0, 0);
    let s = ascending(h.lags);
    let y = choose|y: int| 0 <= y < 5 && #[trigger] s[y] == h.lags[0];
    assert(s[0] <= s[y] <= s[4]);
}

/// Behind two confidently voiced subframes the lag of the newer one is
/// repeated, whatever came before them: for a lost frame always, and for a
/// damaged one wherever its own lag is not believed.
pub proof fn law_voiced_loss_repeats_the_newest_lag(
    h: HistoryView,
    older: i16,
    older_gain: i16,
    newest: i16,
    newest_gain: i16,
    received: i16,
)
    requires
        h.lags.len() == 5,
        h.gains.len() == 5,
        older_gain > 8192,
        newest_gain > 8192,
    ensures
        ({
            let after = pushed(pushed(h, older, older_gain), newest, newest_gain);
            &&& substituted(after, received, true) == newest
            &&& substituted(after, received, false) == newest || (substituted(
                after,
                received,
                false,
            ) == received && plausible(after, received))
        }),
{
    let after = pushed(pushed(h, older, older_gain), newest, newest_gain);
    lemma_newest_in_range(after);
}

/// A damaged frame's lag is kept where it lies near a steady contour, near the
/// newest of two confidently voiced subframes, or strictly inside a history
/// that does not spread far. One that lies ten or more outside the history is
/// replaced by one inside it.
pub proof fn law_damaged_lag_must_fit_the_history(h: HistoryView, received: i16)
    requires
        h.lags.len() == 5,
        h.gains.len() == 5,
        within(h.lags, 0, 6000),
        0 <= received <= 6000,
    ensures
        ({
            let s = ascending(h.lags);
            let lag = substituted(h, received, false);
            &&& s[4] - s[0] < 10 && s[0] - 5 < received < s[4] + 5 ==> lag == received
            &&& h.gains[4] > 8192 && h.gains[3] > 8192 && -10 < received - h.lags[0] < 10 ==> lag
                == received
            &&& s[4] - s[0] < 70 && s[0] < received < s[4] ==> lag == received
            &&& received >= s[4] + 10 || received <= s[0] - 10 ==> s[0] <= lag <= s[4]
        }),
{
    reveal(crate::fixed_point::spec_sub_s);
    reveal(crate::fixed_point::spec_add_s);
    reveal(crate::fixed_point::spec_mult);
    lemma_newest_in_range(h);
    lemma_ascending(h.lags, 0, 6000);
    lemma_substitute_range(h, received, false);
    let s = ascending(h.lags);
    assert forall|x: int| 0 <= x < 5 implies s[0] <= #[trigger] h.lags[x] by {
        let y = choose|y: int| 0 <= y < 5 && #[trigger] s[y] == h.lags[x];
        assert(s[0] <= s[y]);
    }
    let sum = h.lags[0] + h.lags[1] + h.lags[2] + h.lags[3] + h.lags[4];
    assert(mean_lag(h) == (sum * 6554) / 32768);
    assert(mean_lag(h) >= s[0]);
}

/// An unvoiced loss takes the mean of the three longest lags, moved by no more
/// than half the gap from the longest to the middle one, and twenty at most;
/// where the three agree, that is their lag.
pub proof fn law_unvoiced_loss_guesses_near_the_longest_lags(h: HistoryView)
    requires
        h.lags.len() == 5,
        within(h.lags, 0, 10000),
    ensures
        ({
            let s = ascending(h.lags);
            let gap = s[4] - s[2];
            let third = 3 * guessed(h) - (s[2] + s[3] + s[4]);
            let spread = if gap > 40 {
                20
            } else {
                gap / 2
            };
            -3 * spread - 6 <= third <= 3 * spread + 3
        }),
{
    reveal(crate::fixed_point::spec_sub_s);
    reveal(crate::fixed_point::spec_add_s);
    reveal(crate::fixed_point::spec_mult);
    reveal(crate::fixed_point::spec_shr);
    vstd::arithmetic::power2::lemma2_to64();
    lemma_ascending(h.lags, 0, 10000);
    let s = ascending(h.lags);
    let gap: int = if s[4] - s[2] > 40 {
        40
    } else {
        s[4] - s[2]
    };
    let half = shr(Word16(gap as i16), 1);
    assert(half.0 == gap / 2);
    let seed = next_seed(h.jitter);
    let j = half.0 * seed.0;
    assert(-(half.0 as int) * 32768 <= j <= half.0 as int * 32767) by (nonlinear_arith)
        requires
            j == half.0 * seed.0,
            0 <= half.0 <= 20,
            -32768 <= seed.0 <= 32767,
    ;
    let jitter = mult(half, seed);
    assert(-(half.0 as int) <= jitter.0 <= half.0 as int);
    let upper = s[2] + s[3] + s[4];
    let mean = mult(Word16(upper as i16), Word16(10923));
    assert(mean.0 == (upper * 10923) / 32768);
    assert(upper - 3 <= 3 * mean.0 <= upper + 3);
}

} // verus!
