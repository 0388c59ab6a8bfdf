//! Discontinuous transmission in the encoder: deciding when to stop sending
//! speech, and building the comfort-noise parameters.
//!
//! Every non-speech frame is buffered and every comfort-noise frame builds a
//! full set of parameters, also where the frame-type layer then sends nothing:
//! what is sent depends on every discarded frame before it.

use vstd::prelude::*;
use crate::dtx::{
    energy_sum, ring_with, DTX_ELAPSED_FRAMES_THRESH, DTX_HANG_CONST, DTX_HIST_SIZE, ISF_INIT,
};
use crate::fixed_point::{
    abs_s, add_s, extract_l, l_add, l_mac, l_mult, l_shl, l_shr, l_sub, mult, norm_l, round, shl,
    shr, sub_s, DspContext, Word16, Word32,
};
use crate::isf_noise::{dequantised, indices_fit, quantised_index, NoiseCodebooks, LP_ORDER};
use crate::math::{law_logarithm_rises, lemma_logarithm_fraction, log2, pow2};
use crate::noise::{drawn, levelled, levelled_noise, NoiseGenerator};

verus! {

/// Replace an outlier only when it is this much further out than the most
/// central frame: 1/2.25, Q15.
pub const INV_MED_THRESH: i16 = 14564;

/// Spread of the eight log energies above which the decoder is told to
/// dither, Q7.
pub const GAIN_THR: i16 = 180;

/// Energy offset of each speech mode, Q7.
pub const EN_ADJUST: [i16; 9] = [230, 179, 141, 128, 122, 115, 115, 115, 115];

/// Entries of the flattened distance matrix.
pub const D_LEN: usize = 28;

/// Where row `row` of the flattened upper-triangular distance matrix begins.
pub open spec fn spec_row_offset(row: usize) -> usize {
    (row * (15 - row) / 2) as usize
}

/// Where row `row` of the flattened upper-triangular distance matrix begins.
///
/// The rows have lengths 7, 6, 5, 4, 3, 2, 1 and are laid end to end. They are
/// by *age*: 0 is the newest frame, 7 the oldest.
#[verifier::when_used_as_spec(spec_row_offset)]
pub fn row_offset(row: usize) -> (at: usize)
    requires
        row <= 7,
    ensures
        at == spec_row_offset(row),
        row < 7 ==> at + 7 - row == spec_row_offset((row + 1) as usize),
        at <= D_LEN,
{
    proof {
        lemma_row_offsets();
    }
    row * (15 - row) / 2
}

/// The rows tile the matrix.
pub proof fn lemma_row_offsets()
    ensures
        spec_row_offset(0) == 0,
        spec_row_offset(1) == 7,
        spec_row_offset(2) == 13,
        spec_row_offset(3) == 18,
        spec_row_offset(4) == 22,
        spec_row_offset(5) == 25,
        spec_row_offset(6) == 27,
        spec_row_offset(7) == 28,
{
}

/// What the encoder decided to do with a frame.
#[derive(Debug, Clone, Copy, PartialEq, Eq, Structural)]
pub enum TxDecision {
    /// Encode and transmit as speech in the requested mode.
    Speech,
    /// Build comfort-noise parameters. Whether they are transmitted is for
    /// the frame-type layer to decide.
    ComfortNoise,
}

/// Everything a comfort-noise frame carries, before it is packed.
#[derive(Debug, Clone, Copy, PartialEq, Eq)]
pub struct SidParameters {
    /// The five comfort-noise ISF codebook indices, 6/6/6/5/5 bits.
    pub isf_indices: [u16; 5],
    /// The quantised frame energy, 6 bits.
    pub energy_index: Word16,
    /// Whether the decoder should dither its comfort noise, 1 bit.
    pub dither: bool,
    /// The decoded spectrum, for the encoder's own synthesis. Not transmitted.
    pub spectrum: [Word16; LP_ORDER],
}

/// The encoder's DTX state as plain values.
pub struct EncDtxView {
    /// Ring of the last eight spectra.
    pub isf_hist: Seq<Word16>,
    /// Ring of the last eight log energies, Q7.
    pub log_en_hist: Seq<Word16>,
    /// The newest slot of both rings.
    pub hist_ptr: int,
    /// The energy index most recently built.
    pub log_en_index: Word16,
    /// The last sample of the excitation generator.
    pub cng_seed: Word16,
    /// Frames of hangover left.
    pub hangover: Word16,
    /// Frames since the decoder last analysed real speech.
    pub elapsed: Word16,
    /// The distances between buffered spectra, by age.
    pub distances: Seq<Word32>,
    /// The sums of those distances, by age.
    pub sums: Seq<Word32>,
}

/// The invariant of the state.
pub open spec fn enc_dtx_inv(v: EncDtxView) -> bool {
    &&& v.isf_hist.len() == 128
    &&& v.log_en_hist.len() == 8
    &&& 0 <= v.hist_ptr < 8
    &&& v.distances.len() == 28
    &&& v.sums.len() == 8
    &&& 0 <= v.hangover.0 <= DTX_HANG_CONST
    &&& v.elapsed.0 >= 0
}

/// The state out of reset.
pub open spec fn enc_dtx_reset() -> EncDtxView {
    EncDtxView {
        isf_hist: Seq::new(128, |i: int| Word16(ISF_INIT@[i % 16])),
        log_en_hist: Seq::new(8, |i: int| Word16(0)),
        hist_ptr: 0,
        log_en_index: Word16(0),
        cng_seed: Word16(21845),
        hangover: Word16(DTX_HANG_CONST),
        elapsed: Word16(32767),
        distances: Seq::new(28, |i: int| Word32(0)),
        sums: Seq::new(8, |i: int| Word32(0)),
    }
}

/// Whether a frame is coded as speech or as comfort noise.
pub open spec fn tx_decision(v: EncDtxView, voice_active: bool) -> TxDecision {
    if voice_active {
        TxDecision::Speech
    } else if v.hangover.0 == 0 {
        TxDecision::ComfortNoise
    } else {
        let staleness = add_s(add_s(v.elapsed, Word16(1)), sub_s(v.hangover, Word16(1)));
        if staleness.0 < DTX_ELAPSED_FRAMES_THRESH {
            TxDecision::ComfortNoise
        } else {
            TxDecision::Speech
        }
    }
}

/// The state after a frame has been classified.
pub open spec fn classified(v: EncDtxView, voice_active: bool) -> EncDtxView {
    EncDtxView {
        elapsed: if !voice_active && v.hangover.0 == 0 {
            Word16(0)
        } else {
            add_s(v.elapsed, Word16(1))
        },
        hangover: if voice_active {
            Word16(DTX_HANG_CONST)
        } else if v.hangover.0 == 0 {
            v.hangover
        } else {
            sub_s(v.hangover, Word16(1))
        },
        ..v
    }
}

/// The log energy that is buffered for a residual energy, Q7.
pub open spec fn buffered_energy(energy: Word32, mode_index: int) -> Word16 {
    let (exponent, mantissa) = log2(energy);
    let log_en = add_s(shl(Word16(exponent), 7), shr(mantissa, 8));
    sub_s(log_en, add_s(Word16(1024), Word16(EN_ADJUST@[mode_index])))
}

/// The state after a frame has been buffered.
#[verifier::opaque]
pub open spec fn buffered(
    v: EncDtxView,
    isf: Seq<Word16>,
    energy: Word32,
    mode_index: int,
) -> EncDtxView {
    let p = (v.hist_ptr + 1) % 8;
    EncDtxView {
        hist_ptr: p,
        isf_hist: ring_with(v.isf_hist, p, isf),
        log_en_hist: v.log_en_hist.update(p, buffered_energy(energy, mode_index)),
        ..v
    }
}

/// Twice the squared distance between two slots of the ring, over the first
/// `n` coefficients.
pub open spec fn slot_distance(ring: Seq<Word16>, a: int, b: int, n: int) -> Word32
    decreases n,
{
    if n <= 0 {
        Word32(0)
    } else {
        let e = sub_s(ring[16 * a + n - 1], ring[16 * b + n - 1]);
        l_mac(slot_distance(ring, a, b, n - 1), e, e)
    }
}

/// The slot of the frame of a given age.
pub open spec fn slot_of(hist_ptr: int, age: int) -> int {
    (hist_ptr + 8 - age) % 8
}

/// The distance of the newest frame to the one of a given age.
pub open spec fn age_distance(v: EncDtxView, age: int) -> Word32 {
    slot_distance(v.isf_hist, v.hist_ptr, slot_of(v.hist_ptr, age), 16)
}

/// The row of an entry of the flattened matrix.
pub open spec fn row_of(i: int) -> int {
    if i < 7 {
        0
    } else if i < 13 {
        1
    } else if i < 18 {
        2
    } else if i < 22 {
        3
    } else if i < 25 {
        4
    } else if i < 27 {
        5
    } else {
        6
    }
}

/// The matrix once a frame has been taken in: every row is a frame older and
/// has lost the frame that fell off the end, and the newest row is new.
pub open spec fn aged_distances(v: EncDtxView) -> Seq<Word32> {
    Seq::new(
        28,
        |i: int|
            if i < 7 {
                age_distance(v, i + 1)
            } else {
                // One row up, in the same column.
                v.distances[i - 8 + row_of(i)]
            },
    )
}

/// The sum of the newest frame's distances to the frames up to an age.
pub open spec fn newest_sum(v: EncDtxView, age: int) -> Word32
    decreases age,
{
    if age <= 0 {
        Word32(0)
    } else {
        l_add(newest_sum(v, age - 1), age_distance(v, age))
    }
}

/// The sum of an aged row, before the newest frame is added to it.
pub open spec fn aged_sum(v: EncDtxView, age: int) -> Word32 {
    l_sub(v.sums[age - 1], v.distances[spec_row_offset((age - 1) as usize) + 7 - age])
}

/// The row sums once a frame has been taken in.
pub open spec fn aged_sums(v: EncDtxView) -> Seq<Word32> {
    Seq::new(
        8,
        |age: int|
            if age == 0 {
                newest_sum(v, 7)
            } else {
                l_add(aged_sum(v, age), age_distance(v, age))
            },
    )
}

/// The age of the furthest-out of the `n` newest frames; the newest wins a
/// tie.
pub open spec fn furthest(sums: Seq<Word32>, n: int) -> int
    decreases n,
{
    if n <= 1 {
        0
    } else {
        let best = furthest(sums, n - 1);
        if sums[n - 1].0 > sums[best].0 {
            n - 1
        } else {
            best
        }
    }
}

/// The age of the most central of the `n` newest frames; the newest wins a
/// tie.
pub open spec fn most_central(sums: Seq<Word32>, n: int) -> int
    decreases n,
{
    if n <= 1 {
        0
    } else {
        let best = most_central(sums, n - 1);
        if sums[n - 1].0 < sums[best].0 {
            n - 1
        } else {
            best
        }
    }
}

/// The age of the furthest-out of the `n` newest frames but `skip`, and its
/// sum.
pub open spec fn runner_up(sums: Seq<Word32>, skip: int, n: int) -> (Option<int>, Word32)
    decreases n,
{
    if n <= 0 {
        (None, Word32(-2_147_483_647i32))
    } else {
        let best = runner_up(sums, skip, n - 1);
        if n - 1 != skip && sums[n - 1].0 > best.1.0 {
            (Some(n - 1), sums[n - 1])
        } else {
            best
        }
    }
}

/// Whether a sum is more than 2.25 times the most central one, both scaled by
/// `shift`.
pub open spec fn is_outlier(sum: Word32, central: Word32, shift: i16) -> bool {
    l_mult(round(l_shl(sum, shift)), Word16(INV_MED_THRESH)).0 > l_shl(central, shift).0
}

/// The outliers and the most central frame, as slots.
pub struct FrameOrder {
    /// The furthest-out frame, where it is far enough out to be replaced.
    pub first: Option<usize>,
    /// The second furthest, where it is far enough out.
    pub second: Option<usize>,
    /// The most central frame.
    pub central: usize,
}

/// What the row sums say of the buffered frames.
pub open spec fn frame_order(sums: Seq<Word32>, hist_ptr: int) -> (Option<int>, Option<int>, int) {
    let far = furthest(sums, 8);
    let near = most_central(sums, 8);
    let (second, second_sum) = runner_up(sums, far, 8);
    let shift = norm_l(sums[far]);
    (
        if is_outlier(sums[far], sums[near], shift) {
            Some(slot_of(hist_ptr, far))
        } else {
            None
        },
        if second is Some && is_outlier(second_sum, sums[near], shift) {
            Some(slot_of(hist_ptr, second->0))
        } else {
            None
        },
        slot_of(hist_ptr, near),
    )
}

/// The slot that stands in for `slot` in the mean.
pub open spec fn stand_in(order: (Option<int>, Option<int>, int), slot: int) -> int {
    if order.0 == Some(slot) || order.1 == Some(slot) {
        order.2
    } else {
        slot
    }
}

/// The sum of coefficient `j` over the first `n` slots, outliers replaced.
pub open spec fn replaced_sum(
    ring: Seq<Word16>,
    order: (Option<int>, Option<int>, int),
    j: int,
    n: int,
) -> Word32
    decreases n,
{
    if n <= 0 {
        Word32(0)
    } else {
        l_add(
            replaced_sum(ring, order, j, n - 1),
            Word32(ring[16 * stand_in(order, n - 1) + j].0 as i32),
        )
    }
}

/// The mean spectrum, outliers replaced.
pub open spec fn mean_isf(
    ring: Seq<Word16>,
    order: (Option<int>, Option<int>, int),
) -> Seq<Word16> {
    Seq::new(16, |j: int| extract_l(l_shr(replaced_sum(ring, order, j, 8), 3)))
}

/// The six-bit energy index of eight log energies.
#[verifier::opaque]
pub open spec fn energy_index(log_en_hist: Seq<Word16>) -> Word16 {
    let q8 = add_s(shr(energy_sum(log_en_hist, 8), 2), Word16(512));
    let index = shr(mult(q8, Word16(21504)), 6);
    if index.0 > 63 {
        Word16(63)
    } else if index.0 < 0 {
        Word16(0)
    } else {
        index
    }
}

/// The sum of the first `n` row sums.
pub open spec fn total_distance(sums: Seq<Word32>, n: int) -> Word32
    decreases n,
{
    if n <= 0 {
        Word32(0)
    } else {
        l_add(total_distance(sums, n - 1), sums[n - 1])
    }
}

/// How far the first `n` log energies lie from their mean.
pub open spec fn energy_spread(log_en_hist: Seq<Word16>, mean: Word16, n: int) -> Word16
    decreases n,
{
    if n <= 0 {
        Word16(0)
    } else {
        add_s(
            energy_spread(log_en_hist, mean, n - 1),
            abs_s(sub_s(log_en_hist[n - 1], mean)),
        )
    }
}

/// Whether the background moves enough to need dithering.
#[verifier::opaque]
pub open spec fn needs_dither(v: EncDtxView) -> bool {
    let mean = shr(energy_sum(v.log_en_hist, 8), 3);
    l_shr(total_distance(v.sums, 8), 26).0 > 0 || energy_spread(v.log_en_hist, mean, 8).0 > GAIN_THR
}

/// The state after the newest frame has been taken into the matrix.
pub open spec fn ordered(v: EncDtxView) -> EncDtxView {
    EncDtxView { distances: aged_distances(v), sums: aged_sums(v), ..v }
}

/// The state after comfort-noise parameters have been built.
#[verifier::opaque]
pub open spec fn sid_built(v: EncDtxView) -> EncDtxView {
    EncDtxView { log_en_index: energy_index(v.log_en_hist), ..ordered(v) }
}

/// The spectrum that a comfort-noise frame describes, before quantisation.
#[verifier::opaque]
pub open spec fn sid_isf(v: EncDtxView) -> Seq<Word16> {
    let w = ordered(v);
    mean_isf(w.isf_hist, frame_order(w.sums, w.hist_ptr))
}

/// The level that an energy index stands for.
#[verifier::opaque]
pub open spec fn index_level(energy_index: Word16) -> Word32 {
    let log_en = mult(shl(energy_index, 9), Word16(12483));
    let fraction = Word16((log_en.0 as int % 1024) as i16);
    pow2(add_s(shr(log_en, 10), Word16(15)).0, shl(fraction, 5))
}

/// A ten-bit fraction shifted to Q15 stays a fraction.
proof fn lemma_fraction(x: i16)
    requires
        0 <= x < 1024,
    ensures
        shl(Word16(x), 5).0 >= 0,
{
    reveal(crate::fixed_point::spec_shl);
    vstd::arithmetic::power2::lemma2_to64();
}

/// Encoder DTX state.
#[derive(Debug, Clone)]
pub struct DtxEncoder {
    /// Ring of the last eight frames' ISF vectors, newest at `hist_ptr`.
    pub isf_hist: [Word16; 128],
    /// Ring of the last eight frames' log energies, Q7.
    pub log_en_hist: [Word16; DTX_HIST_SIZE],
    /// Index of the newest slot in both rings.
    pub hist_ptr: usize,
    /// The energy index most recently built.
    pub log_en_index: Word16,
    /// Generator of the comfort-noise excitation.
    pub cng: NoiseGenerator,
    /// Frames of hangover left before quiet becomes comfort noise.
    pub dtx_hangover_count: Word16,
    /// Frames since the decoder last had a chance to analyse real speech.
    pub dec_ana_elapsed_count: Word16,
    /// Flattened upper-triangular ISF distance matrix.
    pub distances: [Word32; D_LEN],
    /// Row sums of `distances`, by age.
    pub sum_distances: [Word32; DTX_HIST_SIZE],
}

impl DtxEncoder {
    /// The state as plain values.
    pub open spec fn view(&self) -> EncDtxView {
        EncDtxView {
            isf_hist: self.isf_hist@,
            log_en_hist: self.log_en_hist@,
            hist_ptr: self.hist_ptr as int,
            log_en_index: self.log_en_index,
            cng_seed: self.cng.seed,
            hangover: self.dtx_hangover_count,
            elapsed: self.dec_ana_elapsed_count,
            distances: self.distances@,
            sums: self.sum_distances@,
        }
    }

    /// The invariant.
    pub open spec fn wf(&self) -> bool {
        enc_dtx_inv(self.view())
    }

    /// A DTX encoder in its reset state.
    #[must_use]
    pub fn new() -> (d: Self)
        ensures
            d.wf(),
            d.view() == enc_dtx_reset(),
    {
        let mut isf_hist: [Word16; 128] = [Word16(0); 128];
        for i in 0..128usize
            invariant
                forall|j: int|
                    0 <= j < i ==> #[trigger] isf_hist@[j] == Word16(ISF_INIT@[j % 16]),
        {
            isf_hist[i] = Word16(ISF_INIT[i % 16]);
        }
        let d = DtxEncoder {
            isf_hist,
            log_en_hist: [Word16(0); DTX_HIST_SIZE],
            hist_ptr: 0,
            log_en_index: Word16(0),
            cng: NoiseGenerator::new(),
            dtx_hangover_count: Word16(DTX_HANG_CONST),
            dec_ana_elapsed_count: Word16(32767),
            distances: [Word32(0); D_LEN],
            sum_distances: [Word32(0); DTX_HIST_SIZE],
        };
        assert(d.view().isf_hist =~= enc_dtx_reset().isf_hist);
        assert(d.view().log_en_hist =~= enc_dtx_reset().log_en_hist);
        assert(d.view().distances =~= enc_dtx_reset().distances);
        assert(d.view().sums =~= enc_dtx_reset().sums);
        d
    }

    /// Whether this frame should be coded as speech or as comfort noise.
    ///
    /// After a long talk spurt the first seven quiet frames still go out as
    /// speech, so that the decoder can run its own noise analysis; after a
    /// short burst inside silence the very next quiet frame is comfort noise.
    pub fn classify(&mut self, _ctx: &mut DspContext, voice_active: bool) -> (decision: TxDecision)
        requires
            old(self).wf(),
        ensures
            final(self).wf(),
            decision == tx_decision(old(self).view(), voice_active),
            final(self).view() == classified(old(self).view(), voice_active),
    {
        proof {
            reveal(crate::fixed_point::spec_add_s);
            reveal(crate::fixed_point::spec_sub_s);
        }
        self.dec_ana_elapsed_count = add_s(self.dec_ana_elapsed_count, Word16(1));
        if voice_active {
            self.dtx_hangover_count = Word16(DTX_HANG_CONST);
            return TxDecision::Speech;
        }
        if self.dtx_hangover_count.0 == 0 {
            self.dec_ana_elapsed_count = Word16(0);
            return TxDecision::ComfortNoise;
        }
        self.dtx_hangover_count = sub_s(self.dtx_hangover_count, Word16(1));
        let staleness = add_s(self.dec_ana_elapsed_count, self.dtx_hangover_count);
        if staleness.0 < DTX_ELAPSED_FRAMES_THRESH {
            TxDecision::ComfortNoise
        } else {
            TxDecision::Speech
        }
    }

    /// The hangover counter, which the highest rate reads to scale its
    /// high-band gain.
    #[must_use]
    pub fn hangover_count(&self) -> (r: Word16)
        ensures
            r == self.view().hangover,
    {
        self.dtx_hangover_count
    }

    /// Record one frame's spectrum and residual energy.
    ///
    /// `mode_index` is the *speech* mode originally requested.
    pub fn buffer(
        &mut self,
        _ctx: &mut DspContext,
        isf: &[Word16; LP_ORDER],
        energy: Word32,
        mode_index: usize,
    )
        requires
            old(self).wf(),
            mode_index < 9,
        ensures
            final(self).wf(),
            final(self).view() == buffered(old(self).view(), isf@, energy, mode_index as int),
    {
        proof {
            reveal(buffered);
        }
        let ghost v = self.view();
        let p: usize = (self.hist_ptr + 1) % DTX_HIST_SIZE;
        self.hist_ptr = p;
        for j in 0..LP_ORDER
            invariant
                p < 8,
                v.isf_hist.len() == 128,
                self.view() == (EncDtxView { hist_ptr: p as int, isf_hist: self.isf_hist@, ..v }),
                forall|i: int|
                    0 <= i < 128 ==> #[trigger] self.isf_hist@[i] == if i / 16 == p && i % 16 < j {
                        isf@[i % 16]
                    } else {
                        v.isf_hist[i]
                    },
        {
            self.isf_hist[16 * p + j] = isf[j];
        }
        assert(self.isf_hist@ =~= ring_with(v.isf_hist, p as int, isf@));
        let (exponent, mantissa) = log2(energy);
        let log_en = add_s(shl(Word16(exponent), 7), shr(mantissa, 8));
        let offset = add_s(Word16(1024), Word16(EN_ADJUST[mode_index]));
        self.log_en_hist[p] = sub_s(log_en, offset);
    }

    /// Drop the oldest frame from the row sums and age them.
    fn age_sums(&mut self)
        requires
            old(self).wf(),
        ensures
            final(self).view() == (EncDtxView {
                sums: final(self).sum_distances@,
                ..old(self).view()
            }),
            final(self).sum_distances@[0] == Word32(0),
            forall|age: int|
                1 <= age < 8 ==> #[trigger] final(self).sum_distances@[age] == aged_sum(
                    old(self).view(),
                    age,
                ),
    {
        let ghost v = self.view();
        proof {
            lemma_row_offsets();
        }
        let mut aged: [Word32; DTX_HIST_SIZE] = [Word32(0); DTX_HIST_SIZE];
        for row in 0..7usize
            invariant
                self.view() == v,
                enc_dtx_inv(v),
                aged@[0] == Word32(0),
                forall|age: int| 1 <= age <= row ==> #[trigger] aged@[age] == aged_sum(v, age),
        {
            proof {
                lemma_row_offsets();
            }
            // The last entry of a row is its distance to the frame that is
            // about to fall off the end.
            let last = self.distances[row_offset(row) + 6 - row];
            aged[row + 1] = l_sub(self.sum_distances[row], last);
        }
        self.sum_distances = aged;
    }

    /// Age every row of the matrix by one frame.
    fn age_distances(&mut self)
        ensures
            final(self).view() == (EncDtxView {
                distances: final(self).distances@,
                ..old(self).view()
            }),
            forall|i: int|
                7 <= i < 28 ==> #[trigger] final(self).distances@[i] == old(self).distances@[i - 8
                    + row_of(i)],
    {
        let ghost v = self.view();
        let mut row: usize = 6;
        while row > 0
            invariant
                row <= 6,
                self.view() == (EncDtxView { distances: self.distances@, ..v }),
                v.distances.len() == 28,
                forall|i: int|
                    7 <= i < 28 && row_of(i) > row ==> #[trigger] self.distances@[i]
                        == v.distances[i - 8 + row_of(i)],
                forall|i: int|
                    0 <= i < 28 && row_of(i) <= row ==> #[trigger] self.distances@[i]
                        == v.distances[i],
            decreases row,
        {
            proof {
                lemma_row_offsets();
            }
            let to: usize = row_offset(row);
            let from: usize = row_offset(row - 1);
            for column in 0..(7 - row)
                invariant
                    1 <= row <= 6,
                    to == spec_row_offset(row),
                    from == spec_row_offset((row - 1) as usize),
                    self.view() == (EncDtxView { distances: self.distances@, ..v }),
                    v.distances.len() == 28,
                    forall|i: int|
                        7 <= i < 28 && (row_of(i) > row || (row_of(i) == row && i < to + column))
                            ==> #[trigger] self.distances@[i] == v.distances[i - 8 + row_of(i)],
                    forall|i: int|
                        0 <= i < 28 && (row_of(i) < row || (row_of(i) == row && i >= to + column))
                            ==> #[trigger] self.distances@[i] == v.distances[i],
            {
                proof {
                    lemma_row_offsets();
                }
                self.distances[to + column] = self.distances[from + column];
            }
            assert forall|i: int| 7 <= i < 28 && row_of(i) > row - 1 implies #[trigger] self.distances@[i]
                == v.distances[i - 8 + row_of(i)] by {
                lemma_row_offsets();
            }
            row -= 1;
        }
    }

    /// Measure the newest frame against each older one.
    fn measure_newest(&mut self)
        requires
            old(self).wf(),
        ensures
            ({
                let v = old(self).view();
                &&& final(self).view() == (EncDtxView {
                    distances: final(self).distances@,
                    sums: final(self).sum_distances@,
                    ..v
                })
                &&& forall|i: int|
                    0 <= i < 28 ==> #[trigger] final(self).distances@[i] == if i < 7 {
                        age_distance(v, i + 1)
                    } else {
                        v.distances[i]
                    }
                &&& v.sums[0] == Word32(0) ==> final(self).sum_distances@[0] == newest_sum(v, 7)
                &&& forall|age: int|
                    1 <= age < 8 ==> #[trigger] final(self).sum_distances@[age] == l_add(
                        v.sums[age],
                        age_distance(v, age),
                    )
            }),
    {
        let ghost v = self.view();
        let newest: usize = self.hist_ptr;
        for age in 1..DTX_HIST_SIZE
            invariant
                enc_dtx_inv(v),
                newest == v.hist_ptr,
                self.view() == (EncDtxView {
                    distances: self.distances@,
                    sums: self.sum_distances@,
                    ..v
                }),
                forall|i: int|
                    0 <= i < 28 ==> #[trigger] self.distances@[i] == if i < age - 1 {
                        age_distance(v, i + 1)
                    } else {
                        v.distances[i]
                    },
                v.sums[0] == Word32(0) ==> self.sum_distances@[0] == newest_sum(v, age - 1),
                forall|a: int|
                    1 <= a < 8 ==> #[trigger] self.sum_distances@[a] == if a < age {
                        l_add(v.sums[a], age_distance(v, a))
                    } else {
                        v.sums[a]
                    },
        {
            let other: usize = (newest + DTX_HIST_SIZE - age) % DTX_HIST_SIZE;
            let mut acc = Word32(0);
            for i in 0..LP_ORDER
                invariant
                    newest < 8,
                    other < 8,
                    self.isf_hist@ == v.isf_hist,
                    acc == slot_distance(v.isf_hist, newest as int, other as int, i as int),
            {
                let e = sub_s(self.isf_hist[16 * newest + i], self.isf_hist[16 * other + i]);
                acc = l_mac(acc, e, e);
            }
            assert(acc == age_distance(v, age as int));
            self.distances[age - 1] = acc;
            self.sum_distances[0] = l_add(self.sum_distances[0], acc);
            self.sum_distances[age] = l_add(self.sum_distances[age], acc);
        }
    }

    /// Update the distance matrix and pick the outlier, the second outlier and
    /// the most central frame.
    fn find_frame_indices(&mut self) -> (order: FrameOrder)
        requires
            old(self).wf(),
        ensures
            final(self).wf(),
            final(self).view() == ordered(old(self).view()),
            order.central < 8,
            ({
                let named = frame_order(final(self).view().sums, final(self).view().hist_ptr);
                &&& order.first == as_slot(named.0)
                &&& order.second == as_slot(named.1)
                &&& order.central == named.2
            }),
    {
        let ghost v = self.view();
        self.age_sums();
        self.age_distances();
        let ghost w = self.view();
        self.measure_newest();
        proof {
            lemma_same_ring(v, w, 7);
            assert forall|age: int| 1 <= age < 8 implies age_distance(v, age) == #[trigger] age_distance(
                w,
                age,
            ) by {}
            assert(self.view().distances =~= aged_distances(v));
            assert(self.view().sums =~= aged_sums(v));
        }
        let ghost sums = self.view().sums;
        let mut far: usize = 0;
        let mut near: usize = 0;
        for age in 1..DTX_HIST_SIZE
            invariant
                sums == self.sum_distances@,
                far < 8,
                near < 8,
                far == furthest(sums, age as int),
                near == most_central(sums, age as int),
        {
            if self.sum_distances[age].0 > self.sum_distances[far].0 {
                far = age;
            }
            if self.sum_distances[age].0 < self.sum_distances[near].0 {
                near = age;
            }
        }
        let mut second: Option<usize> = None;
        let mut second_sum = Word32(-2_147_483_647);
        for age in 0..DTX_HIST_SIZE
            invariant
                sums == self.sum_distances@,
                far < 8,
                second is Some ==> second->0 < 8,
                as_age(second) == runner_up(sums, far as int, age as int).0,
                second_sum == runner_up(sums, far as int, age as int).1,
        {
            if age != far && self.sum_distances[age].0 > second_sum.0 {
                second = Some(age);
                second_sum = self.sum_distances[age];
            }
        }
        let max = self.sum_distances[far];
        let shift: i16 = norm_l(max);
        let min = l_shl(self.sum_distances[near], shift);
        let first: Option<usize> = if l_mult(round(l_shl(max, shift)), Word16(INV_MED_THRESH)).0
            > min.0 {
            Some((self.hist_ptr + DTX_HIST_SIZE - far) % DTX_HIST_SIZE)
        } else {
            None
        };
        let threshold_second = l_mult(round(l_shl(second_sum, shift)), Word16(INV_MED_THRESH));
        let second_slot: Option<usize> = match second {
            Some(age) => if threshold_second.0 > min.0 {
                Some((self.hist_ptr + DTX_HIST_SIZE - age) % DTX_HIST_SIZE)
            } else {
                None
            },
            None => None,
        };
        FrameOrder {
            first,
            second: second_slot,
            central: (self.hist_ptr + DTX_HIST_SIZE - near) % DTX_HIST_SIZE,
        }
    }

    /// Mean of the eight buffered spectra, with up to two outliers replaced by
    /// the most central frame. The history itself is left untouched.
    fn average_isf_history(&self, order: &FrameOrder) -> (isf: [Word16; LP_ORDER])
        requires
            self.wf(),
            order.central < 8,
        ensures
            isf@ == mean_isf(
                self.view().isf_hist,
                (as_age(order.first), as_age(order.second), order.central as int),
            ),
    {
        let ghost named = (as_age(order.first), as_age(order.second), order.central as int);
        let mut source: [usize; DTX_HIST_SIZE] = [0usize; DTX_HIST_SIZE];
        for slot in 0..DTX_HIST_SIZE
            invariant
                named == (as_age(order.first), as_age(order.second), order.central as int),
                order.central < 8,
                forall|s: int| 0 <= s < slot ==> #[trigger] source@[s] == stand_in(named, s),
                forall|s: int| 0 <= s < slot ==> #[trigger] source@[s] < 8,
        {
            let replaced: bool = match order.first {
                Some(s) => s == slot,
                None => false,
            };
            let also: bool = match order.second {
                Some(s) => s == slot,
                None => false,
            };
            source[slot] = if replaced || also {
                order.central
            } else {
                slot
            };
        }
        let mut isf: [Word16; LP_ORDER] = [Word16(0); LP_ORDER];
        for j in 0..LP_ORDER
            invariant
                forall|s: int| 0 <= s < 8 ==> #[trigger] source@[s] == stand_in(named, s),
                forall|s: int| 0 <= s < 8 ==> #[trigger] source@[s] < 8,
                forall|i: int|
                    0 <= i < j ==> #[trigger] isf@[i] == extract_l(
                        l_shr(replaced_sum(self.isf_hist@, named, i, 8), 3),
                    ),
        {
            let mut sum = Word32(0);
            for n in 0..DTX_HIST_SIZE
                invariant
                    j < 16,
                    forall|s: int| 0 <= s < 8 ==> #[trigger] source@[s] == stand_in(named, s),
                    forall|s: int| 0 <= s < 8 ==> #[trigger] source@[s] < 8,
                    sum == replaced_sum(self.isf_hist@, named, j as int, n as int),
            {
                assert(source@[n as int] < 8);
                let value = self.isf_hist[16 * source[n] + j];
                sum = l_add(sum, Word32(value.0 as i32));
            }
            isf[j] = extract_l(l_shr(sum, 3));
        }
        assert(isf@ =~= mean_isf(self.isf_hist@, named));
        isf
    }

    /// Whether the background is moving enough to need dithering: in its
    /// spectrum, or in its energy.
    fn dithering_control(&self) -> (r: bool)
        ensures
            r == needs_dither(self.view()),
    {
        proof {
            reveal(needs_dither);
        }
        let mut spectral = Word32(0);
        let mut total = Word16(0);
        for i in 0..DTX_HIST_SIZE
            invariant
                spectral == total_distance(self.sum_distances@, i as int),
                total == energy_sum(self.log_en_hist@, i as int),
        {
            spectral = l_add(spectral, self.sum_distances[i]);
            total = add_s(total, self.log_en_hist[i]);
        }
        if l_shr(spectral, 26).0 > 0 {
            return true;
        }
        let mean = shr(total, 3);
        let mut spread = Word16(0);
        for i in 0..DTX_HIST_SIZE
            invariant
                spread == energy_spread(self.log_en_hist@, mean, i as int),
        {
            spread = add_s(spread, abs_s(sub_s(self.log_en_hist[i], mean)));
        }
        spread.0 > GAIN_THR
    }

    /// Build the comfort-noise parameters for this frame.
    pub fn build_sid(&mut self, _ctx: &mut DspContext, books: &NoiseCodebooks) -> (sid: SidParameters)
        requires
            old(self).wf(),
        ensures
            final(self).wf(),
            final(self).view() == sid_built(old(self).view()),
            indices_fit(sid.isf_indices@),
            forall|k: int|
                0 <= k < 5 ==> #[trigger] sid.isf_indices@[k] == quantised_index(
                    *books,
                    sid_isf(old(self).view()),
                    k,
                ),
            sid.energy_index == energy_index(old(self).view().log_en_hist),
            sid.dither == needs_dither(final(self).view()),
            sid.spectrum@ == dequantised(*books, sid.isf_indices@),
    {
        proof {
            reveal(sid_built);
            reveal(sid_isf);
            reveal(energy_index);
        }
        let ghost v = self.view();
        let mut total = Word16(0);
        for i in 0..DTX_HIST_SIZE
            invariant
                total == energy_sum(self.log_en_hist@, i as int),
        {
            total = add_s(total, self.log_en_hist[i]);
        }
        let order = self.find_frame_indices();
        let isf = self.average_isf_history(&order);
        proof {
            let named = frame_order(self.view().sums, self.view().hist_ptr);
            assert(as_age(as_slot(named.0)) == named.0);
            assert(as_age(as_slot(named.1)) == named.1);
            assert(isf@ == sid_isf(v));
        }
        let q8 = add_s(shr(total, 2), Word16(512));
        let raw = shr(mult(q8, Word16(21504)), 6);
        let index = if raw.0 > 63 {
            Word16(63)
        } else if raw.0 < 0 {
            Word16(0)
        } else {
            raw
        };
        self.log_en_index = index;
        let isf_indices = books.quantise(&isf);
        let spectrum = books.dequantise(&isf_indices);
        let dither: bool = self.dithering_control();
        SidParameters { isf_indices, energy_index: index, dither, spectrum }
    }

    /// The comfort-noise excitation for one frame.
    ///
    /// Not transmitted: it drives the encoder's own synthesis, and therefore
    /// the memories that the next speech frame inherits.
    pub fn excitation(&mut self, ctx: &mut DspContext, energy_index: Word16) -> (excitation: [Word16;
        256])
        requires
            old(self).wf(),
        ensures
            final(self).wf(),
            excitation@ == levelled(old(self).view().cng_seed, index_level(energy_index)),
            final(self).view() == (EncDtxView {
                cng_seed: drawn(old(self).view().cng_seed, 256),
                ..old(self).view()
            }),
    {
        proof {
            reveal(index_level);
        }
        let log_en = mult(shl(energy_index, 9), Word16(12483));
        let fraction = Word16(((log_en.0 as i32 + 32768) % 1024) as i16);
        proof {
            lemma_fraction(fraction.0);
        }
        let level = pow2(add_s(shr(log_en, 10), Word16(15)).0, shl(fraction, 5));
        levelled_noise(ctx, &mut self.cng, level)
    }
}

impl Default for DtxEncoder {
    fn default() -> (d: Self)
        ensures
            d.wf(),
            d.view() == enc_dtx_reset(),
    {
        DtxEncoder::new()
    }
}

/// An optional slot as an integer.
pub open spec fn as_age(x: Option<usize>) -> Option<int> {
    match x {
        Some(a) => Some(a as int),
        None => None,
    }
}

/// An optional integer as a slot.
pub open spec fn as_slot(x: Option<int>) -> Option<usize> {
    match x {
        Some(a) => Some(a as usize),
        None => None,
    }
}

/// Distances depend on the ring alone.
proof fn lemma_same_ring(v: EncDtxView, w: EncDtxView, age: int)
    requires
        v.isf_hist == w.isf_hist,
        v.hist_ptr == w.hist_ptr,
    ensures
        newest_sum(v, age) == newest_sum(w, age),
    decreases age,
{
    if age > 0 {
        lemma_same_ring(v, w, age - 1);
    }
}

// ---------------------------------------------------------------------------
// Laws
// ---------------------------------------------------------------------------

/// The state after `n` frames of the same activity.
pub open spec fn after_frames(v: EncDtxView, voice_active: bool, n: int) -> EncDtxView
    decreases n,
{
    if n <= 0 {
        v
    } else {
        classified(after_frames(v, voice_active, n - 1), voice_active)
    }
}

/// The counters inside a hangover.
proof fn lemma_hangover(v: EncDtxView, n: int)
    requires
        enc_dtx_inv(v),
        v.hangover.0 == 7,
        0 <= n <= 7,
    ensures
        after_frames(v, false, n).hangover.0 == 7 - n,
        after_frames(v, false, n).elapsed.0 == if v.elapsed.0 + n > 32767 {
            32767
        } else {
            v.elapsed.0 + n
        },
    decreases n,
{
    reveal(crate::fixed_point::spec_add_s);
    reveal(crate::fixed_point::spec_sub_s);
    if n > 0 {
        lemma_hangover(v, n - 1);
    }
}

/// After a talk spurt at least 23 frames past the decoder's last analysis,
/// exactly seven quiet frames go out as speech and every later one is comfort
/// noise.
pub proof fn law_hangover_runs_seven_frames(v: EncDtxView, n: int)
    requires
        enc_dtx_inv(v),
        v.hangover.0 == 7,
        v.elapsed.0 >= 23,
        n >= 0,
    ensures
        tx_decision(after_frames(v, false, n), false) == if n < 7 {
            TxDecision::Speech
        } else {
            TxDecision::ComfortNoise
        },
    decreases n,
{
    reveal(crate::fixed_point::spec_add_s);
    reveal(crate::fixed_point::spec_sub_s);
    if n <= 7 {
        lemma_hangover(v, n);
    } else {
        lemma_exhausted(v, n);
    }
}

/// A hangover that has run out stays so.
proof fn lemma_exhausted(v: EncDtxView, n: int)
    requires
        enc_dtx_inv(v),
        v.hangover.0 == 7,
        n >= 7,
    ensures
        after_frames(v, false, n).hangover.0 == 0,
    decreases n,
{
    if n == 7 {
        lemma_hangover(v, 7);
    } else {
        lemma_exhausted(v, n - 1);
    }
}

/// Activity re-arms the hangover and only counts frames otherwise.
proof fn lemma_burst(v: EncDtxView, n: int)
    requires
        enc_dtx_inv(v),
        n >= 1,
        v.elapsed.0 + n <= 32767,
    ensures
        after_frames(v, true, n).hangover.0 == 7,
        after_frames(v, true, n).elapsed.0 == v.elapsed.0 + n,
    decreases n,
{
    reveal(crate::fixed_point::spec_add_s);
    if n > 1 {
        lemma_burst(v, n - 1);
    } else {
        assert(after_frames(v, true, 0) == v);
    }
}

/// After a burst of at most 22 frames inside comfort noise, the very next
/// quiet frame is comfort noise again.
pub proof fn law_short_burst_gets_no_hangover(v: EncDtxView, n: int)
    requires
        enc_dtx_inv(v),
        v.hangover.0 == 0,
        1 <= n <= 22,
    ensures
        tx_decision(after_frames(classified(v, false), true, n), false) == TxDecision::ComfortNoise,
{
    reveal(crate::fixed_point::spec_add_s);
    reveal(crate::fixed_point::spec_sub_s);
    lemma_burst(classified(v, false), n);
}

/// The ring after spectra have been buffered one by one.
pub open spec fn after_buffering(
    v: EncDtxView,
    spectra: Seq<Seq<Word16>>,
    energy: Word32,
    mode_index: int,
) -> EncDtxView
    decreases spectra.len(),
{
    if spectra.len() == 0 {
        v
    } else {
        buffered(
            after_buffering(v, spectra.drop_last(), energy, mode_index),
            spectra.last(),
            energy,
            mode_index,
        )
    }
}

/// The ring holds the last eight spectra, each at the slot of its age.
pub proof fn law_ring_holds_the_last_eight(
    v: EncDtxView,
    spectra: Seq<Seq<Word16>>,
    energy: Word32,
    mode_index: int,
    age: int,
)
    requires
        enc_dtx_inv(v),
        0 <= mode_index < 9,
        forall|k: int| 0 <= k < spectra.len() ==> (#[trigger] spectra[k]).len() == 16,
        0 <= age < 8,
        age < spectra.len(),
    ensures
        ({
            let w = after_buffering(v, spectra, energy, mode_index);
            &&& enc_dtx_inv(w)
            &&& crate::dtx::ring_slot(w.isf_hist, slot_of(w.hist_ptr, age))
                =~= spectra[spectra.len() - 1 - age]
        }),
    decreases spectra.len(),
{
    reveal(buffered);
    let w = after_buffering(v, spectra, energy, mode_index);
    let u = after_buffering(v, spectra.drop_last(), energy, mode_index);
    let last = spectra.last();
    if spectra.len() > 1 {
        let older: int = if age > 0 {
            age - 1
        } else {
            0
        };
        law_ring_holds_the_last_eight(v, spectra.drop_last(), energy, mode_index, older);
        assert(enc_dtx_inv(u));
    } else {
        assert(u == v);
    }
    let slot = slot_of(w.hist_ptr, age);
    assert forall|j: int| 0 <= j < 16 implies crate::dtx::ring_slot(w.isf_hist, slot)[j]
        == #[trigger] spectra[spectra.len() - 1 - age][j] by {
        assert((16 * slot + j) / 16 == slot && (16 * slot + j) % 16 == j);
        if age > 0 {
            assert(slot == slot_of(u.hist_ptr, age - 1));
            assert(crate::dtx::ring_slot(u.isf_hist, slot)[j] == spectra[spectra.len() - 1 - age][j]);
        }
    }
}

/// Building parameters leaves the buffered frames, the counters and the
/// generator alone; outliers are replaced in the mean only. The energy index
/// fits its six bits.
pub proof fn law_building_keeps_the_history(v: EncDtxView)
    ensures
        sid_built(v).isf_hist == v.isf_hist,
        sid_built(v).log_en_hist == v.log_en_hist,
        sid_built(v).hist_ptr == v.hist_ptr,
        sid_built(v).cng_seed == v.cng_seed,
        sid_built(v).hangover == v.hangover,
        sid_built(v).elapsed == v.elapsed,
        sid_built(v).log_en_index == energy_index(v.log_en_hist),
        0 <= energy_index(v.log_en_hist).0 <= 63,
        enc_dtx_inv(v) ==> enc_dtx_inv(sid_built(v)),
{
    reveal(sid_built);
    reveal(energy_index);
}

/// Buffering leaves the counters and the generator alone.
pub proof fn law_buffering_keeps_the_counters(
    v: EncDtxView,
    isf: Seq<Word16>,
    energy: Word32,
    mode_index: int,
)
    ensures
        buffered(v, isf, energy, mode_index).hangover == v.hangover,
        buffered(v, isf, energy, mode_index).elapsed == v.elapsed,
        buffered(v, isf, energy, mode_index).cng_seed == v.cng_seed,
{
    reveal(buffered);
}

/// Equal spectra have no distance.
pub proof fn law_equal_spectra_have_no_distance(ring: Seq<Word16>, a: int, b: int, n: int)
    requires
        forall|j: int|
            0 <= j < n ==> #[trigger] ring[16 * a + j] == ring[16 * b + j],
    ensures
        slot_distance(ring, a, b, n) == Word32(0),
    decreases n,
{
    reveal(crate::fixed_point::spec_sub_s);
    reveal(crate::fixed_point::spec_l_mac);
    reveal(crate::fixed_point::spec_l_mult);
    reveal(crate::fixed_point::spec_l_add);
    if n > 0 {
        law_equal_spectra_have_no_distance(ring, a, b, n - 1);
        assert(ring[16 * a + (n - 1)] == ring[16 * b + (n - 1)]);
        let e = sub_s(ring[16 * a + n - 1], ring[16 * b + n - 1]);
        assert(e == Word16(0));
        assert(0 * 0 == 0int);
        assert(l_mac(Word32(0), Word16(0), Word16(0)) == Word32(0));
    }
}

/// The furthest-out of the buffered frames is furthest out, and the most
/// central most central, by the sums of their distances; the newest of equal
/// ones.
pub proof fn law_outliers_are_the_furthest(sums: Seq<Word32>, n: int, age: int)
    requires
        0 <= age < n,
    ensures
        0 <= furthest(sums, n) < n,
        sums[age].0 <= sums[furthest(sums, n)].0,
        age < furthest(sums, n) ==> sums[age].0 < sums[furthest(sums, n)].0,
        0 <= most_central(sums, n) < n,
        sums[most_central(sums, n)].0 <= sums[age].0,
        age < most_central(sums, n) ==> sums[most_central(sums, n)].0 < sums[age].0,
    decreases n,
{
    if n > 1 {
        law_outliers_are_the_furthest(
            sums,
            n - 1,
            if age < n - 1 {
                age
            } else {
                0
            },
        );
    }
}

/// The plain sum of a coefficient over the first `n` slots, outliers replaced.
pub open spec fn plain_sum(
    ring: Seq<Word16>,
    order: (Option<int>, Option<int>, int),
    j: int,
    n: int,
) -> int
    decreases n,
{
    if n <= 0 {
        0
    } else {
        plain_sum(ring, order, j, n - 1) + ring[16 * stand_in(order, n - 1) + j].0
    }
}

proof fn lemma_plain_sum(
    ring: Seq<Word16>,
    order: (Option<int>, Option<int>, int),
    j: int,
    n: int,
)
    requires
        0 <= n <= 8,
    ensures
        replaced_sum(ring, order, j, n).0 == plain_sum(ring, order, j, n),
        -32768 * n <= plain_sum(ring, order, j, n) <= 32767 * n,
    decreases n,
{
    reveal(crate::fixed_point::spec_l_add);
    if n > 0 {
        lemma_plain_sum(ring, order, j, n - 1);
    }
}

/// The spectrum of a comfort-noise frame is the mean of the eight buffered
/// ones, to the unit below, in which the most central one stands in for each
/// outlier.
pub proof fn law_noise_spectrum_is_the_mean(
    ring: Seq<Word16>,
    order: (Option<int>, Option<int>, int),
    j: int,
)
    requires
        0 <= j < 16,
    ensures
        mean_isf(ring, order)[j].0 == plain_sum(ring, order, j, 8) / 8,
        order.0 is Some ==> stand_in(order, order.0->0) == order.2,
        order.1 is Some ==> stand_in(order, order.1->0) == order.2,
{
    lemma_plain_sum(ring, order, j, 8);
    vstd::arithmetic::power2::lemma2_to64();
    let sum = replaced_sum(ring, order, j, 8);
    crate::fixed_point::lemma_l_shr(sum, 3, 8);
    reveal(crate::fixed_point::spec_extract_l);
}

/// Eight equal backgrounds are described as what they are.
pub proof fn law_steady_background_is_kept(
    ring: Seq<Word16>,
    order: (Option<int>, Option<int>, int),
    isf: Seq<Word16>,
    j: int,
)
    requires
        0 <= j < 16,
        0 <= order.2 < 8,
        forall|slot: int| 0 <= slot < 8 ==> #[trigger] ring[16 * slot + j] == isf[j],
    ensures
        mean_isf(ring, order)[j] == isf[j],
{
    law_noise_spectrum_is_the_mean(ring, order, j);
    lemma_steady_sum(ring, order, isf, j, 8);
}

proof fn lemma_steady_sum(
    ring: Seq<Word16>,
    order: (Option<int>, Option<int>, int),
    isf: Seq<Word16>,
    j: int,
    n: int,
)
    requires
        0 <= n <= 8,
        0 <= order.2 < 8,
        forall|slot: int| 0 <= slot < 8 ==> #[trigger] ring[16 * slot + j] == isf[j],
    ensures
        plain_sum(ring, order, j, n) == n * isf[j].0,
    decreases n,
{
    if n > 0 {
        lemma_steady_sum(ring, order, isf, j, n - 1);
        let slot = stand_in(order, n - 1);
        assert(ring[16 * slot + j] == isf[j]);
        let x = isf[j].0 as int;
        assert((n - 1) * x + x == n * x) by (nonlinear_arith);
    } else {
        let x = isf[j].0 as int;
        assert(0 * x == 0) by (nonlinear_arith);
    }
}

/// The sums of energies keep their order.
proof fn lemma_energy_sums(quiet: Seq<Word16>, loud: Seq<Word16>, n: int)
    requires
        0 <= n <= 8,
        forall|i: int| 0 <= i < 8 ==> (#[trigger] quiet[i]).0 <= loud[i].0,
    ensures
        energy_sum(quiet, n).0 <= energy_sum(loud, n).0,
    decreases n,
{
    reveal(crate::fixed_point::spec_add_s);
    if n > 0 {
        lemma_energy_sums(quiet, loud, n - 1);
        assert(quiet[n - 1].0 <= loud[n - 1].0);
    }
}

/// A louder background has no lower an energy index, and the index stays
/// within its six bits.
pub proof fn law_louder_background_has_a_higher_index(quiet: Seq<Word16>, loud: Seq<Word16>)
    requires
        forall|i: int| 0 <= i < 8 ==> (#[trigger] quiet[i]).0 <= loud[i].0,
    ensures
        0 <= energy_index(quiet).0 <= energy_index(loud).0 <= 63,
{
    reveal(energy_index);
    reveal(crate::fixed_point::spec_add_s);
    reveal(crate::fixed_point::spec_shr);
    reveal(crate::fixed_point::spec_mult);
    vstd::arithmetic::power2::lemma2_to64();
    lemma_energy_sums(quiet, loud, 8);
    let a = energy_sum(quiet, 8);
    let b = energy_sum(loud, 8);
    assert(shr(a, 2).0 == a.0 as int / 4 && shr(b, 2).0 == b.0 as int / 4);
    let p = add_s(shr(a, 2), Word16(512));
    let q = add_s(shr(b, 2), Word16(512));
    assert(p.0 <= q.0);
    let x = mult(p, Word16(21504));
    let y = mult(q, Word16(21504));
    assert(x.0 <= y.0);
    assert(shr(x, 6).0 == x.0 as int / 64 && shr(y, 6).0 == y.0 as int / 64);
}

/// The two ends play one level: what the encoder makes of an energy index is
/// what the decoder makes of the energy it reads from it.
pub proof fn law_two_ends_play_one_level(index: Word16)
    requires
        0 <= index.0 <= 63,
    ensures
        ({
            let log_en = mult(shl(index, 9), Word16(12483));
            index_level(index) == crate::dtx::noise_level(Word32((32768 * log_en.0) as i32))
        }),
{
    reveal(index_level);
    reveal(crate::dtx::noise_level);
    reveal(crate::fixed_point::spec_mult);
    reveal(crate::fixed_point::spec_shr);
    reveal(crate::fixed_point::spec_extract_h);
    reveal(crate::fixed_point::spec_extract_l);
    reveal(crate::fixed_point::spec_l_sub);
    reveal(crate::fixed_point::spec_l_deposit_h);
    vstd::arithmetic::power2::lemma2_to64();
    crate::fixed_point::lemma_shl(index, 9, 512);
    let log_en = mult(shl(index, 9), Word16(12483));
    let v = log_en.0 as int;
    assert(0 <= v <= 12483);
    let e = Word32((32768 * v) as i32);
    crate::fixed_point::lemma_l_shr(e, 9, 512);
    let s = crate::fixed_point::l_shr(e, 9);
    assert(s.0 == 64 * v);
    let whole = crate::fixed_point::extract_h(s);
    assert(whole.0 == v / 1024);
    assert(shr(log_en, 10).0 == v / 1024);
    let rest = crate::fixed_point::l_sub(s, crate::fixed_point::l_deposit_h(whole));
    assert(rest.0 == 64 * (v % 1024));
    crate::fixed_point::lemma_l_shr(rest, 1, 2);
    let fraction = Word16((v % 1024) as i16);
    crate::fixed_point::lemma_shl(fraction, 5, 32);
}

/// The buffered energy of a louder residual is no lower.
pub proof fn law_louder_residuals_are_buffered_louder(
    energy: Word32,
    louder: Word32,
    mode_index: int,
)
    requires
        0 < energy.0 <= louder.0,
        0 <= mode_index < 9,
    ensures
        buffered_energy(energy, mode_index).0 <= buffered_energy(louder, mode_index).0,
{
    law_logarithm_rises(energy, louder);
    law_logarithm_rises(louder, louder);
    reveal(crate::fixed_point::spec_add_s);
    reveal(crate::fixed_point::spec_sub_s);
    reveal(crate::fixed_point::spec_shr);
    vstd::arithmetic::power2::lemma2_to64();
    let (a, m) = log2(energy);
    let (b, n) = log2(louder);
    crate::fixed_point::lemma_shl(Word16(a), 7, 128);
    crate::fixed_point::lemma_shl(Word16(b), 7, 128);
    assert(shr(m, 8).0 == m.0 as int / 256 && shr(n, 8).0 == n.0 as int / 256);
    lemma_logarithm_fraction(energy);
    lemma_logarithm_fraction(louder);
}

} // verus!
