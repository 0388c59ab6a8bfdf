//! A speech frame's parameters, as the payload spells them.

use vstd::prelude::*;
use crate::bitstream::{field, lemma_field_bound, unsorted, CodecBits};
use crate::enc::pitch::{window_around, LagWindow, PIT_MAX, PIT_MIN};
use crate::enc::rate::Rate;
use crate::enc::subframe::{lemma_pulse_width, total_width};
use crate::fixed_point::DspContext;
use crate::isf_quant::{isf_indices_fit, IsfQuantizer};
use crate::lag::{decode_lag, lag_index_width, named_lag};
use crate::lp::NB_SUBFR;
use crate::mode::AmrMode;
use crate::sort_tables::{frame_bits, order_of};

verus! {

// ---------------------------------------------------------------------------
// The layout
// ---------------------------------------------------------------------------

/// Whether subframe `k` spells its lag in full rather than as a step from an
/// earlier one.
pub open spec fn lag_is_absolute(index: int, k: int) -> bool {
    k == 0 || (k == 2 && index > 0)
}

/// Whether lags are in quarters of a sample and each subframe says whether its
/// adaptive vector is filtered.
pub open spec fn lag_is_quartered(index: int) -> bool {
    index >= 2
}

/// Widths of the spectrum's indices.
pub open spec fn isf_field_widths(index: int) -> Seq<usize> {
    if index == 0 {
        seq![8, 8, 7, 7, 6]
    } else {
        seq![8, 8, 6, 7, 7, 5, 5]
    }
}

/// Widths of a subframe's codebook indices.
pub open spec fn pulse_field_widths(index: int) -> Seq<usize> {
    if index == 0 {
        seq![12]
    } else if index == 1 {
        seq![5, 5, 5, 5]
    } else if index == 2 {
        seq![9, 9, 9, 9]
    } else if index == 3 {
        seq![13, 13, 9, 9]
    } else if index == 4 {
        seq![13, 13, 13, 13]
    } else if index == 5 {
        seq![2, 2, 2, 2, 14, 14, 14, 14]
    } else if index == 6 {
        seq![10, 10, 2, 2, 10, 10, 14, 14]
    } else {
        seq![11, 11, 11, 11, 11, 11, 11, 11]
    }
}

/// Bits of all of a subframe's codebook indices.
pub open spec fn pulse_field_bits(index: int) -> int {
    if index == 0 {
        12
    } else if index == 1 {
        20
    } else if index == 2 {
        36
    } else if index == 3 {
        44
    } else if index == 4 {
        52
    } else if index == 5 {
        64
    } else if index == 6 {
        72
    } else {
        88
    }
}

/// Bits of the lag of subframe `k`.
pub open spec fn lag_field_bits(index: int, k: int) -> int {
    lag_index_width(lag_is_absolute(index, k), lag_is_quartered(index)) as int
}

/// Bits of the filter choice.
pub open spec fn ltp_field_bits(index: int) -> int {
    if lag_is_quartered(index) {
        1
    } else {
        0
    }
}

/// Bits of the gain index.
pub open spec fn gain_field_bits(index: int) -> int {
    if index <= 1 {
        6
    } else {
        7
    }
}

/// Bits of the high-band gain.
pub open spec fn band_field_bits(index: int) -> int {
    if index == 8 {
        4
    } else {
        0
    }
}

/// Bits of subframe `k`.
pub open spec fn subframe_field_bits(index: int, k: int) -> int {
    lag_field_bits(index, k) + ltp_field_bits(index) + pulse_field_bits(index) + gain_field_bits(
        index,
    ) + band_field_bits(index)
}

/// Where subframe `k` starts: behind the voice activity flag, the spectrum and
/// the subframes before it.
pub open spec fn subframe_start(index: int, k: int) -> int
    decreases k,
{
    if k <= 0 {
        if index == 0 {
            37
        } else {
            47
        }
    } else {
        subframe_start(index, k - 1) + subframe_field_bits(index, k - 1)
    }
}

// ---------------------------------------------------------------------------
// The fields
// ---------------------------------------------------------------------------

/// Consecutive fields from `at` on.
pub open spec fn fields_at(bits: Seq<u8>, at: int, widths: Seq<usize>) -> Seq<u16> {
    Seq::new(
        widths.len(),
        |j: int| field(bits, at + total_width(widths, j), widths[j] as int) as u16,
    )
}

/// The lag of subframe `k`, and its fraction in quarters. A step counts from
/// eight below the last lag that was spelled in full, or as near to that as
/// the range of lags allows.
pub open spec fn lag_at(bits: Seq<u8>, index: int, k: int) -> (int, int)
    decreases k,
{
    let raw = field(bits, subframe_start(index, k), lag_field_bits(index, k));
    if lag_is_absolute(index, k) || k <= 0 {
        named_lag(raw, 0, true, lag_is_quartered(index))
    } else {
        named_lag(raw, window_at(bits, index, k - 1).min as int, false, lag_is_quartered(index))
    }
}

/// The window that the steps after subframe `k` count from.
pub open spec fn window_at(bits: Seq<u8>, index: int, k: int) -> LagWindow
    decreases k,
{
    if lag_is_absolute(index, k) || k <= 0 {
        let raw = field(bits, subframe_start(index, k), lag_field_bits(index, k));
        window_around(named_lag(raw, 0, true, lag_is_quartered(index)).0)
    } else {
        window_at(bits, index, k - 1)
    }
}

/// A subframe's parameters as plain values.
pub struct SubframeFields {
    pub pitch_lag: int,
    pub pitch_frac: int,
    pub ltp_filter: bool,
    pub gain_index: int,
    pub pulses: Seq<u16>,
    pub hf_gain: Option<u16>,
}

/// A frame's parameters as plain values.
pub struct FrameFields {
    pub vad_flag: bool,
    pub isf_indices: Seq<u16>,
    pub subframes: Seq<SubframeFields>,
}

/// The parameters of subframe `k`.
pub open spec fn subframe_fields(bits: Seq<u8>, index: int, k: int) -> SubframeFields {
    let at = subframe_start(index, k);
    let ltp = at + lag_field_bits(index, k);
    let pulses = ltp + ltp_field_bits(index);
    let gain = pulses + pulse_field_bits(index);
    let band = gain + gain_field_bits(index);
    SubframeFields {
        pitch_lag: lag_at(bits, index, k).0,
        pitch_frac: lag_at(bits, index, k).1,
        ltp_filter: lag_is_quartered(index) && field(bits, ltp, 1) == 1,
        gain_index: field(bits, gain, gain_field_bits(index)),
        pulses: fields_at(bits, pulses, pulse_field_widths(index)),
        hf_gain: if index == 8 {
            Some(field(bits, band, 4) as u16)
        } else {
            None
        },
    }
}

/// Seven indices; what a rate does not send is zero.
pub open spec fn padded(indices: Seq<u16>) -> Seq<u16> {
    Seq::new(
        7,
        |j: int|
            if j < indices.len() {
                indices[j]
            } else {
                0u16
            },
    )
}

/// The parameters of a frame.
#[verifier::opaque]
pub open spec fn frame_fields(bits: Seq<u8>, index: int) -> FrameFields {
    FrameFields {
        vad_flag: field(bits, 0, 1) == 1,
        isf_indices: padded(fields_at(bits, 1, isf_field_widths(index))),
        subframes: Seq::new(4, |k: int| subframe_fields(bits, index, k)),
    }
}

/// The codec bits of a payload.
pub open spec fn payload_bits(payload: Seq<u8>, index: int) -> Seq<u8> {
    unsorted(order_of(index), payload, frame_bits(index)).take(frame_bits(index))
}

/// What a subframe of a frame that never arrived stands for: nothing in it is
/// read but its shape.
pub open spec fn placeholder_subframe() -> SubframeFields {
    SubframeFields {
        pitch_lag: 64,
        pitch_frac: 0,
        ltp_filter: false,
        gain_index: 0,
        pulses: Seq::empty(),
        hf_gain: None,
    }
}

/// The parameters that stand for a frame that never arrived.
pub open spec fn placeholder_fields() -> FrameFields {
    FrameFields {
        vad_flag: false,
        isf_indices: Seq::new(7, |j: int| 0u16),
        subframes: Seq::new(4, |k: int| placeholder_subframe()),
    }
}

/// What holds of a subframe that was read from a payload.
pub open spec fn subframe_fits(s: SubframeFields, index: int) -> bool {
    &&& PIT_MIN <= s.pitch_lag <= PIT_MAX
    &&& 0 <= s.pitch_frac <= 3
    &&& 0 <= s.gain_index < if index <= 1 {
        64int
    } else {
        128
    }
    &&& s.pulses.len() == pulse_field_widths(index).len()
    &&& s.hf_gain is Some ==> s.hf_gain->0 < 16
}

// ---------------------------------------------------------------------------
// Reading
// ---------------------------------------------------------------------------

/// One subframe's parameters.
#[derive(Debug, Clone)]
pub struct SubframeParams {
    /// Integer pitch lag, samples at 12.8 kHz.
    pub pitch_lag: u16,
    /// Its fraction, quarters of a sample.
    pub pitch_frac: u8,
    /// Whether the adaptive vector is used as it is, without the low-pass.
    pub ltp_filter: bool,
    /// Index of the gain pair.
    pub gain_index: u16,
    /// The codebook indices.
    pub pulses: Vec<u16>,
    /// The high-band gain index, where the rate sends one.
    pub hf_gain: Option<u16>,
}

impl SubframeParams {
    /// The parameters as plain values.
    pub open spec fn view(&self) -> SubframeFields {
        SubframeFields {
            pitch_lag: self.pitch_lag as int,
            pitch_frac: self.pitch_frac as int,
            ltp_filter: self.ltp_filter,
            gain_index: self.gain_index as int,
            pulses: self.pulses@,
            hf_gain: self.hf_gain,
        }
    }
}

/// One frame's parameters.
#[derive(Debug, Clone)]
pub struct FrameParams {
    /// Whether the encoder saw voice activity.
    pub vad_flag: bool,
    /// The spectrum's indices; a rate with five leaves the last two at zero.
    pub isf_indices: [u16; 7],
    /// The four subframes.
    pub subframes: Vec<SubframeParams>,
}

/// Whether `p` holds the parameters `f`.
pub open spec fn params_are(p: FrameParams, f: FrameFields) -> bool {
    &&& p.vad_flag == f.vad_flag
    &&& p.isf_indices@ == f.isf_indices
    &&& p.subframes@.len() == 4
    &&& f.subframes.len() == 4
    &&& forall|k: int| 0 <= k < 4 ==> (#[trigger] p.subframes@[k])@ == f.subframes[k]
}

/// Read the next field, which the caller knows to be there.
fn next_field(bits: &mut CodecBits, width: usize) -> (value: u16)
    requires
        old(bits).wf(),
        width <= 14,
        0 <= old(bits).position(),
        old(bits).position() + width <= old(bits)@.len(),
    ensures
        final(bits).wf(),
        final(bits)@ == old(bits)@,
        final(bits).position() == old(bits).position() + width,
        value == field(old(bits)@, old(bits).position(), width as int),
        value < vstd::arithmetic::power2::pow2(width as nat),
{
    proof {
        bits.lemma_bits();
        lemma_field_bound(bits@, bits.position(), width as int);
    }
    match bits.take(width) {
        Some(value) => value,
        None => 0,
    }
}

/// Read consecutive fields.
fn next_fields(bits: &mut CodecBits, widths: &Vec<usize>) -> (values: Vec<u16>)
    requires
        old(bits).wf(),
        0 <= old(bits).position(),
        forall|k: int| 0 <= k < widths@.len() ==> 1 <= #[trigger] widths@[k] <= 14,
        old(bits).position() + total_width(widths@, widths@.len() as int) <= old(bits)@.len(),
    ensures
        final(bits).wf(),
        final(bits)@ == old(bits)@,
        final(bits).position() == old(bits).position() + total_width(
            widths@,
            widths@.len() as int,
        ),
        values@ == fields_at(old(bits)@, old(bits).position(), widths@),
        forall|k: int|
            0 <= k < widths@.len() ==> #[trigger] values@[k] < vstd::arithmetic::power2::pow2(
                widths@[k] as nat,
            ),
{
    let ghost all = bits@;
    let ghost at = bits.position();
    let mut values: Vec<u16> = Vec::new();
    for k in 0..widths.len()
        invariant
            bits.wf(),
            bits@ == all,
            0 <= at,
            at + total_width(widths@, widths@.len() as int) <= all.len(),
            forall|j: int| 0 <= j < widths@.len() ==> 1 <= #[trigger] widths@[j] <= 14,
            bits.position() == at + total_width(widths@, k as int),
            0 <= total_width(widths@, k as int),
            values@.len() == k,
            forall|j: int|
                0 <= j < k ==> #[trigger] values@[j] == fields_at(all, at, widths@)[j],
            forall|j: int|
                0 <= j < k ==> #[trigger] values@[j] < vstd::arithmetic::power2::pow2(
                    widths@[j] as nat,
                ),
    {
        proof {
            lemma_width_prefix(widths@, k + 1, widths@.len() as int);
        }
        let value: u16 = next_field(bits, widths[k]);
        values.push(value);
    }
    assert(values@ =~= fields_at(all, at, widths@));
    values
}

/// The widths of some of the fields come to no more than those of all.
proof fn lemma_width_prefix(widths: Seq<usize>, k: int, n: int)
    requires
        0 <= k <= n <= widths.len(),
    ensures
        0 <= total_width(widths, k) <= total_width(widths, n),
    decreases n,
{
    if k < n {
        lemma_width_prefix(widths, k, n - 1);
    } else if k > 0 {
        lemma_width_prefix(widths, k - 1, n - 1);
    }
}

/// The widths of the layout add up to the frame.
pub proof fn law_fields_fill_the_frame(index: int)
    requires
        0 <= index <= 8,
    ensures
        subframe_start(index, 4) == frame_bits(index),
        1 + total_width(isf_field_widths(index), isf_field_widths(index).len() as int)
            == subframe_start(index, 0),
        total_width(pulse_field_widths(index), pulse_field_widths(index).len() as int)
            == pulse_field_bits(index),
{
    reveal_with_fuel(subframe_start, 5);
    reveal_with_fuel(total_width, 9);
}

/// Read subframe `k`; `window` is what its step would count from, and becomes
/// what the next one's counts from.
fn next_subframe(bits: &mut CodecBits, rate: Rate, k: usize, window: &mut LagWindow) -> (s:
    SubframeParams)
    requires
        old(bits).wf(),
        rate.spec_index() <= 8,
        k < 4,
        old(bits)@.len() == frame_bits(rate.spec_index() as int),
        old(bits).position() == subframe_start(rate.spec_index() as int, k as int),
        k > 0 ==> *old(window) == window_at(old(bits)@, rate.spec_index() as int, k - 1),
        PIT_MIN <= old(window).min <= PIT_MAX - 15,
    ensures
        final(bits).wf(),
        final(bits)@ == old(bits)@,
        final(bits).position() == subframe_start(rate.spec_index() as int, k + 1),
        *final(window) == window_at(old(bits)@, rate.spec_index() as int, k as int),
        PIT_MIN <= final(window).min <= PIT_MAX - 15,
        s@ == subframe_fields(old(bits)@, rate.spec_index() as int, k as int),
        subframe_fits(s@, rate.spec_index() as int),
{
    let ghost index = rate.spec_index() as int;
    let ghost all = bits@;
    let number: u8 = rate.index();
    let absolute = k == 0 || (k == 2 && number > 0);
    let quartered = number >= 2;
    proof {
        law_fields_fill_the_frame(index);
        lemma_start_grows(index, k + 1, 4);
        lemma_start_grows(index, 0, k as int);
        lemma_pulse_width(rate);
        vstd::arithmetic::power2::lemma2_to64();
    }
    let width: usize = crate::lag::lag_index_width(absolute, quartered);
    let raw: u16 = next_field(bits, width);
    let (lag, frac) = decode_lag(
        raw,
        if absolute {
            0
        } else {
            window.min
        },
        absolute,
        quartered,
    );
    if absolute {
        let mut ctx = DspContext::default();
        *window = LagWindow::around(&mut ctx, lag);
    }
    let ltp_filter = if quartered {
        next_field(bits, 1) == 1
    } else {
        false
    };
    let widths: Vec<usize> = rate.pulse_index_widths();
    let pulses: Vec<u16> = next_fields(bits, &widths);
    let gain_index: u16 = next_field(
        bits,
        if number <= 1 {
            6
        } else {
            7
        },
    );
    let hf_gain: Option<u16> = if number == 8 {
        Some(next_field(bits, 4))
    } else {
        None
    };
    SubframeParams { pitch_lag: lag as u16, pitch_frac: frac, ltp_filter, gain_index, pulses, hf_gain }
}

/// Each subframe starts where the one before it ends.
proof fn lemma_start_grows(index: int, k: int, n: int)
    requires
        0 <= k <= n,
    ensures
        37 <= subframe_start(index, k) <= subframe_start(index, n),
    decreases n,
{
    if k < n {
        lemma_start_grows(index, k, n - 1);
    } else if k > 0 {
        lemma_start_grows(index, k - 1, n - 1);
    }
}

impl FrameParams {
    /// Read a frame of a wideband mode; `None` where the payload is too short
    /// for it.
    #[must_use]
    pub fn parse(mode: AmrMode, payload: &[u8]) -> (r: Option<FrameParams>)
        ensures
            r is Some <==> mode.spec_index() <= 8 && 8 * payload@.len() >= frame_bits(
                mode.spec_index() as int,
            ),
            r is Some ==> ({
                let index = mode.spec_index() as int;
                let fields = frame_fields(payload_bits(payload@, index), index);
                &&& params_are(r->0, fields)
                &&& isf_indices_fit(
                    if index == 0 {
                        IsfQuantizer::Bits36
                    } else {
                        IsfQuantizer::Bits46
                    },
                    r->0.isf_indices@,
                )
                &&& forall|k: int|
                    0 <= k < 4 ==> subframe_fits((#[trigger] r->0.subframes@[k])@, index)
            }),
    {
        let rate = match Rate::from_index(mode.index()) {
            Some(rate) => rate,
            None => return None,
        };
        let mut bits = match CodecBits::unpack(mode, payload) {
            Some(bits) => bits,
            None => return None,
        };
        let ghost index = rate.spec_index() as int;
        let ghost all = bits@;
        proof {
            reveal(frame_fields);
            law_fields_fill_the_frame(index);
            lemma_start_grows(index, 0, 4);
            vstd::arithmetic::power2::lemma2_to64();
            bits.lemma_bits();
            crate::sort_tables::lemma_order_length(index);
        }
        let vad_flag = next_field(&mut bits, 1) == 1;
        let widths: Vec<usize> = rate.isf_index_widths();
        let indices: Vec<u16> = next_fields(&mut bits, &widths);
        let mut isf_indices: [u16; 7] = [0; 7];
        for j in 0..indices.len()
            invariant
                indices@.len() <= 7,
                forall|i: int| 0 <= i < j ==> #[trigger] isf_indices@[i] == indices@[i],
                forall|i: int| j <= i < 7 ==> #[trigger] isf_indices@[i] == 0,
        {
            isf_indices[j] = indices[j];
        }
        assert(isf_indices@ =~= padded(indices@));
        let mut window = LagWindow { min: PIT_MIN, max: PIT_MIN + 15 };
        let mut subframes: Vec<SubframeParams> = Vec::new();
        for k in 0..NB_SUBFR
            invariant
                rate.spec_index() == index,
                index <= 8,
                bits.wf(),
                bits@ == all,
                all.len() == frame_bits(index),
                bits.position() == subframe_start(index, k as int),
                k > 0 ==> window == window_at(all, index, k - 1),
                PIT_MIN <= window.min <= PIT_MAX - 15,
                subframes@.len() == k,
                forall|i: int|
                    0 <= i < k ==> (#[trigger] subframes@[i])@ == subframe_fields(all, index, i),
                forall|i: int| 0 <= i < k ==> subframe_fits((#[trigger] subframes@[i])@, index),
        {
            let s = next_subframe(&mut bits, rate, k, &mut window);
            subframes.push(s);
        }
        let p = FrameParams { vad_flag, isf_indices, subframes };
        Some(p)
    }

    /// The parameters that stand for a frame that never arrived.
    pub fn placeholder() -> (p: FrameParams)
        ensures
            params_are(p, placeholder_fields()),
    {
        let mut subframes: Vec<SubframeParams> = Vec::new();
        for k in 0..NB_SUBFR
            invariant
                subframes@.len() == k,
                forall|i: int| 0 <= i < k ==> (#[trigger] subframes@[i])@ == placeholder_subframe(),
        {
            let s = SubframeParams {
                pitch_lag: 64,
                pitch_frac: 0,
                ltp_filter: false,
                gain_index: 0,
                pulses: Vec::new(),
                hf_gain: None,
            };
            assert(s.pulses@ =~= Seq::<u16>::empty());
            subframes.push(s);
        }
        let p = FrameParams { vad_flag: false, isf_indices: [0; 7], subframes };
        assert(p.isf_indices@ =~= placeholder_fields().isf_indices);
        p
    }
}

} // verus!
