//! The assembled decoder: payload in, 16 kHz speech out.

use vstd::prelude::*;
use crate::bitstream::{field, parse_sid, sid_bits};
use crate::conceal::{begun, FrameQuality, L_SUBFR};
use crate::dtx::{
    dtx_inv, dtx_reset, noise_excitation, noise_parameters, received, rx_state, synthesised,
    with_speech_frame, with_targets, DtxDecoder, DtxState, DtxView, RxFrameType, SidFields,
    ISF_INIT,
};
use crate::enc::shaping::{stability, stability_of};
use crate::enhance::DispersionPulses;
use crate::excitation::current;
use crate::fixed_point::{add_s, l_deposit_h, l_shl, round, DspContext, Word16};
use crate::highband::L_SUBFR16K;
use crate::isf_noise::{indices_fit, NoiseCodebooks, LP_ORDER};
use crate::isf_quant::{
    frame_isf, isf_after, isf_indices_fit, isf_reset, IsfCodebooks, IsfDecoder, IsfQuantizer,
    IsfView,
};
use crate::lp::{
    interpolate_isp, isf_to_isp, isp_of, isp_to_lp_adaptive, law_interpolating_with_itself, lp_of,
    subframe_lp, NB_SUBFR,
};
use crate::math::{scale_sig, scaled, scaled_seq};
use crate::mode::{AmrMode, AmrVariant};
use crate::noise::{drawn, lemma_drawn_adds};
use crate::output::{
    law_high_band_draws_alike, output_after, output_of, output_reset, OutputStage, OutputView,
    SynthesisInputs, SynthesisView,
};
use crate::params::{
    frame_fields, params_are, payload_bits, placeholder_fields, subframe_fits, FrameFields,
    FrameParams,
};
use crate::sort_tables::frame_bits;
use crate::speech::{
    core_after, core_inv, core_reset, core_restarted, heard_excitation, readable, subframe_scaling,
    total_excitation, CoreView, SpeechCore, SpeechView,
};

verus! {

/// Samples one frame produces, at 16 kHz.
pub const FRAME_SIZE_16K: usize = 320;

/// Samples of a frame's excitation.
pub const FRAME_EXCITATION: usize = 256;

/// The tables that the decoder reads and does not compute.
pub struct DecoderTables {
    /// The codebooks of the speech spectra.
    pub isf: IsfCodebooks,
    /// The codebooks of the comfort-noise spectra.
    pub noise: NoiseCodebooks,
    /// The responses of the phase dispersion.
    pub dispersion: DispersionPulses,
    /// The interpolation filter to 16 kHz.
    pub up_taps: [i16; 120],
}

/// What the decoder carries from frame to frame, as plain values.
pub struct DecoderView {
    pub isf: IsfView,
    pub core: CoreView,
    pub output: OutputView,
    /// The previous frame's pairs, for interpolation.
    pub isp_old: Seq<Word16>,
    /// The previous frame's spectrum, for the stability measure.
    pub isf_old: Seq<Word16>,
    pub dtx: DtxView,
    /// Whether there is a frame to interpolate from.
    pub started: bool,
    /// Frames since the encoder last saw voice activity.
    pub vad_history: i16,
}

/// The decoder before anything was decoded.
pub open spec fn decoder_reset() -> DecoderView {
    DecoderView {
        isf: isf_reset(),
        core: core_reset(),
        output: output_reset(),
        isp_old: Seq::new(16, |i: int| Word16(0)),
        isf_old: Seq::new(16, |i: int| Word16(ISF_INIT@[i])),
        dtx: dtx_reset(),
        started: false,
        vad_history: 0,
    }
}

// ---------------------------------------------------------------------------
// Speech
// ---------------------------------------------------------------------------

/// A speech frame: what was read, and how it arrived.
pub struct FrameView {
    pub fields: FrameFields,
    pub quality: FrameQuality,
    pub frame_bits: usize,
}

/// Whether the frame is anything but intact.
pub open spec fn is_bad(f: FrameView) -> bool {
    f.quality != FrameQuality::Good
}

/// The quantiser of a frame size.
pub open spec fn quantizer_of(frame_bits: usize) -> IsfQuantizer {
    if frame_bits <= 132 {
        IsfQuantizer::Bits36
    } else {
        IsfQuantizer::Bits46
    }
}

/// The count of inactive frames. A bad frame's flag says nothing about the
/// talker, and does not move it.
pub open spec fn vad_history_of(v: DecoderView, f: FrameView) -> i16 {
    if is_bad(f) {
        v.vad_history
    } else if f.fields.vad_flag {
        0
    } else if v.vad_history == i16::MAX {
        i16::MAX
    } else {
        (v.vad_history + 1) as i16
    }
}

/// The frame's spectrum.
#[verifier::opaque]
pub open spec fn spectrum_of(v: DecoderView, t: DecoderTables, f: FrameView) -> Seq<Word16> {
    frame_isf(v.isf, t.isf, quantizer_of(f.frame_bits), f.fields.isf_indices, is_bad(f))
}

/// What is remembered of the frame's spectrum.
#[verifier::opaque]
pub open spec fn spectrum_state(v: DecoderView, t: DecoderTables, f: FrameView) -> IsfView {
    isf_after(v.isf, t.isf, quantizer_of(f.frame_bits), f.fields.isf_indices, is_bad(f))
}

/// The pairs that the frame is interpolated from: its own where there is no
/// earlier frame.
pub open spec fn isp_from(v: DecoderView, t: DecoderTables, f: FrameView) -> Seq<Word16> {
    if v.started {
        v.isp_old
    } else {
        isp_of(spectrum_of(v, t, f))
    }
}

/// The predictor of subframe `k`.
pub open spec fn predictor_of(v: DecoderView, t: DecoderTables, f: FrameView, k: int) -> Seq<Word16> {
    subframe_lp(isp_from(v, t, f), isp_of(spectrum_of(v, t, f)), k)
}

/// What subframe `k` of a frame reads.
pub open spec fn speech_at(v: DecoderView, t: DecoderTables, f: FrameView, k: int) -> SpeechView {
    SpeechView {
        fields: f.fields.subframes[k],
        quality: f.quality,
        frame_bits: f.frame_bits,
        stab_fac: stability_of(spectrum_of(v, t, f), v.isf_old),
        vad_history: vad_history_of(v, f),
    }
}

/// The subframe loop, as plain values.
pub struct DecodeLoop {
    pub core: CoreView,
    pub output: OutputView,
    /// Speech so far.
    pub pcm: Seq<i16>,
    /// The history's excitation so far, in one scaling.
    pub excitation: Seq<Word16>,
    /// That scaling.
    pub q: i16,
}

/// The samples of a subframe.
pub open spec fn words_out(x: Seq<Word16>) -> Seq<i16> {
    Seq::new(x.len(), |i: int| x[i].0)
}

/// What the synthesis of subframe `k` reads.
pub open spec fn synthesis_at(
    v: DecoderView,
    t: DecoderTables,
    f: FrameView,
    core: CoreView,
    k: int,
) -> SynthesisView {
    let s = speech_at(v, t, f, k);
    SynthesisView {
        a: predictor_of(v, t, f, k),
        excitation: heard_excitation(core, t.dispersion, s),
        q_new: subframe_scaling(core, s),
        subframe: k,
        frame_bits: f.frame_bits as int,
        hf_gain: if is_bad(f) {
            None
        } else {
            f.fields.subframes[k].hf_gain
        },
        isf: spectrum_of(v, t, f),
        isf_previous: v.isf_old,
        comfort_noise: false,
        vad_history: vad_history_of(v, f),
    }
}

/// The excitation so far brought into another scaling.
pub open spec fn rescaled_so_far(x: Seq<Word16>, from: i16, to: i16) -> Seq<Word16> {
    if from == to {
        x
    } else {
        scaled_seq(x, (to - from) as i16)
    }
}

/// One subframe of the loop.
#[verifier::opaque]
pub open spec fn loop_step(
    v: DecoderView,
    t: DecoderTables,
    f: FrameView,
    l: DecodeLoop,
    k: int,
) -> DecodeLoop {
    let s = speech_at(v, t, f, k);
    let q = subframe_scaling(l.core, s);
    let y = synthesis_at(v, t, f, l.core, k);
    DecodeLoop {
        core: core_after(l.core, s),
        output: output_after(l.output, y),
        pcm: l.pcm + words_out(output_of(l.output, t.up_taps@, y)),
        excitation: rescaled_so_far(l.excitation, l.q, q) + current(
            total_excitation(l.core, s).buffer,
        ),
        q,
    }
}

/// The subframe loop after `n` subframes.
pub open spec fn loop_run(v: DecoderView, t: DecoderTables, f: FrameView, n: int) -> DecodeLoop
    decreases n,
{
    if n <= 0 {
        DecodeLoop {
            core: v.core,
            output: v.output,
            pcm: Seq::empty(),
            excitation: Seq::empty(),
            q: 0,
        }
    } else {
        loop_step(v, t, f, loop_run(v, t, f, n - 1), n - 1)
    }
}

/// The speech of a frame.
pub open spec fn speech_of(v: DecoderView, t: DecoderTables, f: FrameView) -> Seq<i16> {
    loop_run(v, t, f, 4).pcm
}

/// The discontinuous-transmission state after a speech frame.
pub open spec fn dtx_after_speech(
    v: DecoderView,
    t: DecoderTables,
    f: FrameView,
    state: DtxState,
) -> DtxView {
    let l = loop_run(v, t, f, 4);
    let d = with_speech_frame(
        v.dtx,
        spectrum_of(v, t, f),
        scaled_seq(l.excitation, (-l.q) as i16),
    );
    DtxView {
        vad_history: if f.fields.vad_flag {
            Word16(0)
        } else {
            add_s(d.vad_history, Word16(1))
        },
        global_state: state,
        ..d
    }
}

/// The decoder after a speech frame.
#[verifier::opaque]
pub open spec fn after_speech(
    v: DecoderView,
    t: DecoderTables,
    f: FrameView,
    state: DtxState,
) -> DecoderView {
    let l = loop_run(v, t, f, 4);
    DecoderView {
        isf: spectrum_state(v, t, f),
        core: l.core,
        output: l.output,
        isp_old: isp_of(spectrum_of(v, t, f)),
        isf_old: spectrum_of(v, t, f),
        dtx: dtx_after_speech(v, t, f, state),
        started: true,
        vad_history: vad_history_of(v, f),
    }
}

// ---------------------------------------------------------------------------
// Comfort noise
// ---------------------------------------------------------------------------

/// A comfort-noise frame.
pub struct NoiseView {
    pub state: DtxState,
    pub frame_bits: usize,
    pub sid: Option<SidFields>,
}

/// The spectrum of the noise.
#[verifier::opaque]
pub open spec fn noise_spectrum(v: DecoderView, t: DecoderTables, n: NoiseView) -> Seq<Word16> {
    noise_parameters(with_targets(v.dtx, t.noise, n.sid)).0
}

/// The excitation of the noise.
#[verifier::opaque]
pub open spec fn noise_source(v: DecoderView, t: DecoderTables, n: NoiseView) -> Seq<Word16> {
    let w = with_targets(v.dtx, t.noise, n.sid);
    noise_excitation(w.cng_seed, noise_parameters(w).1)
}

/// What the synthesis of subframe `k` of the noise reads: one predictor for
/// the whole frame, no scaling, and at the highest rate a fixed gain where the
/// parameters arrived intact.
pub open spec fn noise_at(v: DecoderView, t: DecoderTables, n: NoiseView, k: int) -> SynthesisView {
    SynthesisView {
        a: lp_of(isp_of(noise_spectrum(v, t, n)), true),
        excitation: noise_source(v, t, n).subrange(64 * k, 64 * k + 64),
        q_new: 0,
        subframe: k,
        frame_bits: n.frame_bits as int,
        hf_gain: if n.frame_bits >= 477 && n.sid is Some {
            Some(1u16)
        } else {
            None
        },
        isf: noise_spectrum(v, t, n),
        isf_previous: v.isf_old,
        comfort_noise: true,
        vad_history: v.vad_history,
    }
}

/// The output and its state after `k` subframes of noise.
pub open spec fn noise_run(v: DecoderView, t: DecoderTables, n: NoiseView, k: int) -> (
    OutputView,
    Seq<i16>,
)
    decreases k,
{
    if k <= 0 {
        (v.output, Seq::empty())
    } else {
        let (o, pcm) = noise_run(v, t, n, k - 1);
        let s = noise_at(v, t, n, k - 1);
        (output_after(o, s), pcm + words_out(output_of(o, t.up_taps@, s)))
    }
}

/// The speech of a comfort-noise frame.
pub open spec fn noise_of(v: DecoderView, t: DecoderTables, n: NoiseView) -> Seq<i16> {
    noise_run(v, t, n, 4).1
}

/// The decoder after comfort noise. Not the seeds, not the filter memories
/// and not the gains start over; the next speech frame interpolates from
/// itself.
#[verifier::opaque]
pub open spec fn after_noise(v: DecoderView, t: DecoderTables, n: NoiseView) -> DecoderView {
    DecoderView {
        isf: isf_reset(),
        core: core_restarted(v.core),
        output: noise_run(v, t, n, 4).0,
        isp_old: v.isp_old,
        isf_old: noise_spectrum(v, t, n),
        dtx: DtxView { global_state: n.state, ..synthesised(v.dtx, t.noise, n.state, n.sid) },
        started: false,
        vad_history: v.vad_history,
    }
}

// ---------------------------------------------------------------------------
// Frames
// ---------------------------------------------------------------------------

/// How a frame's arrival looks to discontinuous transmission.
pub open spec fn arrival(quality: FrameQuality) -> RxFrameType {
    match quality {
        FrameQuality::Good => RxFrameType::SpeechGood,
        FrameQuality::Unusable => RxFrameType::SpeechLost,
        FrameQuality::Bad => RxFrameType::SpeechBad,
    }
}

/// Whether there is a frame to decode: a wideband mode, and enough bits for it
/// unless none are expected.
pub open spec fn frame_is_there(index: int, payload: Seq<u8>, quality: FrameQuality) -> bool {
    &&& index <= 8
    &&& quality == FrameQuality::Unusable || 8 * payload.len() >= frame_bits(index)
}

/// The frame that a payload stands for; of a lost one nothing is read.
pub open spec fn frame_of(index: int, payload: Seq<u8>, quality: FrameQuality) -> FrameView {
    FrameView {
        fields: if quality == FrameQuality::Unusable {
            placeholder_fields()
        } else {
            frame_fields(payload_bits(payload, index), index)
        },
        quality,
        frame_bits: frame_bits(index) as usize,
    }
}

/// The decoder at the opening of a frame.
pub open spec fn opened(v: DecoderView, quality: FrameQuality) -> DecoderView {
    DecoderView { core: CoreView { erasure: begun(v.core.erasure, quality), ..v.core }, ..v }
}

/// A frame whose place in discontinuous transmission is settled.
pub open spec fn settled_of(v: DecoderView, t: DecoderTables, f: FrameView, state: DtxState) -> Seq<
    i16,
> {
    if state == DtxState::Speech {
        speech_of(v, t, f)
    } else {
        noise_of(v, t, NoiseView { state, frame_bits: f.frame_bits, sid: None })
    }
}

/// The decoder after such a frame.
pub open spec fn after_settled(
    v: DecoderView,
    t: DecoderTables,
    f: FrameView,
    state: DtxState,
) -> DecoderView {
    if state == DtxState::Speech {
        after_speech(v, t, f, state)
    } else {
        after_noise(v, t, NoiseView { state, frame_bits: f.frame_bits, sid: None })
    }
}

/// The decoder once a speech frame's arrival is known.
pub open spec fn arrived(v: DecoderView, quality: FrameQuality) -> DecoderView {
    DecoderView { dtx: received(v.dtx, arrival(quality)), ..opened(v, quality) }
}

/// What every state keeps.
pub open spec fn decoder_inv(v: DecoderView) -> bool {
    &&& core_inv(v.core)
    &&& dtx_inv(v.dtx)
    &&& v.isp_old.len() == 16
    &&& v.isf_old.len() == 16
}

/// The fields of a comfort-noise payload.
pub open spec fn sid_of(t: RxFrameType, payload: Seq<u8>) -> Option<SidFields> {
    if t == RxFrameType::SidUpdate {
        let bits = sid_bits(payload);
        Some(
            SidFields {
                isf_indices: [
                    field(bits, 0, 6) as u16,
                    field(bits, 6, 6) as u16,
                    field(bits, 12, 6) as u16,
                    field(bits, 18, 5) as u16,
                    field(bits, 23, 5) as u16,
                ],
                energy_index: Word16(field(bits, 28, 6) as i16),
                dither: bits[34] == 1,
            },
        )
    } else {
        None
    }
}

/// What holds of a frame that was read, or of the shape that stands for one.
pub open spec fn frame_fits(f: FrameView) -> bool {
    &&& f.fields.isf_indices.len() == 7
    &&& f.fields.subframes.len() == 4
    &&& !is_bad(f) ==> isf_indices_fit(quantizer_of(f.frame_bits), f.fields.isf_indices)
    &&& forall|k: int|
        0 <= k < 4 ==> readable(
            (SpeechView {
                fields: #[trigger] f.fields.subframes[k],
                quality: f.quality,
                frame_bits: f.frame_bits,
                stab_fac: Word16(0),
                vad_history: 0,
            }),
        )
    &&& forall|k: int|
        0 <= k < 4 && (#[trigger] f.fields.subframes[k]).hf_gain is Some
            ==> f.fields.subframes[k].hf_gain->0 < 16
}

// ---------------------------------------------------------------------------
// Execution
// ---------------------------------------------------------------------------

/// A complete decoder.
///
/// One instance decodes one stream.
#[derive(Debug, Clone)]
pub struct Decoder {
    isf: IsfDecoder,
    core: SpeechCore,
    output: OutputStage,
    isp_old: [Word16; LP_ORDER],
    isf_old: [Word16; LP_ORDER],
    dtx: DtxDecoder,
    started: bool,
    vad_history: i16,
}

/// Put a subframe's samples into the frame.
fn put_samples(out: &mut [i16; FRAME_SIZE_16K], k: usize, samples: &[Word16; L_SUBFR16K])
    requires
        k < 4,
    ensures
        final(out)@.take(80 * k + 80) == old(out)@.take(80 * k as int) + words_out(samples@),
{
    let base: usize = k * L_SUBFR16K;
    for i in 0..L_SUBFR16K
        invariant
            k < 4,
            base == 80 * k,
            forall|j: int| 0 <= j < base ==> #[trigger] out@[j] == old(out)@[j],
            forall|j: int| base <= j < base + i ==> #[trigger] out@[j] == samples@[j - base].0,
    {
        out[base + i] = samples[i].0;
    }
    assert(out@.take(80 * k + 80) =~= old(out)@.take(80 * k as int) + words_out(samples@));
}

/// Bring the first `n` samples from one scaling into another.
fn rescale_so_far(x: &mut [Word16; FRAME_EXCITATION], n: usize, from: i16, to: i16)
    requires
        n <= 256,
        0 <= from <= 8,
        0 <= to <= 8,
    ensures
        final(x)@.take(n as int) == rescaled_so_far(old(x)@.take(n as int), from, to),
{
    if from == to {
        return;
    }
    let exp: i16 = to - from;
    for i in 0..n
        invariant
            n <= 256,
            forall|j: int| 0 <= j < i ==> #[trigger] x@[j] == scaled(old(x)@[j], exp),
            forall|j: int| i <= j < 256 ==> #[trigger] x@[j] == old(x)@[j],
    {
        x[i] = round(l_shl(l_deposit_h(x[i]), exp));
    }
    assert(x@.take(n as int) =~= rescaled_so_far(old(x)@.take(n as int), from, to));
}

/// Append a subframe's excitation.
fn put_excitation(x: &mut [Word16; FRAME_EXCITATION], k: usize, block: &[Word16; L_SUBFR])
    requires
        k < 4,
    ensures
        final(x)@.take(64 * k + 64) == old(x)@.take(64 * k as int) + block@,
{
    let base: usize = k * L_SUBFR;
    for i in 0..L_SUBFR
        invariant
            k < 4,
            base == 64 * k,
            forall|j: int| 0 <= j < base ==> #[trigger] x@[j] == old(x)@[j],
            forall|j: int| base <= j < base + i ==> #[trigger] x@[j] == block@[j - base],
    {
        x[base + i] = block[i];
    }
    assert(x@.take(64 * k + 64) =~= old(x)@.take(64 * k as int) + block@);
}

/// A subframe of a frame's excitation.
fn block_at(x: &[Word16; FRAME_EXCITATION], k: usize) -> (block: [Word16; L_SUBFR])
    requires
        k < 4,
    ensures
        block@ == x@.subrange(64 * k as int, 64 * k + 64),
{
    let mut block: [Word16; L_SUBFR] = [Word16(0); L_SUBFR];
    for i in 0..L_SUBFR
        invariant
            k < 4,
            forall|j: int| 0 <= j < i ==> #[trigger] block@[j] == x@[64 * k + j],
    {
        block[i] = x[k * L_SUBFR + i];
    }
    assert(block@ =~= x@.subrange(64 * k as int, 64 * k + 64));
    block
}

/// The frame size of a mode.
fn bits_of_mode(index: u8) -> (bits: Option<usize>)
    ensures
        bits is Some <==> index <= 8,
        bits is Some ==> bits->0 == frame_bits(index as int),
{
    match index {
        0 => Some(132),
        1 => Some(177),
        2 => Some(253),
        3 => Some(285),
        4 => Some(317),
        5 => Some(365),
        6 => Some(397),
        7 => Some(461),
        8 => Some(477),
        _ => None,
    }
}

impl Decoder {
    /// The state as plain values.
    pub closed spec fn view(&self) -> DecoderView {
        DecoderView {
            isf: self.isf@,
            core: self.core@,
            output: self.output@,
            isp_old: self.isp_old@,
            isf_old: self.isf_old@,
            dtx: self.dtx.view(),
            started: self.started,
            vad_history: self.vad_history,
        }
    }

    /// The invariant.
    pub closed spec fn wf(&self) -> bool {
        decoder_inv(self@) && self.output.wf()
    }

    /// A decoder in its reset state.
    #[must_use]
    pub fn new() -> (d: Self)
        ensures
            d.wf(),
            d@ == decoder_reset(),
    {
        let mut isf_old: [Word16; LP_ORDER] = [Word16(0); LP_ORDER];
        for i in 0..LP_ORDER
            invariant
                forall|j: int| 0 <= j < i ==> #[trigger] isf_old@[j] == Word16(ISF_INIT@[j]),
        {
            isf_old[i] = Word16(ISF_INIT[i]);
        }
        let d = Decoder {
            isf: IsfDecoder::new(),
            core: SpeechCore::new(),
            output: OutputStage::new(),
            isp_old: [Word16(0); LP_ORDER],
            isf_old,
            dtx: DtxDecoder::new(),
            started: false,
            vad_history: 0,
        };
        assert(d@.isp_old =~= decoder_reset().isp_old);
        assert(d@.isf_old =~= decoder_reset().isf_old);
        d
    }

    /// One subframe of speech.
    fn speech_subframe(
        &mut self,
        ctx: &mut DspContext,
        tables: &DecoderTables,
        params: &FrameParams,
        quality: FrameQuality,
        bits: usize,
        k: usize,
        spectrum: &FrameSpectrum,
        so_far: &mut FrameSoFar,
        Ghost(v): Ghost<DecoderView>,
        Ghost(f): Ghost<FrameView>,
    )
        requires
            old(self).core.wf(),
            old(self).output.wf(),
            k < 4,
            params_are(*params, f.fields),
            frame_fits(f),
            f.quality == quality,
            f.frame_bits == bits,
            spectrum_is(*spectrum, v, *tables, f),
            old(self).vad_history == vad_history_of(v, f),
            loop_is(*old(self), *old(so_far), loop_run(v, *tables, f, k as int), k as int),
        ensures
            final(self).core.wf(),
            final(self).output.wf(),
            loop_is(*final(self), *final(so_far), loop_run(v, *tables, f, k + 1), k + 1),
            final(self).isf == old(self).isf,
            final(self).isp_old == old(self).isp_old,
            final(self).isf_old == old(self).isf_old,
            final(self).dtx == old(self).dtx,
            final(self).started == old(self).started,
            final(self).vad_history == old(self).vad_history,
    {
        let ghost l = loop_run(v, *tables, f, k as int);
        let ghost s = speech_at(v, *tables, f, k as int);
        let p = &params.subframes[k];
        assert(p@ == f.fields.subframes[k as int]);
        let decoded = self.core.subframe(
            ctx,
            &tables.dispersion,
            p,
            quality,
            bits,
            spectrum.stab_fac,
            self.vad_history,
        );
        rescale_so_far(&mut so_far.excitation, k * L_SUBFR, so_far.q, decoded.q_new);
        so_far.q = decoded.q_new;
        put_excitation(&mut so_far.excitation, k, &decoded.total);
        let inputs = SynthesisInputs {
            a: &spectrum.a[k],
            excitation: &decoded.heard,
            q_new: decoded.q_new,
            subframe: k,
            frame_bits: bits,
            hf_gain: if quality != FrameQuality::Good {
                None
            } else {
                p.hf_gain
            },
            isf: &spectrum.isf,
            isf_previous: &spectrum.isf_previous,
            comfort_noise: false,
            vad_history: self.vad_history,
        };
        assert(inputs@ == synthesis_at(v, *tables, f, l.core, k as int));
        let samples = self.output.synthesise(&tables.up_taps, &inputs);
        put_samples(&mut so_far.out, k, &samples);
        proof {
            reveal(loop_step);
        }
    }

    /// The spectrum of a frame, and the predictors of its subframes.
    fn read_spectrum(
        &mut self,
        tables: &DecoderTables,
        params: &FrameParams,
        quality: FrameQuality,
        bits: usize,
        Ghost(f): Ghost<FrameView>,
    ) -> (spectrum: FrameSpectrum)
        requires
            old(self).wf(),
            params_are(*params, f.fields),
            frame_fits(f),
            f.quality == quality,
            f.frame_bits == bits,
        ensures
            final(self).wf(),
            spectrum_is(spectrum, old(self)@, *tables, f),
            final(self)@ == (DecoderView {
                isf: spectrum_state(old(self)@, *tables, f),
                isp_old: isp_of(spectrum_of(old(self)@, *tables, f)),
                isf_old: spectrum_of(old(self)@, *tables, f),
                started: true,
                vad_history: vad_history_of(old(self)@, f),
                ..old(self)@
            }),
    {
        let ghost v = self@;
        let bad = quality != FrameQuality::Good;
        let quantizer = if bits <= 132 {
            IsfQuantizer::Bits36
        } else {
            IsfQuantizer::Bits46
        };
        if !bad {
            if params.vad_flag {
                self.vad_history = 0;
            } else if self.vad_history < i16::MAX {
                self.vad_history = self.vad_history + 1;
            }
        }
        proof {
            reveal(spectrum_of);
            reveal(spectrum_state);
        }
        let isf = self.isf.decode(&tables.isf, quantizer, &params.isf_indices, bad);
        assert(isf@ == spectrum_of(v, *tables, f));
        let stab_fac = stability(&isf, &self.isf_old);
        let isf_previous = self.isf_old;
        self.isf_old = isf;
        let isp_new = isf_to_isp(&isf);
        if !self.started {
            self.isp_old = isp_new;
            self.started = true;
        }
        let a = interpolate_isp(&self.isp_old, &isp_new);
        self.isp_old = isp_new;
        let spectrum = FrameSpectrum { isf, isf_previous, stab_fac, a };
        assert(spectrum_is(spectrum, v, *tables, f));
        spectrum
    }

    /// A frame that is speech.
    fn decode_speech(
        &mut self,
        ctx: &mut DspContext,
        tables: &DecoderTables,
        params: &FrameParams,
        quality: FrameQuality,
        bits: usize,
        Ghost(f): Ghost<FrameView>,
    ) -> (out: [i16; FRAME_SIZE_16K])
        requires
            old(self).wf(),
            params_are(*params, f.fields),
            frame_fits(f),
            f.quality == quality,
            f.frame_bits == bits,
        ensures
            final(self).wf(),
            out@ == speech_of(old(self)@, *tables, f),
            final(self)@ == after_speech(old(self)@, *tables, f, DtxState::Speech),
    {
        let ghost v = self@;
        let spectrum = self.read_spectrum(tables, params, quality, bits, Ghost(f));
        let mut so_far = FrameSoFar {
            out: [0; FRAME_SIZE_16K],
            excitation: [Word16(0); FRAME_EXCITATION],
            q: 0,
        };
        let ghost start = loop_run(v, *tables, f, 0);
        assert(so_far.out@.take(0) =~= start.pcm);
        assert(so_far.excitation@.take(0) =~= start.excitation);
        let ghost mid = *self;
        for k in 0..NB_SUBFR
            invariant
                self.core.wf(),
                self.output.wf(),
                params_are(*params, f.fields),
                frame_fits(f),
                f.quality == quality,
                f.frame_bits == bits,
                spectrum_is(spectrum, v, *tables, f),
                self.vad_history == vad_history_of(v, f),
                loop_is(*self, so_far, loop_run(v, *tables, f, k as int), k as int),
                self.isf == mid.isf,
                self.isp_old == mid.isp_old,
                self.isf_old == mid.isf_old,
                self.dtx == mid.dtx,
                self.started == mid.started,
                self.vad_history == mid.vad_history,
        {
            self.speech_subframe(
                ctx,
                tables,
                params,
                quality,
                bits,
                k,
                &spectrum,
                &mut so_far,
                Ghost(v),
                Ghost(f),
            );
        }
        assert(so_far.out@.take(320) =~= so_far.out@);
        assert(so_far.excitation@.take(256) =~= so_far.excitation@);
        let down: i16 = -so_far.q;
        scale_sig(&mut so_far.excitation, down);
        self.dtx.observe_speech(ctx, &spectrum.isf, &so_far.excitation);
        self.dtx.observe_vad(ctx, params.vad_flag);
        self.dtx.commit(DtxState::Speech);
        proof {
            reveal(after_speech);
        }
        so_far.out
    }

    /// Synthesise one frame of comfort noise.
    ///
    /// Four differences from speech: one predictor for the whole frame rather
    /// than four interpolated ones, no scaling, a fixed high-band gain at the
    /// highest rate where the parameters arrived intact, and a partial restart
    /// afterwards.
    fn synthesise_comfort_noise(
        &mut self,
        ctx: &mut DspContext,
        tables: &DecoderTables,
        state: DtxState,
        bits: usize,
        sid: Option<SidFields>,
    ) -> (out: [i16; FRAME_SIZE_16K])
        requires
            old(self).wf(),
            sid is Some ==> indices_fit(sid->0.isf_indices@),
        ensures
            final(self).wf(),
            out@ == noise_of(
                old(self)@,
                *tables,
                (NoiseView { state, frame_bits: bits, sid }),
            ),
            final(self)@ == after_noise(
                old(self)@,
                *tables,
                (NoiseView { state, frame_bits: bits, sid }),
            ),
    {
        let ghost v = self@;
        let ghost n = NoiseView { state, frame_bits: bits, sid };
        proof {
            reveal(noise_spectrum);
            reveal(noise_source);
        }
        let (isf, excitation) = self.dtx.comfort_noise(ctx, &tables.noise, state, sid);
        let isp = isf_to_isp(&isf);
        let a = isp_to_lp_adaptive(&isp);
        let hf_gain: Option<u16> = if bits >= 477 && sid.is_some() {
            Some(1)
        } else {
            None
        };
        let mut out: [i16; FRAME_SIZE_16K] = [0; FRAME_SIZE_16K];
        assert(out@.take(0) =~= Seq::<i16>::empty());
        let ghost mid = *self;
        for k in 0..NB_SUBFR
            invariant
                self.output.wf(),
                n.frame_bits == bits,
                isf@ == noise_spectrum(v, *tables, n),
                excitation@ == noise_source(v, *tables, n),
                a@ == lp_of(isp_of(noise_spectrum(v, *tables, n)), true),
                hf_gain == (if n.frame_bits >= 477 && n.sid is Some {
                    Some(1u16)
                } else {
                    None
                }),
                self.output@ == noise_run(v, *tables, n, k as int).0,
                out@.take(80 * k as int) == noise_run(v, *tables, n, k as int).1,
                self.isf_old@ == v.isf_old,
                self.vad_history == v.vad_history,
                self.core == mid.core,
                self.isp_old == mid.isp_old,
                self.dtx == mid.dtx,
        {
            let block = block_at(&excitation, k);
            let isf_previous = self.isf_old;
            let inputs = SynthesisInputs {
                a: &a,
                excitation: &block,
                q_new: 0,
                subframe: k,
                frame_bits: bits,
                hf_gain,
                isf: &isf,
                isf_previous: &isf_previous,
                comfort_noise: true,
                vad_history: self.vad_history,
            };
            assert(inputs@ == noise_at(v, *tables, n, k as int));
            let samples = self.output.synthesise(&tables.up_taps, &inputs);
            put_samples(&mut out, k, &samples);
        }
        assert(out@.take(320) =~= out@);
        self.reset_after_comfort_noise();
        self.isf_old = isf;
        self.dtx.commit(state);
        proof {
            reveal(after_noise);
        }
        out
    }

    /// What a comfort-noise frame clears.
    ///
    /// Not the seeds, not the high-band filter memories, not the synthesis or
    /// de-emphasis state: the next speech frame has to continue the same
    /// background. It interpolates from itself rather than from a stale
    /// spectrum.
    fn reset_after_comfort_noise(&mut self)
        requires
            old(self).wf(),
        ensures
            final(self).wf(),
            final(self)@ == (DecoderView {
                isf: isf_reset(),
                core: core_restarted(old(self)@.core),
                started: false,
                ..old(self)@
            }),
    {
        self.isf = IsfDecoder::new();
        self.core.restart();
        self.started = false;
    }

    /// [`Self::decode_frame`], optionally with the state of discontinuous
    /// transmission already decided: its bookkeeping runs once per frame, and
    /// running it again would count the frame twice.
    fn decode_frame_with_state(
        &mut self,
        tables: &DecoderTables,
        mode: AmrMode,
        payload: &[u8],
        quality: FrameQuality,
        decided: Option<DtxState>,
    ) -> (r: Option<[i16; FRAME_SIZE_16K]>)
        requires
            old(self).wf(),
        ensures
            final(self).wf(),
            r is Some <==> frame_is_there(mode.spec_index() as int, payload@, quality),
            r is None ==> final(self)@ == old(self)@,
            r is Some ==> ({
                let f = frame_of(mode.spec_index() as int, payload@, quality);
                let (v, state) = match decided {
                    Some(state) => (opened(old(self)@, quality), state),
                    None => (
                        arrived(old(self)@, quality),
                        rx_state(old(self)@.dtx, arrival(quality)),
                    ),
                };
                &&& r->0@ == settled_of(v, *tables, f, state)
                &&& final(self)@ == after_settled(v, *tables, f, state)
            }),
    {
        let bits: usize = match bits_of_mode(mode.index()) {
            Some(bits) => bits,
            None => return None,
        };
        let ghost index = mode.spec_index() as int;
        let ghost f = frame_of(index, payload@, quality);
        let params = if quality == FrameQuality::Unusable {
            FrameParams::placeholder()
        } else {
            match FrameParams::parse(mode, payload) {
                Some(params) => params,
                None => return None,
            }
        };
        proof {
            lemma_frame_fits(params, index, payload@, quality);
        }
        self.core.begin_frame(quality);
        let mut ctx = DspContext::default();
        let state = match decided {
            Some(state) => state,
            None => {
                let rx_type = match quality {
                    FrameQuality::Good => RxFrameType::SpeechGood,
                    FrameQuality::Unusable => RxFrameType::SpeechLost,
                    FrameQuality::Bad => RxFrameType::SpeechBad,
                };
                self.dtx.receive(&mut ctx, rx_type)
            },
        };
        match state {
            DtxState::Speech => Some(
                self.decode_speech(&mut ctx, tables, &params, quality, bits, Ghost(f)),
            ),
            _ => Some(self.synthesise_comfort_noise(&mut ctx, tables, state, bits, None)),
        }
    }

    /// Decode one intact frame's payload into 320 samples at 16 kHz.
    ///
    /// Returns `None` if the payload does not parse for this mode. A receiver
    /// that knows a frame arrived damaged or not at all must say so through
    /// [`Self::decode_frame`].
    #[must_use]
    pub fn decode(&mut self, tables: &DecoderTables, mode: AmrMode, payload: &[u8]) -> (r: Option<
        [i16; FRAME_SIZE_16K],
    >)
        requires
            old(self).wf(),
        ensures
            final(self).wf(),
            r is Some <==> frame_is_there(mode.spec_index() as int, payload@, FrameQuality::Good),
            r is None ==> final(self)@ == old(self)@,
            r is Some ==> ({
                let f = frame_of(mode.spec_index() as int, payload@, FrameQuality::Good);
                let v = arrived(old(self)@, FrameQuality::Good);
                &&& r->0@ == speech_of(v, *tables, f)
                &&& final(self)@ == after_speech(v, *tables, f, DtxState::Speech)
            }),
    {
        self.decode_frame(tables, mode, payload, FrameQuality::Good)
    }

    /// Decode one frame, saying how it arrived.
    ///
    /// The payload is still read on a damaged frame: some bits are wrong, and
    /// the algebraic codebook and the filter choice are decoded regardless.
    /// Only of a lost frame is it ignored entirely: pass an empty slice, along
    /// with the mode the stream was last using.
    ///
    /// Returns `None` if a payload that should be there does not parse for
    /// this mode.
    #[must_use]
    pub fn decode_frame(
        &mut self,
        tables: &DecoderTables,
        mode: AmrMode,
        payload: &[u8],
        quality: FrameQuality,
    ) -> (r: Option<[i16; FRAME_SIZE_16K]>)
        requires
            old(self).wf(),
        ensures
            final(self).wf(),
            r is Some <==> frame_is_there(mode.spec_index() as int, payload@, quality),
            r is None ==> final(self)@ == old(self)@,
            r is Some ==> ({
                let f = frame_of(mode.spec_index() as int, payload@, quality);
                let v = arrived(old(self)@, quality);
                let state = rx_state(old(self)@.dtx, arrival(quality));
                &&& r->0@ == settled_of(v, *tables, f, state)
                &&& final(self)@ == after_settled(v, *tables, f, state)
            }),
    {
        self.decode_frame_with_state(tables, mode, payload, quality, None)
    }

    /// Decode a comfort-noise or empty frame.
    ///
    /// `payload` is the five bytes of a SID, or empty where nothing was sent.
    /// A gap during speech is a lost frame, and is concealed. Returns `None`
    /// where `mode_index` names no speech mode.
    pub fn decode_comfort_noise(
        &mut self,
        tables: &DecoderTables,
        frame_type: RxFrameType,
        payload: &[u8],
        mode_index: u8,
    ) -> (r: Option<[i16; FRAME_SIZE_16K]>)
        requires
            old(self).wf(),
            frame_type == RxFrameType::SidUpdate ==> payload@.len() == 5,
        ensures
            final(self).wf(),
            r is Some <==> mode_index <= 8,
            r is None ==> final(self)@ == old(self)@,
            r is Some ==> ({
                let state = rx_state(old(self)@.dtx, frame_type);
                let v = DecoderView { dtx: received(old(self)@.dtx, frame_type), ..old(self)@ };
                let frame_bits = frame_bits(mode_index as int) as usize;
                if state == DtxState::Speech {
                    let f = frame_of(mode_index as int, Seq::empty(), FrameQuality::Unusable);
                    &&& r->0@ == speech_of(opened(v, FrameQuality::Unusable), *tables, f)
                    &&& final(self)@ == after_speech(
                        opened(v, FrameQuality::Unusable),
                        *tables,
                        f,
                        state,
                    )
                } else {
                    let n = NoiseView { state, frame_bits, sid: sid_of(frame_type, payload@) };
                    &&& r->0@ == noise_of(v, *tables, n)
                    &&& final(self)@ == after_noise(v, *tables, n)
                }
            }),
    {
        let bits: usize = match bits_of_mode(mode_index) {
            Some(bits) => bits,
            None => return None,
        };
        let mut ctx = DspContext::default();
        let state = self.dtx.receive(&mut ctx, frame_type);
        if state == DtxState::Speech {
            let mode = match AmrMode::new(AmrVariant::WideBand, mode_index) {
                Some(mode) => mode,
                None => return None,
            };
            let nothing: [u8; 0] = [];
            assert(nothing@ =~= Seq::<u8>::empty());
            return self.decode_frame_with_state(
                tables,
                mode,
                &nothing,
                FrameQuality::Unusable,
                Some(state),
            );
        }
        let sid = if frame_type == RxFrameType::SidUpdate {
            read_sid(payload)
        } else {
            None
        };
        Some(self.synthesise_comfort_noise(&mut ctx, tables, state, bits, sid))
    }
}

/// Read the fields of a comfort-noise update.
fn read_sid(payload: &[u8]) -> (sid: Option<SidFields>)
    requires
        payload@.len() == 5,
    ensures
        sid == sid_of(RxFrameType::SidUpdate, payload@),
        sid is Some,
        indices_fit(sid->0.isf_indices@),
{
    match parse_sid(payload) {
        Some((isf_indices, energy, dither)) => {
            let ghost expected = sid_of(RxFrameType::SidUpdate, payload@)->0.isf_indices;
            assert(isf_indices@ =~= expected@);
            assert(isf_indices =~= expected);
            Some(SidFields { isf_indices, energy_index: Word16(energy as i16), dither })
        },
        None => None,
    }
}

/// A frame that was read, or the shape that stands for one, can be decoded.
proof fn lemma_frame_fits(p: FrameParams, index: int, payload: Seq<u8>, quality: FrameQuality)
    requires
        0 <= index <= 8,
        params_are(p, frame_of(index, payload, quality).fields),
        quality != FrameQuality::Unusable ==> isf_indices_fit(
            if index == 0 {
                IsfQuantizer::Bits36
            } else {
                IsfQuantizer::Bits46
            },
            p.isf_indices@,
        ),
        quality != FrameQuality::Unusable ==> forall|k: int|
            0 <= k < 4 ==> subframe_fits((#[trigger] p.subframes@[k])@, index),
    ensures
        frame_fits(frame_of(index, payload, quality)),
{
    let f = frame_of(index, payload, quality);
    assert forall|k: int| 0 <= k < 4 implies readable(
        (SpeechView {
            fields: #[trigger] f.fields.subframes[k],
            quality,
            frame_bits: f.frame_bits,
            stab_fac: Word16(0),
            vad_history: 0,
        }),
    ) && (f.fields.subframes[k].hf_gain is Some ==> f.fields.subframes[k].hf_gain->0 < 16) by {
        assert(p.subframes@[k]@ == f.fields.subframes[k]);
    }
}

/// What the subframes of a frame share.
struct FrameSpectrum {
    isf: [Word16; LP_ORDER],
    isf_previous: [Word16; LP_ORDER],
    stab_fac: Word16,
    a: [[Word16; 17]; NB_SUBFR],
}

/// What the subframe loop gathers.
struct FrameSoFar {
    out: [i16; FRAME_SIZE_16K],
    excitation: [Word16; FRAME_EXCITATION],
    q: i16,
}

spec fn spectrum_is(x: FrameSpectrum, v: DecoderView, t: DecoderTables, f: FrameView) -> bool {
    &&& x.isf@ == spectrum_of(v, t, f)
    &&& x.isf_previous@ == v.isf_old
    &&& x.stab_fac == stability_of(spectrum_of(v, t, f), v.isf_old)
    &&& forall|k: int| 0 <= k < 4 ==> (#[trigger] x.a@[k])@ == predictor_of(v, t, f, k)
}

spec fn loop_is(d: Decoder, x: FrameSoFar, l: DecodeLoop, k: int) -> bool {
    &&& d.core@ == l.core
    &&& d.output@ == l.output
    &&& x.out@.take(80 * k) == l.pcm
    &&& x.excitation@.take(64 * k) == l.excitation
    &&& x.q == l.q
    &&& 0 <= x.q <= 8
}

impl Default for Decoder {
    fn default() -> (d: Self)
        ensures
            d.wf(),
            d@ == decoder_reset(),
    {
        Self::new()
    }
}

// ---------------------------------------------------------------------------
// Laws
// ---------------------------------------------------------------------------

/// Of a lost frame the payload is not read: whatever bytes come with it, the
/// frame is there and is the same frame, so that it gives the same samples and
/// leaves the same decoder.
pub proof fn law_lost_frame_reads_no_payload(
    v: DecoderView,
    t: DecoderTables,
    index: int,
    p: Seq<u8>,
    q: Seq<u8>,
    state: DtxState,
)
    requires
        0 <= index <= 8,
    ensures
        frame_is_there(index, p, FrameQuality::Unusable),
        frame_is_there(index, q, FrameQuality::Unusable),
        ({
            let w = arrived(v, FrameQuality::Unusable);
            let f = frame_of(index, p, FrameQuality::Unusable);
            let g = frame_of(index, q, FrameQuality::Unusable);
            &&& f == g
            &&& settled_of(w, t, f, state) == settled_of(w, t, g, state)
            &&& after_settled(w, t, f, state) == after_settled(w, t, g, state)
        }),
{
}

/// A payload shorter than its frame is no frame, unless none was expected.
pub proof fn law_short_payload_is_no_frame(index: int, payload: Seq<u8>, quality: FrameQuality)
    requires
        8 * payload.len() < frame_bits(index),
        quality != FrameQuality::Unusable,
    ensures
        !frame_is_there(index, payload, quality),
{
}

/// A bad frame does not vote on voice activity, and no high-band gain of it is
/// believed.
pub proof fn law_bad_frame_casts_no_vote(
    v: DecoderView,
    t: DecoderTables,
    f: FrameView,
    core: CoreView,
    k: int,
)
    requires
        f.quality != FrameQuality::Good,
    ensures
        vad_history_of(v, f) == v.vad_history,
        synthesis_at(v, t, f, core, k).hf_gain is None,
{
}

/// What the loop draws for the high band.
proof fn lemma_loop_draws(v: DecoderView, t: DecoderTables, f: FrameView, n: int)
    requires
        0 <= n <= 4,
    ensures
        loop_run(v, t, f, n).output.seed == drawn(v.output.seed, 80 * n),
    decreases n,
{
    if n > 0 {
        lemma_loop_draws(v, t, f, n - 1);
        let l = loop_run(v, t, f, n - 1);
        reveal(loop_step);
        law_high_band_draws_alike(l.output, synthesis_at(v, t, f, l.core, n - 1));
        lemma_drawn_adds(v.output.seed, 80 * (n - 1), 80);
    }
}

/// What comfort noise draws for the high band.
proof fn lemma_noise_draws(v: DecoderView, t: DecoderTables, n: NoiseView, k: int)
    requires
        0 <= k <= 4,
    ensures
        noise_run(v, t, n, k).0.seed == drawn(v.output.seed, 80 * k),
    decreases k,
{
    if k > 0 {
        lemma_noise_draws(v, t, n, k - 1);
        let o = noise_run(v, t, n, k - 1).0;
        law_high_band_draws_alike(o, noise_at(v, t, n, k - 1));
        lemma_drawn_adds(v.output.seed, 80 * (k - 1), 80);
    }
}

/// Speech and comfort noise continue one background: a frame of either draws
/// the same 320 samples of the high band's noise, and the comfort-noise
/// restart does not touch its generator.
pub proof fn law_background_continues(
    v: DecoderView,
    t: DecoderTables,
    f: FrameView,
    state: DtxState,
    n: NoiseView,
)
    ensures
        after_speech(v, t, f, state).output.seed == drawn(v.output.seed, 320),
        after_noise(v, t, n).output.seed == drawn(v.output.seed, 320),
{
    reveal(after_speech);
    reveal(after_noise);
    lemma_loop_draws(v, t, f, 4);
    lemma_noise_draws(v, t, n, 4);
}

/// What comfort noise clears and what it keeps: the excitation, the pitch and
/// erasure history, the dispersion, the spectral prediction and the start flag
/// go; the gains, the interpolation memory and the activity count stay.
pub proof fn law_comfort_noise_restarts(v: DecoderView, t: DecoderTables, n: NoiseView)
    ensures
        ({
            let w = after_noise(v, t, n);
            &&& w.core == (CoreView { gains: v.core.gains, ..core_reset() })
            &&& w.isf == isf_reset()
            &&& !w.started
            &&& w.isp_old == v.isp_old
            &&& w.vad_history == v.vad_history
            &&& w.isf_old == noise_spectrum(v, t, n)
            &&& w.dtx.global_state == n.state
        }),
{
    reveal(after_noise);
}

/// With nothing to interpolate from, every subframe gets the frame's own
/// predictor.
pub proof fn law_first_frame_is_not_interpolated(
    v: DecoderView,
    t: DecoderTables,
    f: FrameView,
    k: int,
)
    requires
        !v.started,
        0 <= k < 4,
    ensures
        predictor_of(v, t, f, k) == lp_of(isp_of(spectrum_of(v, t, f)), false),
{
    let isp = isp_of(spectrum_of(v, t, f));
    assert(isp.len() == 16) by {
        reveal(isp_of);
        reveal(spectrum_of);
        reveal(crate::isf_quant::decoded_isf);
    }
    if k < 3 {
        law_interpolating_with_itself(isp, k);
    }
}

proof fn lemma_output_length(o: OutputView, taps: Seq<i16>, y: SynthesisView)
    ensures
        words_out(output_of(o, taps, y)).len() == 80,
{
    reveal(output_of);
}

proof fn lemma_loop_samples(v: DecoderView, t: DecoderTables, f: FrameView, k: int, n: int)
    requires
        0 <= k < n <= 4,
    ensures
        loop_run(v, t, f, n).pcm.len() == 80 * n,
        loop_run(v, t, f, n).pcm.subrange(80 * k, 80 * k + 80) == words_out(
            output_of(
                loop_run(v, t, f, k).output,
                t.up_taps@,
                synthesis_at(v, t, f, loop_run(v, t, f, k).core, k),
            ),
        ),
    decreases n,
{
    reveal(loop_step);
    let l = loop_run(v, t, f, n - 1);
    let y = synthesis_at(v, t, f, l.core, n - 1);
    let new = words_out(output_of(l.output, t.up_taps@, y));
    lemma_output_length(l.output, t.up_taps@, y);
    if n > 1 {
        lemma_loop_samples(v, t, f, if k < n - 1 {
            k
        } else {
            0
        }, n - 1);
    }
    if k < n - 1 {
        assert(loop_run(v, t, f, n).pcm.subrange(80 * k, 80 * k + 80) =~= l.pcm.subrange(
            80 * k,
            80 * k + 80,
        ));
    } else {
        assert(loop_run(v, t, f, n).pcm.subrange(80 * k, 80 * k + 80) =~= new);
    }
}

/// A frame is 320 samples, and the samples of each subframe stand where it
/// stands in the frame.
pub proof fn law_subframes_come_in_order(v: DecoderView, t: DecoderTables, f: FrameView, k: int)
    requires
        0 <= k < 4,
    ensures
        speech_of(v, t, f).len() == 320,
        speech_of(v, t, f).subrange(80 * k, 80 * k + 80) == words_out(
            output_of(
                loop_run(v, t, f, k).output,
                t.up_taps@,
                synthesis_at(v, t, f, loop_run(v, t, f, k).core, k),
            ),
        ),
{
    lemma_loop_samples(v, t, f, k, 4);
}

proof fn lemma_noise_samples(v: DecoderView, t: DecoderTables, n: NoiseView, k: int, m: int)
    requires
        0 <= k < m <= 4,
    ensures
        noise_run(v, t, n, m).1.len() == 80 * m,
        noise_run(v, t, n, m).1.subrange(80 * k, 80 * k + 80) == words_out(
            output_of(noise_run(v, t, n, k).0, t.up_taps@, noise_at(v, t, n, k)),
        ),
    decreases m,
{
    let (o, pcm) = noise_run(v, t, n, m - 1);
    let new = words_out(output_of(o, t.up_taps@, noise_at(v, t, n, m - 1)));
    lemma_output_length(o, t.up_taps@, noise_at(v, t, n, m - 1));
    if m > 1 {
        lemma_noise_samples(v, t, n, if k < m - 1 {
            k
        } else {
            0
        }, m - 1);
    }
    if k < m - 1 {
        assert(noise_run(v, t, n, m).1.subrange(80 * k, 80 * k + 80) =~= pcm.subrange(
            80 * k,
            80 * k + 80,
        ));
    } else {
        assert(noise_run(v, t, n, m).1.subrange(80 * k, 80 * k + 80) =~= new);
    }
}

/// Comfort noise fills a frame as speech does, and each subframe of it is made
/// from its own quarter of the noise.
pub proof fn law_noise_comes_in_order(v: DecoderView, t: DecoderTables, n: NoiseView, k: int)
    requires
        0 <= k < 4,
    ensures
        noise_of(v, t, n).len() == 320,
        noise_of(v, t, n).subrange(80 * k, 80 * k + 80) == words_out(
            output_of(noise_run(v, t, n, k).0, t.up_taps@, noise_at(v, t, n, k)),
        ),
        noise_at(v, t, n, k).excitation == noise_source(v, t, n).subrange(64 * k, 64 * k + 64),
        noise_at(v, t, n, k).comfort_noise,
{
    lemma_noise_samples(v, t, n, k, 4);
}

/// A frame's spectrum is the past of the frame that follows, which is then
/// interpolated from it.
pub proof fn law_spectrum_becomes_the_past(
    v: DecoderView,
    t: DecoderTables,
    f: FrameView,
    g: FrameView,
    state: DtxState,
    k: int,
)
    ensures
        ({
            let w = after_speech(v, t, f, state);
            &&& isp_from(w, t, g) == isp_of(spectrum_of(v, t, f))
            &&& synthesis_at(w, t, g, w.core, k).isf_previous == spectrum_of(v, t, f)
            &&& predictor_of(w, t, g, k) == subframe_lp(
                isp_of(spectrum_of(v, t, f)),
                isp_of(spectrum_of(w, t, g)),
                k,
            )
        }),
{
    reveal(after_speech);
}

/// Active speech resets the count of inactive frames, an inactive frame counts
/// one on, and a damaged frame leaves it.
pub proof fn law_inactive_frames_are_counted(
    v: DecoderView,
    t: DecoderTables,
    f: FrameView,
    state: DtxState,
)
    requires
        0 <= v.vad_history < i16::MAX,
    ensures
        ({
            let count = after_speech(v, t, f, state).vad_history;
            &&& f.quality != FrameQuality::Good ==> count == v.vad_history
            &&& f.quality == FrameQuality::Good && f.fields.vad_flag ==> count == 0
            &&& f.quality == FrameQuality::Good && !f.fields.vad_flag ==> count == v.vad_history + 1
        }),
{
    reveal(after_speech);
}

/// The frame that follows comfort noise is interpolated from itself, and the
/// noise's spectrum is what it is compared with.
pub proof fn law_speech_after_noise_starts_anew(
    v: DecoderView,
    t: DecoderTables,
    n: NoiseView,
    f: FrameView,
)
    ensures
        ({
            let w = after_noise(v, t, n);
            &&& isp_from(w, t, f) == isp_of(spectrum_of(w, t, f))
            &&& w.isf_old == noise_spectrum(v, t, n)
            &&& w.isf == isf_reset()
            &&& w.dtx.global_state == n.state
        }),
{
    reveal(after_noise);
}

/// A frame is judged by its quality alone: only an intact one counts as good
/// speech, and only one of which nothing arrived as lost.
pub proof fn law_arrival_follows_the_quality(quality: FrameQuality)
    ensures
        arrival(quality) == RxFrameType::SpeechGood <==> quality == FrameQuality::Good,
        arrival(quality) == RxFrameType::SpeechLost <==> quality == FrameQuality::Unusable,
        arrival(quality) == RxFrameType::SpeechBad <==> quality == FrameQuality::Bad,
{
}

/// Each subframe of speech is synthesised from its own fields, and the band's
/// gain is read only of an intact frame.
pub proof fn law_subframes_read_their_own_fields(
    v: DecoderView,
    t: DecoderTables,
    f: FrameView,
    core: CoreView,
    k: int,
)
    ensures
        speech_at(v, t, f, k).fields == f.fields.subframes[k],
        speech_at(v, t, f, k).stab_fac == stability_of(spectrum_of(v, t, f), v.isf_old),
        synthesis_at(v, t, f, core, k).subframe == k,
        f.quality == FrameQuality::Good ==> synthesis_at(v, t, f, core, k).hf_gain
            == f.fields.subframes[k].hf_gain,
        f.quality != FrameQuality::Good ==> synthesis_at(v, t, f, core, k).hf_gain is None,
        !synthesis_at(v, t, f, core, k).comfort_noise,
{
}

} // verus!
