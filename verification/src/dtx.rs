//! Discontinuous transmission in the decoder: classifying what arrived, and
//! building comfort noise.
//!
//! Classification runs on every frame, speech included: it maintains the
//! staleness counter that decides whether a later `SID_FIRST` may analyse
//! backwards.

use vstd::prelude::*;
use crate::fixed_point::{
    add_s, div_s, extract_h, extract_l, l_add, l_deposit_h, l_mac, l_mult, l_shr, l_sub,
    lemma_l_shr, lemma_shl, lemma_shr, mult, mult_r, sat16, shl, shr, sub_s, DspContext, Word16,
    Word32,
};
use crate::isf_noise::{dequantised, indices_fit, NoiseCodebooks, LP_ORDER};
use crate::math::{accumulate, law_logarithm_rises, lemma_logarithm_fraction, log2, mac_run, pow2};
use crate::noise::{drawn, levelled, levelled_noise, next_seed, NoiseGenerator};

verus! {

/// Frames of history the backward analysis averages.
pub const DTX_HIST_SIZE: usize = 8;

/// Hangover the encoder is assumed to apply, mirrored here.
pub const DTX_HANG_CONST: i16 = 7;

/// How stale the decoder's own analysis may get before a `SID_FIRST` is
/// allowed to trigger a backward analysis.
pub const DTX_ELAPSED_FRAMES_THRESH: i16 = 30;

/// Frames without a comfort-noise update after which the output fades.
pub const DTX_MAX_EMPTY_THRESH: i16 = 50;

/// The spectrum out of reset.
pub const ISF_INIT: [i16; 16] = [
    1024, 2048, 3072, 4096, 5120, 6144, 7168, 8192, 9216, 10240, 11264, 12288, 13312, 14336, 15360,
    3840,
];

/// How a frame arrived, as far as DTX is concerned.
#[derive(Debug, Clone, Copy, PartialEq, Eq, Structural)]
pub enum RxFrameType {
    /// Speech bits the transport believes.
    SpeechGood,
    /// Speech bits that may be damaged.
    SpeechBad,
    /// Nothing arrived.
    SpeechLost,
    /// The first comfort-noise frame of a silence. Its payload is blank.
    SidFirst,
    /// A comfort-noise frame carrying real parameters.
    SidUpdate,
    /// A comfort-noise frame whose bits may be damaged.
    SidBad,
    /// The sender deliberately transmitted nothing.
    NoData,
}

impl RxFrameType {
    /// Whether this frame is SID-shaped, whatever the state of its bits.
    pub open spec fn spec_is_sid(self) -> bool {
        self == RxFrameType::SidFirst || self == RxFrameType::SidUpdate || self
            == RxFrameType::SidBad
    }

    /// Whether this frame is SID-shaped, whatever the state of its bits.
    #[verifier::when_used_as_spec(spec_is_sid)]
    pub fn is_sid(self) -> (r: bool)
        ensures
            r == self.spec_is_sid(),
    {
        match self {
            RxFrameType::SidFirst | RxFrameType::SidUpdate | RxFrameType::SidBad => true,
            _ => false,
        }
    }
}

/// What the decoder should synthesise this frame.
#[derive(Debug, Clone, Copy, PartialEq, Eq, Structural, Hash)]
pub enum DtxState {
    /// Decode the frame normally.
    Speech,
    /// Synthesise comfort noise.
    ComfortNoise,
    /// Comfort noise, faded out: too long has passed with no update.
    Muted,
}

/// The five fields a usable SID payload carries.
#[derive(Debug, Clone, Copy, PartialEq, Eq)]
pub struct SidFields {
    /// The comfort-noise ISF codebook indices.
    pub isf_indices: [u16; 5],
    /// The quantised frame energy.
    pub energy_index: Word16,
    /// Whether to dither the synthesised noise.
    pub dither: bool,
}

/// Decoder DTX state.
pub struct DtxView {
    pub since_last_sid: Word16,
    /// One over the observed SID period, Q15: the interpolation slope.
    pub period_inv: Word16,
    /// Current and previous energy targets, Q9.
    pub log_en: Word16,
    pub old_log_en: Word16,
    /// Current and previous comfort-noise spectra.
    pub isf: Seq<Word16>,
    pub isf_old: Seq<Word16>,
    /// The last sample of the excitation generator.
    pub cng_seed: Word16,
    /// Ring of decoded speech spectra.
    pub isf_hist: Seq<Word16>,
    /// Ring of decoded speech energies, Q7.
    pub log_en_hist: Seq<Word16>,
    pub hist_ptr: int,
    pub hangover_count: Word16,
    pub elapsed_count: Word16,
    pub sid_frame: bool,
    pub valid_data: bool,
    pub hangover_added: bool,
    /// The *previous* frame's state.
    pub global_state: DtxState,
    /// Whether the comfort-noise parameters have ever been renewed.
    pub data_updated: bool,
    /// The last sample of the dithering generator.
    pub dither_seed: Word16,
    /// Latched from the last `SID_UPDATE` and sticky across the gaps.
    pub dither: bool,
    /// Consecutive frames whose VAD bit said no speech.
    pub vad_history: Word16,
}

/// The rings hold eight frames, and the pointer names one.
pub open spec fn dtx_inv(v: DtxView) -> bool {
    &&& v.isf.len() == 16 && v.isf_old.len() == 16
    &&& v.isf_hist.len() == 128 && v.log_en_hist.len() == 8
    &&& 0 <= v.hist_ptr < 8
}

/// The reset state.
pub open spec fn dtx_reset() -> DtxView {
    let isf = Seq::new(16, |i: int| Word16(ISF_INIT@[i]));
    DtxView {
        since_last_sid: Word16(0),
        period_inv: Word16(8192),
        log_en: Word16(3500),
        old_log_en: Word16(3500),
        isf,
        isf_old: isf,
        cng_seed: Word16(21845),
        isf_hist: Seq::new(128, |i: int| Word16(ISF_INIT@[i % 16])),
        log_en_hist: Seq::new(8, |i: int| Word16(437)),
        hist_ptr: 0,
        hangover_count: Word16(7),
        elapsed_count: Word16(32767),
        sid_frame: false,
        valid_data: false,
        hangover_added: false,
        global_state: DtxState::Speech,
        data_updated: false,
        dither_seed: Word16(21845),
        dither: false,
        vad_history: Word16(0),
    }
}

// ---------------------------------------------------------------------------
// Classification
// ---------------------------------------------------------------------------

/// Whether a frame keeps or starts comfort noise: every SID does, and so does
/// silence or damage while comfort noise is already running.
pub open spec fn stays_quiet(v: DtxView, t: RxFrameType) -> bool {
    t.is_sid() || (v.global_state != DtxState::Speech && (t == RxFrameType::NoData || t
        == RxFrameType::SpeechBad || t == RxFrameType::SpeechLost))
}

/// The decision on a frame. Once muted, only an update, speech, or damaged
/// speech leaves the mute; without an update for fifty frames it comes by
/// itself.
pub open spec fn rx_state(v: DtxView, t: RxFrameType) -> DtxState {
    if !stays_quiet(v, t) {
        DtxState::Speech
    } else if t != RxFrameType::SidUpdate && add_s(v.since_last_sid, Word16(1)).0
        > DTX_MAX_EMPTY_THRESH {
        DtxState::Muted
    } else if v.global_state == DtxState::Muted && (t == RxFrameType::SidBad || t
        == RxFrameType::SidFirst || t == RxFrameType::SpeechLost || t == RxFrameType::NoData) {
        DtxState::Muted
    } else {
        DtxState::ComfortNoise
    }
}

/// Whether the far end is presumed to be in comfort noise.
pub open spec fn encoder_quiet(v: DtxView, t: RxFrameType) -> bool {
    t.is_sid() || (t == RxFrameType::NoData && (v.global_state != DtxState::Speech
        || v.vad_history.0 >= DTX_HANG_CONST))
}

/// The state after a frame has been classified.
pub open spec fn received(v: DtxView, t: RxFrameType) -> DtxView {
    let elapsed = add_s(
        if !v.data_updated && t == RxFrameType::SidUpdate {
            Word16(0)
        } else {
            v.elapsed_count
        },
        Word16(1),
    );
    let quiet = encoder_quiet(v, t);
    let added = quiet && elapsed.0 > DTX_ELAPSED_FRAMES_THRESH;
    let state = rx_state(v, t);
    DtxView {
        since_last_sid: if stays_quiet(v, t) {
            add_s(v.since_last_sid, Word16(1))
        } else {
            Word16(0)
        },
        elapsed_count: if quiet && (added || v.hangover_count.0 == 0) {
            Word16(0)
        } else {
            elapsed
        },
        hangover_count: if !quiet {
            Word16(7)
        } else if added || v.hangover_count.0 == 0 {
            Word16(0)
        } else {
            sub_s(v.hangover_count, Word16(1))
        },
        hangover_added: added && !(state != DtxState::Speech && t == RxFrameType::SidBad),
        sid_frame: if state != DtxState::Speech {
            t.is_sid()
        } else {
            v.sid_frame
        },
        valid_data: if state != DtxState::Speech {
            t == RxFrameType::SidUpdate
        } else {
            v.valid_data
        },
        ..v
    }
}

// ---------------------------------------------------------------------------
// Backward analysis
// ---------------------------------------------------------------------------

/// The energy of a decoded frame, on the ring's scale.
pub open spec fn frame_log_energy(excitation: Seq<Word16>) -> Word16 {
    let sum = mac_run(Word32(0), excitation, 0, excitation, 0, excitation.len() as int);
    let (exponent, mantissa) = log2(l_shr(sum, 1));
    sub_s(add_s(shl(Word16(exponent), 7), shr(mantissa, 8)), Word16(1024))
}

/// A spectrum written to slot `p` of the ring.
pub open spec fn ring_with(ring: Seq<Word16>, p: int, isf: Seq<Word16>) -> Seq<Word16> {
    Seq::new(
        128,
        |i: int|
            if i / 16 == p {
                isf[i % 16]
            } else {
                ring[i]
            },
    )
}

/// Slot `p` of the ring.
pub open spec fn ring_slot(ring: Seq<Word16>, p: int) -> Seq<Word16> {
    Seq::new(16, |j: int| ring[16 * p + j])
}

/// The state after a decoded speech frame has been recorded.
pub open spec fn with_speech_frame(
    v: DtxView,
    isf: Seq<Word16>,
    excitation: Seq<Word16>,
) -> DtxView {
    let p = (v.hist_ptr + 1) % 8;
    DtxView {
        hist_ptr: p,
        isf_hist: ring_with(v.isf_hist, p, isf),
        log_en_hist: v.log_en_hist.update(p, frame_log_energy(excitation)),
        ..v
    }
}

/// The sum of the first `n` energies.
pub open spec fn energy_sum(s: Seq<Word16>, n: int) -> Word16
    decreases n,
{
    if n <= 0 {
        Word16(0)
    } else {
        add_s(energy_sum(s, n - 1), s[n - 1])
    }
}

/// The sum of coefficient `j` over the first `n` spectra of the ring.
pub open spec fn spectrum_sum(ring: Seq<Word16>, j: int, n: int) -> Word32
    decreases n,
{
    if n <= 0 {
        Word32(0)
    } else {
        l_add(spectrum_sum(ring, j, n - 1), Word32(ring[16 * (n - 1) + j].0 as i32))
    }
}

/// The state after the ring has been averaged, the newest frame counted twice.
pub open spec fn analysed_backwards(v: DtxView) -> DtxView {
    let twin = (v.hist_ptr + 1) % 8;
    let ring = ring_with(v.isf_hist, twin, ring_slot(v.isf_hist, v.hist_ptr));
    let energies = v.log_en_hist.update(twin, v.log_en_hist[v.hist_ptr]);
    let mean = add_s(shr(energy_sum(energies, 8), 1), Word16(1024));
    DtxView {
        isf_hist: ring,
        log_en_hist: energies,
        log_en: if mean.0 < 0 {
            Word16(0)
        } else {
            mean
        },
        isf: Seq::new(16, |j: int| extract_l(l_shr(spectrum_sum(ring, j, 8), 3))),
        ..v
    }
}

// ---------------------------------------------------------------------------
// Synthesis
// ---------------------------------------------------------------------------

/// `period` frames, at most 32, as an interpolation slope.
pub open spec fn period_slope(period: Word16) -> Word16 {
    let capped = if period.0 > 32 {
        Word16(32)
    } else {
        period
    };
    div_s(Word16(1024), shl(capped, 10))
}

/// The state after a SID frame's parameters have been taken in.
pub open spec fn renewed(
    v: DtxView,
    isf: Seq<Word16>,
    energy_index: Word16,
    dither: bool,
) -> DtxView {
    let log_en = mult(shl(energy_index, 9), Word16(12483));
    let fresh = !v.data_updated || v.global_state == DtxState::Speech;
    DtxView {
        period_inv: if v.since_last_sid.0 >= 2 {
            period_slope(v.since_last_sid)
        } else {
            Word16(16384)
        },
        isf,
        log_en,
        dither,
        isf_old: if fresh {
            isf
        } else {
            v.isf
        },
        old_log_en: if fresh {
            log_en
        } else {
            v.log_en
        },
        ..v
    }
}

/// The state once the frame's targets are known.
pub open spec fn with_targets(v: DtxView, books: NoiseCodebooks, sid: Option<SidFields>) -> DtxView {
    let v = if v.hangover_added && v.sid_frame {
        analysed_backwards(v)
    } else {
        v
    };
    let w = if v.sid_frame && v.valid_data && sid is Some {
        let fields = sid->0;
        renewed(v, dequantised(books, fields.isf_indices@), fields.energy_index, fields.dither)
    } else if v.sid_frame {
        DtxView { isf_old: v.isf, old_log_en: v.log_en, ..v }
    } else {
        v
    };
    if w.sid_frame && w.valid_data {
        DtxView { since_last_sid: Word16(0), ..w }
    } else {
        w
    }
}

/// How far the targets have been approached, Q14.
pub open spec fn blend_factor(v: DtxView) -> Word16 {
    let raw = mult(shl(v.since_last_sid, 10), v.period_inv);
    let capped = if raw.0 > 1024 {
        Word16(1024)
    } else {
        raw
    };
    shl(capped, 4)
}

/// The interpolated energy.
pub open spec fn blended_energy(v: DtxView) -> Word32 {
    let factor = blend_factor(v);
    l_mac(l_mult(factor, v.log_en), sub_s(Word16(16384), factor), v.old_log_en)
}

/// The interpolated spectrum.
pub open spec fn blended_isf(v: DtxView) -> Seq<Word16> {
    let factor = blend_factor(v);
    let complement = sub_s(Word16(16384), factor);
    Seq::new(
        16,
        |i: int| shl(add_s(mult(factor, v.isf[i]), mult(complement, v.isf_old[i])), 1),
    )
}

/// A triangular variate: two draws, halved and summed.
pub open spec fn triangular(seed: Word16) -> Word16 {
    add_s(shr(next_seed(seed), 1), shr(next_seed(next_seed(seed)), 1))
}

/// The perturbed energy.
pub open spec fn dithered_energy(energy: Word32, seed: Word16) -> Word32 {
    let e = l_add(energy, l_mult(triangular(seed), Word16(75)));
    if e.0 < 0 {
        Word32(0)
    } else {
        e
    }
}

/// Coefficient `i` perturbed, more so at higher frequencies, and kept apart
/// from the one before it.
pub open spec fn dithered_at(isf: Seq<Word16>, seed: Word16, i: int) -> Word16
    decreases i,
{
    let step = mult_r(triangular(drawn(seed, 2 + 2 * i)), Word16((256 + 2 * i) as i16));
    let candidate = add_s(isf[i], step);
    if i <= 0 {
        if candidate.0 < 128 {
            Word16(128)
        } else {
            candidate
        }
    } else {
        let before = dithered_at(isf, seed, i - 1);
        if sub_s(candidate, before).0 < 448 {
            add_s(before, Word16(448))
        } else {
            candidate
        }
    }
}

/// The perturbed spectrum.
pub open spec fn dithered_isf(isf: Seq<Word16>, seed: Word16) -> Seq<Word16> {
    Seq::new(
        16,
        |i: int|
            if i < 14 {
                dithered_at(isf, seed, i)
            } else if i == 14 {
                if dithered_at(isf, seed, 14).0 > 16384 {
                    Word16(16384)
                } else {
                    dithered_at(isf, seed, 14)
                }
            } else {
                isf[i]
            },
    )
}

/// The level of an interpolated energy.
#[verifier::opaque]
pub open spec fn noise_level(energy: Word32) -> Word32 {
    let e = l_shr(energy, 9);
    let exponent = extract_h(e);
    let mantissa = extract_l(l_shr(l_sub(e, l_deposit_h(exponent)), 1));
    pow2(add_s(exponent, Word16(15)).0, mantissa)
}

/// The excitation of one comfort-noise frame: noise brought to the energy.
pub open spec fn noise_excitation(seed: Word16, energy: Word32) -> Seq<Word16> {
    levelled(seed, noise_level(energy))
}

/// The state after a muted frame: the target drops, and interpolation starts
/// from where it is.
pub open spec fn faded(v: DtxView) -> DtxView {
    DtxView {
        period_inv: if v.since_last_sid.0 <= 0 {
            period_slope(Word16(8))
        } else {
            period_slope(v.since_last_sid)
        },
        since_last_sid: Word16(0),
        old_log_en: v.log_en,
        log_en: sub_s(v.log_en, Word16(64)),
        ..v
    }
}

/// The spectrum and the energy of a comfort-noise frame with known targets.
pub open spec fn noise_parameters(v: DtxView) -> (Seq<Word16>, Word32) {
    if v.dither {
        (
            dithered_isf(blended_isf(v), v.dither_seed),
            dithered_energy(blended_energy(v), v.dither_seed),
        )
    } else {
        (blended_isf(v), blended_energy(v))
    }
}

/// The state after one frame of comfort noise.
pub open spec fn synthesised(
    v: DtxView,
    books: NoiseCodebooks,
    state: DtxState,
    sid: Option<SidFields>,
) -> DtxView {
    let w = with_targets(v, books, sid);
    let w = DtxView {
        dither_seed: if w.dither {
            drawn(w.dither_seed, 32)
        } else {
            w.dither_seed
        },
        ..w
    };
    let w = if state == DtxState::Muted {
        faded(w)
    } else {
        w
    };
    let w = DtxView { cng_seed: drawn(w.cng_seed, 256), ..w };
    if w.sid_frame && (w.valid_data || w.hangover_added) {
        DtxView { since_last_sid: Word16(0), data_updated: true, ..w }
    } else {
        w
    }
}

// ---------------------------------------------------------------------------
// The decoder's state
// ---------------------------------------------------------------------------

/// Decoder DTX state.
#[derive(Debug, Clone)]
pub struct DtxDecoder {
    since_last_sid: Word16,
    period_inv: Word16,
    log_en: Word16,
    old_log_en: Word16,
    isf: [Word16; LP_ORDER],
    isf_old: [Word16; LP_ORDER],
    cng: NoiseGenerator,
    isf_hist: [Word16; 128],
    log_en_hist: [Word16; DTX_HIST_SIZE],
    hist_ptr: usize,
    hangover_count: Word16,
    elapsed_count: Word16,
    sid_frame: bool,
    valid_data: bool,
    hangover_added: bool,
    global_state: DtxState,
    data_updated: bool,
    ditherer: NoiseGenerator,
    dither: bool,
    vad_history: Word16,
}

proof fn lemma_slope(period: Word16)
    requires
        1 <= period.0 <= 32,
    ensures
        1024 <= shl(period, 10).0,
{
    reveal(crate::fixed_point::spec_shl);
    vstd::arithmetic::power2::lemma2_to64();
    assert(period.0 * 1024 >= 1024) by (nonlinear_arith)
        requires
            period.0 >= 1,
    ;
}

/// `period` frames, at most 32, as an interpolation slope.
fn slope(period: Word16) -> (r: Word16)
    requires
        period.0 >= 1,
    ensures
        r == period_slope(period),
{
    let capped = if period.0 > 32 {
        Word16(32)
    } else {
        period
    };
    proof {
        lemma_slope(capped);
    }
    div_s(Word16(1024), shl(capped, 10))
}

/// The mantissa of a level is a proper fraction.
proof fn lemma_level_mantissa(energy: Word32)
    ensures
        extract_l(
            l_shr(l_sub(l_shr(energy, 9), l_deposit_h(extract_h(l_shr(energy, 9)))), 1),
        ).0 >= 0,
{
    reveal(crate::fixed_point::spec_extract_h);
    reveal(crate::fixed_point::spec_extract_l);
    reveal(crate::fixed_point::spec_l_deposit_h);
    reveal(crate::fixed_point::spec_l_sub);
    vstd::arithmetic::power2::lemma2_to64();
    let e = l_shr(energy, 9);
    let rest = l_sub(e, l_deposit_h(extract_h(e)));
    assert(0 <= rest.0 < 65536);
    lemma_l_shr(rest, 1, 2);
}

/// A generator drawn from one by one ends where it is drawn from at once.
proof fn lemma_drawn(seed: Word16, n: int)
    requires
        n >= 0,
    ensures
        drawn(seed, n + 2) == next_seed(next_seed(drawn(seed, n))),
{
    assert(drawn(seed, n + 1) == next_seed(drawn(seed, n)));
}

/// Build noise of a given energy.
fn make_noise(ctx: &mut DspContext, generator: &mut NoiseGenerator, energy: Word32) -> (excitation: [Word16;
    256])
    ensures
        excitation@ == noise_excitation(old(generator).seed, energy),
        final(generator).seed == drawn(old(generator).seed, 256),
{
    proof {
        reveal(noise_level);
        lemma_level_mantissa(energy);
    }
    let e = l_shr(energy, 9);
    let exponent = extract_h(e);
    let mantissa = extract_l(l_shr(l_sub(e, l_deposit_h(exponent)), 1));
    let level = pow2(add_s(exponent, Word16(15)).0, mantissa);
    levelled_noise(ctx, generator, level)
}

impl DtxDecoder {
    /// The state as plain values.
    pub closed spec fn view(&self) -> DtxView {
        DtxView {
            since_last_sid: self.since_last_sid,
            period_inv: self.period_inv,
            log_en: self.log_en,
            old_log_en: self.old_log_en,
            isf: self.isf@,
            isf_old: self.isf_old@,
            cng_seed: self.cng.seed,
            isf_hist: self.isf_hist@,
            log_en_hist: self.log_en_hist@,
            hist_ptr: self.hist_ptr as int,
            hangover_count: self.hangover_count,
            elapsed_count: self.elapsed_count,
            sid_frame: self.sid_frame,
            valid_data: self.valid_data,
            hangover_added: self.hangover_added,
            global_state: self.global_state,
            data_updated: self.data_updated,
            dither_seed: self.ditherer.seed,
            dither: self.dither,
            vad_history: self.vad_history,
        }
    }

    /// The invariant.
    pub open spec fn wf(&self) -> bool {
        dtx_inv(self.view())
    }

    /// A DTX decoder in its reset state.
    #[must_use]
    pub fn new() -> (d: Self)
        ensures
            d.wf(),
            d.view() == dtx_reset(),
    {
        let mut isf: [Word16; LP_ORDER] = [Word16(0); LP_ORDER];
        let mut isf_hist: [Word16; 128] = [Word16(0); 128];
        for i in 0..128usize
            invariant
                forall|j: int|
                    0 <= j < i ==> #[trigger] isf_hist@[j] == Word16(ISF_INIT@[j % 16]),
                forall|j: int| 0 <= j < i && j < 16 ==> #[trigger] isf@[j] == Word16(ISF_INIT@[j]),
        {
            isf_hist[i] = Word16(ISF_INIT[i % 16]);
            if i < LP_ORDER {
                isf[i] = Word16(ISF_INIT[i]);
            }
        }
        let d = DtxDecoder {
            since_last_sid: Word16(0),
            period_inv: Word16(8192),
            log_en: Word16(3500),
            old_log_en: Word16(3500),
            isf,
            isf_old: isf,
            cng: NoiseGenerator::new(),
            isf_hist,
            log_en_hist: [Word16(437); DTX_HIST_SIZE],
            hist_ptr: 0,
            hangover_count: Word16(DTX_HANG_CONST),
            elapsed_count: Word16(32767),
            sid_frame: false,
            valid_data: false,
            hangover_added: false,
            global_state: DtxState::Speech,
            data_updated: false,
            ditherer: NoiseGenerator::new(),
            dither: false,
            vad_history: Word16(0),
        };
        assert(d.view().isf =~= dtx_reset().isf);
        assert(d.view().isf_hist =~= dtx_reset().isf_hist);
        assert(d.view().log_en_hist =~= dtx_reset().log_en_hist);
        d
    }

    /// Classify a frame.
    ///
    /// Must be called for **every** frame, speech included: it maintains the
    /// staleness counter that decides whether a later `SID_FIRST` may analyse
    /// backwards.
    pub fn receive(&mut self, _ctx: &mut DspContext, frame_type: RxFrameType) -> (state: DtxState)
        requires
            old(self).wf(),
        ensures
            final(self).wf(),
            state == rx_state(old(self).view(), frame_type),
            final(self).view() == received(old(self).view(), frame_type),
    {
        let continuing: bool = self.global_state != DtxState::Speech && (frame_type
            == RxFrameType::NoData || frame_type == RxFrameType::SpeechBad || frame_type
            == RxFrameType::SpeechLost);
        let state: DtxState = if frame_type.is_sid() || continuing {
            // Damaged speech is deliberately absent here: it leaves the mute.
            let stays_muted: bool = self.global_state == DtxState::Muted && (frame_type
                == RxFrameType::SidBad || frame_type == RxFrameType::SidFirst || frame_type
                == RxFrameType::SpeechLost || frame_type == RxFrameType::NoData);
            self.since_last_sid = add_s(self.since_last_sid, Word16(1));
            if stays_muted || (frame_type != RxFrameType::SidUpdate && self.since_last_sid.0
                > DTX_MAX_EMPTY_THRESH) {
                DtxState::Muted
            } else {
                DtxState::ComfortNoise
            }
        } else {
            self.since_last_sid = Word16(0);
            DtxState::Speech
        };
        if !self.data_updated && frame_type == RxFrameType::SidUpdate {
            self.elapsed_count = Word16(0);
        }
        self.elapsed_count = add_s(self.elapsed_count, Word16(1));
        self.hangover_added = false;
        // What the *encoder* is presumed to be doing, inferred from what
        // arrived.
        let encoder_in_dtx: bool = frame_type.is_sid() || (frame_type == RxFrameType::NoData && (
        self.global_state != DtxState::Speech || self.vad_history.0 >= DTX_HANG_CONST));
        if encoder_in_dtx {
            if self.elapsed_count.0 > DTX_ELAPSED_FRAMES_THRESH {
                self.hangover_added = true;
                self.elapsed_count = Word16(0);
                self.hangover_count = Word16(0);
            } else if self.hangover_count.0 == 0 {
                self.elapsed_count = Word16(0);
            } else {
                self.hangover_count = sub_s(self.hangover_count, Word16(1));
            }
        } else {
            self.hangover_count = Word16(DTX_HANG_CONST);
        }
        if state != DtxState::Speech {
            self.sid_frame = false;
            self.valid_data = false;
            match frame_type {
                RxFrameType::SidFirst => {
                    self.sid_frame = true;
                },
                RxFrameType::SidUpdate => {
                    self.sid_frame = true;
                    self.valid_data = true;
                },
                RxFrameType::SidBad => {
                    self.sid_frame = true;
                    // Damaged SID bits are not a reason to re-analyse.
                    self.hangover_added = false;
                },
                _ => {},
            }
        }
        state
    }

    /// Record a decoded speech frame.
    ///
    /// Only on frames that took the speech path: this is the memory a
    /// `SID_FIRST` synthesises from.
    pub fn observe_speech(
        &mut self,
        _ctx: &mut DspContext,
        isf: &[Word16; LP_ORDER],
        excitation: &[Word16],
    )
        requires
            old(self).wf(),
        ensures
            final(self).wf(),
            final(self).view() == with_speech_frame(old(self).view(), isf@, excitation@),
    {
        let ghost v = self.view();
        let p: usize = (self.hist_ptr + 1) % DTX_HIST_SIZE;
        self.hist_ptr = p;
        for j in 0..LP_ORDER
            invariant
                p < 8,
                v.isf_hist.len() == 128,
                self.view() == (DtxView { hist_ptr: p as int, isf_hist: self.isf_hist@, ..v }),
                forall|i: int|
                    0 <= i < 128 ==> #[trigger] self.isf_hist@[i] == if i / 16 == p && i % 16 < j {
                        isf@[i % 16]
                    } else {
                        v.isf_hist[i]
                    },
        {
            self.isf_hist[16 * p + j] = isf[j];
        }
        assert(self.isf_hist@ =~= ring_with(v.isf_hist, p as int, isf@));
        let sum = accumulate(Word32(0), excitation, 0, excitation, 0, excitation.len());
        let (exponent, mantissa) = log2(l_shr(sum, 1));
        let log_en = add_s(shl(Word16(exponent), 7), shr(mantissa, 8));
        self.log_en_hist[p] = sub_s(log_en, Word16(1024));
    }

    /// Update the VAD history the encoder-state inference reads.
    pub fn observe_vad(&mut self, _ctx: &mut DspContext, voice_active: bool)
        requires
            old(self).wf(),
        ensures
            final(self).wf(),
            final(self).view() == (DtxView {
                vad_history: if voice_active {
                    Word16(0)
                } else {
                    add_s(old(self).view().vad_history, Word16(1))
                },
                ..old(self).view()
            }),
    {
        self.vad_history = if voice_active {
            Word16(0)
        } else {
            add_s(self.vad_history, Word16(1))
        };
    }

    /// Average the ring, counting the newest frame twice.
    fn analyse_backwards(&mut self)
        requires
            old(self).wf(),
        ensures
            final(self).wf(),
            final(self).view() == analysed_backwards(old(self).view()),
    {
        let ghost v = self.view();
        let newest: usize = self.hist_ptr;
        let twin: usize = (newest + 1) % DTX_HIST_SIZE;
        let ghost slot = ring_slot(v.isf_hist, newest as int);
        for j in 0..LP_ORDER
            invariant
                newest < 8,
                twin == (newest + 1) % 8,
                v.isf_hist.len() == 128,
                slot == ring_slot(v.isf_hist, newest as int),
                self.view() == (DtxView { isf_hist: self.isf_hist@, ..v }),
                forall|i: int|
                    0 <= i < 128 ==> #[trigger] self.isf_hist@[i] == if i / 16 == twin && i % 16 < j {
                        slot[i % 16]
                    } else {
                        v.isf_hist[i]
                    },
        {
            assert((16 * newest + j) / 16 == newest);
            self.isf_hist[16 * twin + j] = self.isf_hist[16 * newest + j];
        }
        assert(self.isf_hist@ =~= ring_with(v.isf_hist, twin as int, slot));
        self.log_en_hist[twin] = self.log_en_hist[newest];
        let mut total = Word16(0);
        for i in 0..DTX_HIST_SIZE
            invariant
                total == energy_sum(self.log_en_hist@, i as int),
        {
            total = add_s(total, self.log_en_hist[i]);
        }
        let mean = add_s(shr(total, 1), Word16(1024));
        self.log_en = if mean.0 < 0 {
            Word16(0)
        } else {
            mean
        };
        let ghost before = self.view();
        for j in 0..LP_ORDER
            invariant
                self.view() == (DtxView { isf: self.isf@, ..before }),
                forall|i: int|
                    0 <= i < j ==> #[trigger] self.isf@[i] == extract_l(
                        l_shr(spectrum_sum(before.isf_hist, i, 8), 3),
                    ),
        {
            let mut sum = Word32(0);
            for n in 0..DTX_HIST_SIZE
                invariant
                    j < 16,
                    self.view() == (DtxView { isf: self.isf@, ..before }),
                    sum == spectrum_sum(before.isf_hist, j as int, n as int),
            {
                sum = l_add(sum, Word32(self.isf_hist[16 * n + j].0 as i32));
            }
            self.isf[j] = extract_l(l_shr(sum, 3));
        }
        assert(self.isf@ =~= analysed_backwards(v).isf);
    }

    /// Take in a frame's targets.
    fn update_targets(&mut self, books: &NoiseCodebooks, sid: Option<SidFields>)
        requires
            old(self).wf(),
            old(self).view().sid_frame && old(self).view().valid_data && sid is Some
                ==> indices_fit(sid->0.isf_indices@),
        ensures
            final(self).wf(),
            final(self).view() == with_targets(old(self).view(), *books, sid),
    {
        if self.hangover_added && self.sid_frame {
            self.analyse_backwards();
        }
        if self.sid_frame {
            self.isf_old = self.isf;
            self.old_log_en = self.log_en;
            // Gated on the frame being an update, not on whether the caller
            // supplied a payload: the bits of a `SID_FIRST` are blank.
            if self.valid_data {
                if let Some(fields) = sid {
                    self.period_inv = if self.since_last_sid.0 >= 2 {
                        slope(self.since_last_sid)
                    } else {
                        Word16(16384)
                    };
                    self.isf = books.dequantise(&fields.isf_indices);
                    self.log_en = mult(shl(fields.energy_index, 9), Word16(12483));
                    self.dither = fields.dither;
                    // Nothing to interpolate from at a cold start, or when the
                    // previous frame was speech.
                    if !self.data_updated || self.global_state == DtxState::Speech {
                        self.isf_old = self.isf;
                        self.old_log_en = self.log_en;
                    }
                }
            }
        }
        if self.sid_frame && self.valid_data {
            self.since_last_sid = Word16(0);
        }
    }

    /// One triangular variate of the dithering generator.
    fn draw_triangular(&mut self, ctx: &mut DspContext) -> (r: Word16)
        ensures
            r == triangular(old(self).view().dither_seed),
            final(self).view() == (DtxView {
                dither_seed: next_seed(next_seed(old(self).view().dither_seed)),
                ..old(self).view()
            }),
    {
        let first = self.ditherer.next(ctx);
        let second = self.ditherer.next(ctx);
        add_s(shr(first, 1), shr(second, 1))
    }

    /// Perturb the interpolated spectrum and energy.
    ///
    /// Only when the encoder said the background was moving. The spacing is
    /// enforced inline against the coefficient just written, not in a separate
    /// pass afterwards.
    fn apply_dithering(&mut self, ctx: &mut DspContext, isf: &mut [Word16; LP_ORDER], energy: Word32) -> (e:
        Word32)
        ensures
            e == dithered_energy(energy, old(self).view().dither_seed),
            final(isf)@ == dithered_isf(old(isf)@, old(self).view().dither_seed),
            final(self).view() == (DtxView {
                dither_seed: drawn(old(self).view().dither_seed, 32),
                ..old(self).view()
            }),
    {
        let ghost v = self.view();
        let ghost seed = v.dither_seed;
        let ghost raw = isf@;
        proof {
            lemma_drawn(seed, 0);
        }
        let perturbation = self.draw_triangular(ctx);
        let mut e = l_add(energy, l_mult(perturbation, Word16(75)));
        if e.0 < 0 {
            e = Word32(0);
        }
        for i in 0..15usize
            invariant
                raw.len() == 16,
                seed == v.dither_seed,
                self.view() == (DtxView { dither_seed: drawn(seed, 2 + 2 * i as int), ..v }),
                forall|j: int| 0 <= j < i ==> #[trigger] isf@[j] == dithered_at(raw, seed, j),
                forall|j: int| i <= j < 16 ==> #[trigger] isf@[j] == raw[j],
        {
            proof {
                lemma_drawn(seed, 2 + 2 * i);
            }
            let perturbation = self.draw_triangular(ctx);
            let step = mult_r(perturbation, Word16(256 + 2 * i as i16));
            let candidate = add_s(isf[i], step);
            if i == 0 {
                isf[0] = if candidate.0 < 128 {
                    Word16(128)
                } else {
                    candidate
                };
            } else {
                let before = isf[i - 1];
                isf[i] = if sub_s(candidate, before).0 < 448 {
                    add_s(before, Word16(448))
                } else {
                    candidate
                };
            }
        }
        if isf[14].0 > 16384 {
            isf[14] = Word16(16384);
        }
        assert(isf@ =~= dithered_isf(raw, seed));
        e
    }

    /// Synthesise one frame of comfort noise.
    ///
    /// `sid` is the five decoded SID fields when this frame carried a usable
    /// payload. Returns the spectrum to synthesise through and the excitation
    /// to drive it with.
    pub fn comfort_noise(
        &mut self,
        ctx: &mut DspContext,
        books: &NoiseCodebooks,
        state: DtxState,
        sid: Option<SidFields>,
    ) -> (r: ([Word16; LP_ORDER], [Word16; 256]))
        requires
            old(self).wf(),
            old(self).view().sid_frame && old(self).view().valid_data && sid is Some
                ==> indices_fit(sid->0.isf_indices@),
        ensures
            final(self).wf(),
            final(self).view() == synthesised(old(self).view(), *books, state, sid),
            ({
                let w = with_targets(old(self).view(), *books, sid);
                &&& r.0@ == noise_parameters(w).0
                &&& r.1@ == noise_excitation(w.cng_seed, noise_parameters(w).1)
            }),
    {
        self.update_targets(books, sid);
        let ghost w = self.view();
        let raw = mult(shl(self.since_last_sid, 10), self.period_inv);
        let capped = if raw.0 > 1024 {
            Word16(1024)
        } else {
            raw
        };
        let factor = shl(capped, 4);
        let complement = sub_s(Word16(16384), factor);
        let mut energy = l_mac(l_mult(factor, self.log_en), complement, self.old_log_en);
        let mut isf: [Word16; LP_ORDER] = [Word16(0); LP_ORDER];
        for i in 0..LP_ORDER
            invariant
                self.view() == w,
                factor == blend_factor(w),
                complement == sub_s(Word16(16384), factor),
                forall|j: int| 0 <= j < i ==> #[trigger] isf@[j] == blended_isf(w)[j],
        {
            let sum = add_s(mult(factor, self.isf[i]), mult(complement, self.isf_old[i]));
            isf[i] = shl(sum, 1);
        }
        assert(isf@ =~= blended_isf(w));
        if self.dither {
            energy = self.apply_dithering(ctx, &mut isf, energy);
        }
        // Once muted, each frame drops the target and restarts the
        // interpolation from where it is, so the noise decays smoothly.
        if state == DtxState::Muted {
            let period = if self.since_last_sid.0 <= 0 {
                Word16(8)
            } else {
                self.since_last_sid
            };
            self.period_inv = slope(period);
            self.since_last_sid = Word16(0);
            self.old_log_en = self.log_en;
            self.log_en = sub_s(self.log_en, Word16(64));
        }
        let excitation = make_noise(ctx, &mut self.cng, energy);
        // The interpolation timer restarts whenever the parameters were
        // renewed, by a usable SID *or* by the backward analysis.
        if self.sid_frame && (self.valid_data || self.hangover_added) {
            self.since_last_sid = Word16(0);
            self.data_updated = true;
        }
        (isf, excitation)
    }

    /// Frames since the decoder last analysed its own background.
    #[must_use]
    pub fn elapsed_count(&self) -> (count: Word16)
        ensures
            count == self.view().elapsed_count,
    {
        self.elapsed_count
    }

    /// Whether the encoder added a hangover that permits a backward analysis.
    #[must_use]
    pub fn hangover_added(&self) -> (added: bool)
        ensures
            added == self.view().hangover_added,
    {
        self.hangover_added
    }

    /// Whether the last frame that was not speech carried a comfort-noise
    /// description.
    #[must_use]
    pub fn sid_frame(&self) -> (sid: bool)
        ensures
            sid == self.view().sid_frame,
    {
        self.sid_frame
    }

    /// Whether that description's bits are to be read.
    #[must_use]
    pub fn valid_data(&self) -> (valid: bool)
        ensures
            valid == self.view().valid_data,
    {
        self.valid_data
    }

    /// Commit the state this frame decided, once synthesis is done.
    pub fn commit(&mut self, state: DtxState)
        requires
            old(self).wf(),
        ensures
            final(self).wf(),
            final(self).view() == (DtxView { global_state: state, ..old(self).view() }),
    {
        self.global_state = state;
    }
}

// ---------------------------------------------------------------------------
// Laws
// ---------------------------------------------------------------------------

/// Good speech always ends comfort noise, and restarts the count of frames
/// without an update.
pub proof fn law_speech_ends_comfort_noise(v: DtxView)
    ensures
        rx_state(v, RxFrameType::SpeechGood) == DtxState::Speech,
        received(v, RxFrameType::SpeechGood).since_last_sid == Word16(0),
        received(v, RxFrameType::SpeechGood).hangover_count == Word16(7),
{
}

/// An update always leaves the mute, and so does damaged speech while the gap
/// is short; nothing else does but good speech.
pub proof fn law_leaving_the_mute(v: DtxView, t: RxFrameType)
    requires
        v.global_state == DtxState::Muted,
    ensures
        rx_state(v, RxFrameType::SidUpdate) == DtxState::ComfortNoise,
        rx_state(v, t) == DtxState::ComfortNoise ==> t == RxFrameType::SidUpdate || t
            == RxFrameType::SpeechBad,
        rx_state(v, t) == DtxState::Speech ==> t == RxFrameType::SpeechGood,
{
}

/// A silence of more than fifty frames without an update fades to mute,
/// whatever kind of frames it is made of.
pub proof fn law_a_long_gap_mutes(v: DtxView, t: RxFrameType)
    requires
        v.since_last_sid.0 >= DTX_MAX_EMPTY_THRESH,
        stays_quiet(v, t),
        t != RxFrameType::SidUpdate,
    ensures
        rx_state(v, t) == DtxState::Muted,
{
    reveal(crate::fixed_point::spec_add_s);
}

/// Comfort noise is deterministic: the excitation depends on the generator
/// and the targets alone, and every frame draws exactly 256 samples.
pub proof fn law_every_frame_draws_alike(
    v: DtxView,
    books: NoiseCodebooks,
    state: DtxState,
    sid: Option<SidFields>,
)
    ensures
        synthesised(v, books, state, sid).cng_seed == drawn(v.cng_seed, 256),
        synthesised(v, books, state, sid).global_state == v.global_state,
{
}

/// How far a count of frames reaches into a period, in 1024ths.
proof fn lemma_reach(since: Word16, period_inv: Word16)
    requires
        0 <= since.0,
        0 <= period_inv.0 <= 16384,
    ensures
        ({
            let shifted: int = if since.0 >= 32 {
                32767
            } else {
                1024 * since.0
            };
            mult(shl(since, 10), period_inv).0 == (shifted * period_inv.0) / 32768
        }),
{
    reveal(crate::fixed_point::spec_mult);
    reveal(crate::fixed_point::spec_shl);
    vstd::arithmetic::power2::lemma2_to64();
    lemma_shl(since, 10, 1024);
    let a = shl(since, 10).0 as int;
    let b = period_inv.0 as int;
    assert(0 <= a * b <= 32767 * 16384) by (nonlinear_arith)
        requires
            0 <= a <= 32767,
            0 <= b <= 16384,
    ;
}

/// A period in 1024ths.
proof fn lemma_period(period: Word16)
    requires
        2 <= period.0 <= 32,
    ensures
        period.0 == 32 ==> shl(period, 10).0 == 32767,
        period.0 < 32 ==> shl(period, 10).0 == 1024 * period.0,
{
    vstd::arithmetic::power2::lemma2_to64();
    lemma_shl(period, 10, 1024);
    let x = period.0 * 1024;
    assert(shl(period, 10).0 == sat16(x));
}

/// The interpolation starts where it is and ends at the target: nothing of the
/// way is gone in the frame of the update, it never goes back or too far as
/// frames pass, and once as many frames have passed as the last period held,
/// all of it is but for at most a thousandth.
pub proof fn law_interpolation_runs_over_one_period(
    v: DtxView,
    period: Word16,
    sooner: Word16,
    later: Word16,
)
    requires
        2 <= period.0 <= 32,
        0 <= sooner.0 <= later.0,
        v.period_inv == period_slope(period),
    ensures
        blend_factor(DtxView { since_last_sid: Word16(0), ..v }) == Word16(0),
        0 <= blend_factor(DtxView { since_last_sid: sooner, ..v }).0 <= blend_factor(
            DtxView { since_last_sid: later, ..v },
        ).0 <= 16384,
        later.0 >= period.0 ==> blend_factor(DtxView { since_last_sid: later, ..v }).0 >= 16368,
{
    reveal(crate::fixed_point::spec_shl);
    reveal(crate::fixed_point::spec_div_s);
    vstd::arithmetic::power2::lemma2_to64();
    let p = period.0 as int;
    let k = v.period_inv.0 as int;
    lemma_period(period);
    let d = shl(period, 10).0 as int;
    assert(1024int * 32768 == 33554432);
    assert(k == 33554432int / d) by {
        assert(2 <= d && 33554432int / d <= 16777216) by (nonlinear_arith)
            requires
                2 <= d,
        ;
        assert(33554432int / d <= 16384) by (nonlinear_arith)
            requires
                d >= 2048,
        ;
    }
    assert(32768 - p <= k * p && 1024 <= k <= 16384 && k * d > 1024 * 32768 - d) by (nonlinear_arith)
        requires
            k == 33554432int / d,
            2 <= p <= 32,
            d == 1024 * p || p == 32 && d == 32767,
    ;
    lemma_reach(Word16(0), v.period_inv);
    assert((0 * k) / 32768 == 0) by (nonlinear_arith);
    lemma_shl(Word16(0), 4, 16);
    lemma_reach(sooner, v.period_inv);
    lemma_reach(later, v.period_inv);
    let a: int = if sooner.0 >= 32 {
        32767
    } else {
        1024 * sooner.0
    };
    let b: int = if later.0 >= 32 {
        32767
    } else {
        1024 * later.0
    };
    assert(0 <= (a * k) / 32768 <= (b * k) / 32768) by (nonlinear_arith)
        requires
            0 <= a <= b,
            0 <= k,
    ;
    if later.0 >= period.0 {
        assert((b * k) / 32768 >= 1023) by (nonlinear_arith)
            requires
                b >= d,
                k * d > 1024 * 32768 - d,
                d <= 32767,
                k >= 0,
        ;
    }
}

/// The noise of a frame lies on the way from the old target to the new: the
/// energy has gone exactly the factor's share of it, and each frequency the
/// same share but for the rounding. So at the start it is the old target's, and
/// at the end the new one's.
pub proof fn law_noise_glides_to_its_target(v: DtxView, i: int)
    requires
        0 <= blend_factor(v).0 <= 16384,
        0 <= i < 16,
        v.isf[i].0 >= 0,
        v.isf_old[i].0 >= 0,
    ensures
        ({
            let f = blend_factor(v).0;
            let gone = f * v.isf[i].0 + (16384 - f) * v.isf_old[i].0;
            &&& blended_energy(v).0 - 32768 * v.old_log_en.0 == 2 * (f * (v.log_en.0
                - v.old_log_en.0))
            &&& gone - 65536 < 16384 * blended_isf(v)[i].0 <= gone
            &&& f == 0 ==> blended_energy(v).0 == 32768 * v.old_log_en.0
                && v.isf_old[i].0 - 1 <= blended_isf(v)[i].0 <= v.isf_old[i].0
            &&& f == 16384 ==> blended_energy(v).0 == 32768 * v.log_en.0 && v.isf[i].0 - 1
                <= blended_isf(v)[i].0 <= v.isf[i].0
        }),
{
    reveal(crate::fixed_point::spec_mult);
    reveal(crate::fixed_point::spec_shl);
    reveal(crate::fixed_point::spec_add_s);
    reveal(crate::fixed_point::spec_sub_s);
    reveal(crate::fixed_point::spec_l_mac);
    reveal(crate::fixed_point::spec_l_mult);
    reveal(crate::fixed_point::spec_l_add);
    vstd::arithmetic::power2::lemma2_to64();
    let f = blend_factor(v).0 as int;
    let g = 16384 - f;
    let x = v.log_en.0 as int;
    let y = v.old_log_en.0 as int;
    assert(-0x2000_0000 <= f * x <= 0x2000_0000 && -0x2000_0000 <= g * y <= 0x2000_0000
        && -0x2000_0000 <= f * x + g * y <= 0x1fff_ffff && f * x + g * y == 16384 * y + f * (x
        - y)) by (nonlinear_arith)
        requires
            0 <= f <= 16384,
            g == 16384 - f,
            -32768 <= x <= 32767,
            -32768 <= y <= 32767,
    ;
    let a = v.isf[i].0 as int;
    let b = v.isf_old[i].0 as int;
    assert(0 <= f * a && 0 <= g * b && f * a + g * b <= 16384 * 32767 && f * a <= 16384 * 32767
        && g * b <= 16384 * 32767) by (nonlinear_arith)
        requires
            0 <= f <= 16384,
            g == 16384 - f,
            0 <= a <= 32767,
            0 <= b <= 32767,
    ;
    let p = (f * a) / 32768;
    let q = (g * b) / 32768;
    assert(mult(Word16(f as i16), v.isf[i]).0 == p);
    assert(mult(Word16(g as i16), v.isf_old[i]).0 == q);
    assert(0 <= p + q <= 16383);
    lemma_shl(Word16((p + q) as i16), 1, 2);
    assert(blended_isf(v)[i] == shl(Word16((p + q) as i16), 1));
    assert(blended_isf(v)[i].0 == 2 * (p + q));
    if f == 0 {
        assert(f * a == 0 && f * (x - y) == 0) by (nonlinear_arith)
            requires
                f == 0,
        ;
        assert(g * b == 16384 * b);
    }
    if f == 16384 {
        assert(f * a == 16384 * a && g * b == 0 && f * (x - y) == 16384 * (x - y)) by (nonlinear_arith)
            requires
                f == 16384,
                g == 0,
        ;
    }
}

/// An update behind comfort noise becomes the new target, and what was the
/// target until then the place to start from: nothing jumps in its own frame.
pub proof fn law_update_starts_from_the_old_target(
    v: DtxView,
    books: NoiseCodebooks,
    fields: SidFields,
)
    requires
        v.sid_frame,
        v.valid_data,
        !v.hangover_added,
        v.data_updated,
        v.global_state != DtxState::Speech,
    ensures
        ({
            let w = with_targets(v, books, Some(fields));
            &&& w.since_last_sid == Word16(0)
            &&& w.old_log_en == v.log_en
            &&& w.isf_old == v.isf
            &&& w.isf == dequantised(books, fields.isf_indices@)
            &&& blend_factor(w) == Word16(0)
            &&& blended_energy(w).0 == 32768 * v.log_en.0
        }),
{
    let w = with_targets(v, books, Some(fields));
    reveal(crate::fixed_point::spec_shl);
    reveal(crate::fixed_point::spec_mult);
    reveal(crate::fixed_point::spec_sub_s);
    reveal(crate::fixed_point::spec_l_mac);
    reveal(crate::fixed_point::spec_l_mult);
    reveal(crate::fixed_point::spec_l_add);
    vstd::arithmetic::power2::lemma2_to64();
    let k = w.period_inv.0 as int;
    assert(0 * k == 0) by (nonlinear_arith);
    lemma_shl(Word16(0), 10, 1024);
    lemma_shl(Word16(0), 4, 16);
    assert(mult(Word16(0), w.period_inv) == Word16(0));
    assert(0 * w.log_en.0 == 0) by (nonlinear_arith);
    assert(blend_factor(w) == Word16(0));
    assert(blended_energy(w).0 == 2 * (16384 * w.old_log_en.0));
}

/// Muted noise falls: each frame starts from its target and aims 64 lower, an
/// eighth of a doubling.
pub proof fn law_muted_noise_falls(v: DtxView)
    requires
        v.log_en.0 >= -32704,
    ensures
        faded(v).old_log_en == v.log_en,
        faded(v).log_en.0 == v.log_en.0 - 64,
        faded(v).since_last_sid == Word16(0),
{
    reveal(crate::fixed_point::spec_sub_s);
}

/// The plain sum of coefficient `j` over the first `n` spectra of a ring.
pub open spec fn slot_total(ring: Seq<Word16>, j: int, n: int) -> int
    decreases n,
{
    if n <= 0 {
        0
    } else {
        slot_total(ring, j, n - 1) + ring[16 * (n - 1) + j].0
    }
}

/// The plain sum of the first `n` energies.
pub open spec fn energy_total(s: Seq<Word16>, n: int) -> int
    decreases n,
{
    if n <= 0 {
        0
    } else {
        energy_total(s, n - 1) + s[n - 1].0
    }
}

proof fn lemma_spectrum_sum(ring: Seq<Word16>, j: int, n: int)
    requires
        ring.len() == 128,
        0 <= j < 16,
        0 <= n <= 8,
    ensures
        spectrum_sum(ring, j, n).0 == slot_total(ring, j, n),
        -32768 * n <= slot_total(ring, j, n) <= 32767 * n,
    decreases n,
{
    if n > 0 {
        lemma_spectrum_sum(ring, j, n - 1);
        reveal(crate::fixed_point::spec_l_add);
    }
}

proof fn lemma_energy_sum(s: Seq<Word16>, n: int)
    requires
        s.len() == 8,
        0 <= n <= 8,
        forall|i: int| 0 <= i < 8 ==> -4095 <= (#[trigger] s[i]).0 <= 4095,
    ensures
        energy_sum(s, n).0 == energy_total(s, n),
        -4095 * n <= energy_total(s, n) <= 4095 * n,
    decreases n,
{
    if n > 0 {
        lemma_energy_sum(s, n - 1);
        assert(-4095 <= s[n - 1].0 <= 4095);
        reveal(crate::fixed_point::spec_add_s);
    }
}

proof fn lemma_slot_replaced(ring: Seq<Word16>, p: int, isf: Seq<Word16>, j: int, n: int)
    requires
        ring.len() == 128,
        isf.len() == 16,
        0 <= p < 8,
        0 <= j < 16,
        0 <= n <= 8,
    ensures
        slot_total(ring_with(ring, p, isf), j, n) == slot_total(ring, j, n) + if p < n {
            isf[j].0 - ring[16 * p + j].0
        } else {
            0
        },
    decreases n,
{
    if n > 0 {
        lemma_slot_replaced(ring, p, isf, j, n - 1);
        let i = 16 * (n - 1) + j;
        assert(i / 16 == n - 1 && i % 16 == j);
    }
}

proof fn lemma_energy_replaced(s: Seq<Word16>, p: int, e: Word16, n: int)
    requires
        s.len() == 8,
        0 <= p < 8,
        0 <= n <= 8,
    ensures
        energy_total(s.update(p, e), n) == energy_total(s, n) + if p < n {
            e.0 - s[p].0
        } else {
            0
        },
    decreases n,
{
    if n > 0 {
        lemma_energy_replaced(s, p, e, n - 1);
    }
}

/// The backward analysis takes the mean of the last eight frames' spectra, the
/// newest in place of the oldest once more, and half the sum of their
/// energies above its offset.
pub proof fn law_background_is_the_mean(v: DtxView, j: int)
    requires
        dtx_inv(v),
        0 <= j < 16,
        forall|i: int| 0 <= i < 8 ==> -4095 <= (#[trigger] v.log_en_hist[i]).0 <= 4095,
    ensures
        ({
            let newest = v.hist_ptr;
            let oldest = (v.hist_ptr + 1) % 8;
            let spectra = slot_total(v.isf_hist, j, 8) - v.isf_hist[16 * oldest + j].0
                + v.isf_hist[16 * newest + j].0;
            let energies = energy_total(v.log_en_hist, 8) - v.log_en_hist[oldest].0
                + v.log_en_hist[newest].0;
            let w = analysed_backwards(v);
            &&& 8 * w.isf[j].0 <= spectra < 8 * w.isf[j].0 + 8
            &&& energies >= -2048 ==> 2 * (w.log_en.0 - 1024) <= energies < 2 * (w.log_en.0 - 1024)
                + 2
            &&& energies < -2048 ==> w.log_en.0 == 0
        }),
{
    let p = (v.hist_ptr + 1) % 8;
    let isf = ring_slot(v.isf_hist, v.hist_ptr);
    let ring = ring_with(v.isf_hist, p, isf);
    let energies = v.log_en_hist.update(p, v.log_en_hist[v.hist_ptr]);
    lemma_slot_replaced(v.isf_hist, p, isf, j, 8);
    lemma_energy_replaced(v.log_en_hist, p, v.log_en_hist[v.hist_ptr], 8);
    lemma_spectrum_sum(ring, j, 8);
    lemma_energy_sum(energies, 8);
    vstd::arithmetic::power2::lemma2_to64();
    lemma_l_shr(spectrum_sum(ring, j, 8), 3, 8);
    lemma_shr(energy_sum(energies, 8), 1, 2);
    reveal(crate::fixed_point::spec_extract_l);
    reveal(crate::fixed_point::spec_add_s);
}

/// A decoded frame becomes the newest of the ring, and the other seven stay.
pub proof fn law_speech_enters_the_ring(
    v: DtxView,
    isf: Seq<Word16>,
    excitation: Seq<Word16>,
    k: int,
)
    requires
        dtx_inv(v),
        isf.len() == 16,
        0 <= k < 8,
    ensures
        ({
            let w = with_speech_frame(v, isf, excitation);
            &&& w.hist_ptr == (v.hist_ptr + 1) % 8
            &&& ring_slot(w.isf_hist, w.hist_ptr) == isf
            &&& w.log_en_hist[w.hist_ptr] == frame_log_energy(excitation)
            &&& k != w.hist_ptr ==> ring_slot(w.isf_hist, k) == ring_slot(v.isf_hist, k)
                && w.log_en_hist[k] == v.log_en_hist[k]
        }),
{
    let w = with_speech_frame(v, isf, excitation);
    let p = w.hist_ptr;
    assert forall|j: int| 0 <= j < 16 implies #[trigger] ring_slot(w.isf_hist, p)[j] == isf[j] by {
        assert((16 * p + j) / 16 == p && (16 * p + j) % 16 == j);
    }
    assert(ring_slot(w.isf_hist, p) =~= isf);
    if k != p {
        assert forall|j: int| 0 <= j < 16 implies #[trigger] ring_slot(w.isf_hist, k)[j]
            == ring_slot(v.isf_hist, k)[j] by {
            assert((16 * k + j) / 16 == k);
        }
        assert(ring_slot(w.isf_hist, k) =~= ring_slot(v.isf_hist, k));
    }
}

/// A louder frame is recorded with no less energy.
pub proof fn law_louder_frames_are_recorded_louder(quiet: Seq<Word16>, loud: Seq<Word16>)
    requires
        ({
            let a = mac_run(Word32(0), quiet, 0, quiet, 0, quiet.len() as int);
            let b = mac_run(Word32(0), loud, 0, loud, 0, loud.len() as int);
            2 <= a.0 <= b.0
        }),
    ensures
        frame_log_energy(quiet).0 <= frame_log_energy(loud).0,
{
    let a = mac_run(Word32(0), quiet, 0, quiet, 0, quiet.len() as int);
    let b = mac_run(Word32(0), loud, 0, loud, 0, loud.len() as int);
    vstd::arithmetic::power2::lemma2_to64();
    lemma_l_shr(a, 1, 2);
    lemma_l_shr(b, 1, 2);
    let x = l_shr(a, 1);
    let y = l_shr(b, 1);
    law_logarithm_rises(x, y);
    law_logarithm_rises(y, y);
    lemma_logarithm_fraction(x);
    lemma_logarithm_fraction(y);
    reveal(crate::fixed_point::spec_add_s);
    reveal(crate::fixed_point::spec_sub_s);
    lemma_shl(Word16(log2(x).0), 7, 128);
    lemma_shl(Word16(log2(y).0), 7, 128);
    lemma_shr(log2(x).1, 8, 256);
    lemma_shr(log2(y).1, 8, 256);
}

proof fn lemma_dither_step(seed: Word16, i: int)
    requires
        0 <= i < 16,
    ensures
        -(256 + 2 * i) <= mult_r(triangular(seed), Word16((256 + 2 * i) as i16)).0 <= 256 + 2 * i,
{
    reveal(crate::fixed_point::spec_mult_r);
    let t = triangular(seed).0 as int;
    let w = 256 + 2 * i;
    assert(-32768 * w <= t * w <= 32767 * w) by (nonlinear_arith)
        requires
            -32768 <= t <= 32767,
            0 <= w,
    ;
}

/// Dithered frequencies keep 448 apart and clear of zero, and the last gain is
/// not dithered.
pub proof fn law_dithered_frequencies_stay_apart(isf: Seq<Word16>, seed: Word16, i: int)
    requires
        isf.len() == 16,
        0 <= i < 15,
        forall|k: int| 0 <= k < 15 ==> -20000 <= (#[trigger] isf[k]).0 <= 20000,
    ensures
        128 <= dithered_at(isf, seed, i).0 <= 20300 + 448 * i,
        i > 0 ==> dithered_at(isf, seed, i).0 >= dithered_at(isf, seed, i - 1).0 + 448,
        dithered_isf(isf, seed)[15] == isf[15],
    decreases i,
{
    reveal(crate::fixed_point::spec_add_s);
    reveal(crate::fixed_point::spec_sub_s);
    lemma_dither_step(drawn(seed, 2 + 2 * i), i);
    assert(-20000 <= isf[i].0 <= 20000);
    if i > 0 {
        law_dithered_frequencies_stay_apart(isf, seed, i - 1);
    }
}

/// Frequencies with room between them are dithered by about 256 at most, and
/// by two more for each.
pub proof fn law_dither_is_small(isf: Seq<Word16>, seed: Word16, i: int)
    requires
        isf.len() == 16,
        0 <= i < 15,
        isf[0].0 >= 400,
        forall|k: int| 0 <= k < 15 ==> 0 <= (#[trigger] isf[k]).0 <= 20000,
        forall|k: int, l: int|
            0 <= k < l < 15 ==> (#[trigger] isf[l]).0 - (#[trigger] isf[k]).0 >= 1060,
    ensures
        isf[i].0 - 256 - 2 * i <= dithered_at(isf, seed, i).0 <= isf[i].0 + 256 + 2 * i,
    decreases i,
{
    reveal(crate::fixed_point::spec_add_s);
    reveal(crate::fixed_point::spec_sub_s);
    lemma_dither_step(drawn(seed, 2 + 2 * i), i);
    assert(0 <= isf[i].0 <= 20000);
    if i > 0 {
        law_dither_is_small(isf, seed, i - 1);
        assert(isf[i].0 - isf[i - 1].0 >= 1060);
    }
}

/// The energy is dithered by a small share of its scale, and never below
/// nothing.
pub proof fn law_energy_dither_is_small(energy: Word32, seed: Word16)
    requires
        0 <= energy.0 <= 0x7000_0000,
    ensures
        0 <= dithered_energy(energy, seed).0,
        energy.0 - 4915200 <= dithered_energy(energy, seed).0 <= energy.0 + 4915200,
{
    reveal(crate::fixed_point::spec_l_add);
    reveal(crate::fixed_point::spec_l_mult);
    assert(Word16(75).0 == 75);
}

/// Speech that arrived intact sets every counter of the gap back.
pub proof fn law_speech_rearms_the_hangover(v: DtxView)
    ensures
        ({
            let w = received(v, RxFrameType::SpeechGood);
            &&& rx_state(v, RxFrameType::SpeechGood) == DtxState::Speech
            &&& w.since_last_sid == Word16(0)
            &&& w.hangover_count == Word16(DTX_HANG_CONST)
            &&& !w.hangover_added
        }),
{
}

} // verus!
