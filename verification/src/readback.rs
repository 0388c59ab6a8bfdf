//! What the encoder writes, the decoder reads: the parameters of a speech
//! frame survive the payload.

use vstd::prelude::*;
use crate::bitstream::{
    field, lemma_field_prefix, lemma_unsorted_len, payload_bit, sid_bits, unsorted,
};
use crate::codebook::{four_track_code, lemma_code_reads_a_prefix, two_pulse_code};
use crate::conceal::FrameQuality;
use crate::decoder::{frame_of, sid_of, spectrum_of, spectrum_state, DecoderTables, DecoderView};
use crate::dtx::RxFrameType;
use crate::enc::budget::PulseBudget;
use crate::enc::codebook::{
    correlation, law_two_pulse_index_decodes, lemma_pick_samples, pair_index, signed_correlation,
    signs, two_pulse_pick,
};
use crate::enc::dtx::{energy_index, needs_dither, sid_built, sid_isf};
use crate::enc::encoder::{
    after_frame, frame_codec_bits, frame_payload, is_comfort_noise, loop_run, quiet_dtx,
    sid_frame_bits, sid_indices, sid_widths, speech_indices, speech_isf, subframe_at, voice_active,
    Codebooks, EncoderView,
};
use crate::enc::gain_quant::law_gain_index_fits;
use crate::enc::high_band::{band_index, law_band_index_fits};
use crate::enc::pack::{field_width, law_packed_indices_fit, packed_indices};
use crate::enc::pitch::{LagWindow, PIT_MAX, PIT_MIN};
use crate::enc::rate::{
    all_bits, bits_of, law_unpacking_undoes_packing, law_written_fields_read_back,
    lemma_bits_length, Rate,
};
use crate::enc::search::{
    filled_slots, impulse_scaling, law_searched_pulses_decode, lemma_amplitude,
    lemma_outcome_tracks, search_outcome, search_view,
};
use crate::enc::subframe::{
    band_bits, band_excitation, code_of, code_reference, code_response, enhanced_band, gain_index,
    gain_view, index_bits, lag_bits, lag_of, law_subframe_lag_is_codable, lemma_index_bits,
    lemma_pulse_width, ltp_bits, next_window, prefers_sharp, quarter_of, searched_code,
    smooth_candidate, subframe_bits, subframe_pcm, total_width, winner, CodeView, CoreView,
    SubframeView,
};
use crate::fixed_point::{shr, Word16};
use crate::isf_noise::{indices_fit, quantised_index, split_count};
use crate::isf_quant::law_chosen_indices_fit;
use crate::lag::{lag_index, law_lag_index_reads_back, named_lag};
use crate::params::{
    band_field_bits, fields_at, frame_fields, gain_field_bits, isf_field_widths, lag_at,
    lag_field_bits, lag_is_absolute, lag_is_quartered, law_fields_fill_the_frame, ltp_field_bits,
    padded, payload_bits, pulse_field_bits, pulse_field_widths, subframe_field_bits,
    subframe_fields, subframe_start, FrameFields, SubframeFields,
};
use crate::sort_inverse::law_orders_are_permutations;
use crate::sort_tables::{frame_bits, lemma_order_length, order_of};
use crate::speech::sent_code;
use vstd::arithmetic::power2::{lemma2_to64, pow2};

verus! {

/// Consecutive indices read back, wherever they stand.
proof fn lemma_indices_read_back(
    before: Seq<u8>,
    indices: Seq<u16>,
    widths: Seq<usize>,
    n: int,
    after: Seq<u8>,
    j: int,
)
    requires
        0 <= j < n <= widths.len(),
        n <= indices.len(),
        forall|k: int| 0 <= k < n ==> 1 <= #[trigger] widths[k] <= 16,
        forall|k: int| 0 <= k < n ==> #[trigger] indices[k] < pow2(widths[k] as nat),
    ensures
        field(
            before + index_bits(indices, widths, n) + after,
            before.len() + total_width(widths, j),
            widths[j] as int,
        ) == indices[j],
    decreases n,
{
    let here = bits_of(indices[n - 1] as int, widths[n - 1] as int);
    let earlier = index_bits(indices, widths, n - 1);
    let whole = before + index_bits(indices, widths, n) + after;
    assert(widths[n - 1] <= 16);
    assert(indices[n - 1] < pow2(widths[n - 1] as nat));
    if j == n - 1 {
        lemma_index_bits(indices, widths, j);
        assert(whole =~= (before + earlier) + here + after);
        law_written_fields_read_back(
            before + earlier,
            indices[j] as int,
            widths[j] as int,
            after,
        );
    } else {
        assert(whole =~= before + earlier + (here + after));
        lemma_indices_read_back(before, indices, widths, n - 1, here + after, j);
    }
}

/// Consecutive indices read back together.
proof fn lemma_fields_read_back(
    before: Seq<u8>,
    indices: Seq<u16>,
    widths: Seq<usize>,
    after: Seq<u8>,
)
    requires
        widths.len() <= indices.len(),
        forall|k: int| 0 <= k < widths.len() ==> 1 <= #[trigger] widths[k] <= 16,
        forall|k: int| 0 <= k < widths.len() ==> #[trigger] indices[k] < pow2(widths[k] as nat),
    ensures
        fields_at(
            before + index_bits(indices, widths, widths.len() as int) + after,
            before.len() as int,
            widths,
        ) == indices.take(widths.len() as int),
{
    let n = widths.len() as int;
    let whole = before + index_bits(indices, widths, n) + after;
    assert forall|j: int| 0 <= j < n implies #[trigger] fields_at(
        whole,
        before.len() as int,
        widths,
    )[j] == indices[j] by {
        lemma_indices_read_back(before, indices, widths, n, after, j);
    }
    assert(fields_at(whole, before.len() as int, widths) =~= indices.take(n));
}

/// The codebook indices of a subframe.
#[verifier::opaque]
pub open spec fn sent_indices(
    rate: Rate,
    target: Seq<Word16>,
    reference: Seq<Word16>,
    response: Seq<Word16>,
    filtered: Seq<Word16>,
) -> Seq<u16> {
    let dn = correlation(response, target);
    match PulseBudget::spec_from_frame_bits(rate.spec_bits() as usize) {
        None => {
            let sign = signs(dn, reference, Word16(8192));
            let best = two_pulse_pick(
                signed_correlation(dn, reference, Word16(8192)),
                sign,
                response,
                1024,
            );
            seq![pair_index(sign, best.2, best.3) as u16]
        },
        Some(budget) => {
            let v = search_view(dn, reference, response, budget);
            let best = search_outcome(
                v,
                budget,
                filtered,
                budget.spec_iterations(rate.spec_bits() as usize) as int,
            );
            packed_indices(budget, filled_slots(v.sign, best.2, budget.spec_pulses() as int))
        },
    }
}

/// The codebook indices of a subframe.
pub open spec fn pulse_indices(c: CoreView, s: SubframeView, exc: Seq<Word16>) -> Seq<u16> {
    sent_indices(
        s.rate,
        winner(c, s, exc).target,
        code_reference(c, s, exc),
        code_response(c, s, exc),
        smooth_candidate(c, s, exc).response,
    )
}

/// What holds of the indices of a searched codeword: they fit their widths and
/// are what is written, and they decode into that codeword, up to its
/// amplitude.
pub open spec fn indices_stand_for(indices: Seq<u16>, rate: Rate, found: CodeView) -> bool {
    let widths = rate.spec_pulse_widths();
    let decoded = sent_code(indices.take(widths.len() as int), rate.spec_bits() as usize);
    &&& widths.len() <= indices.len()
    &&& forall|k: int| 0 <= k < widths.len() ==> #[trigger] indices[k] < pow2(widths[k] as nat)
    &&& found.bits == index_bits(indices, widths, widths.len() as int)
    &&& exists|amplitude: int|
        0 < amplitude <= 512 && #[trigger] proportional(decoded, found.code, amplitude)
}

/// At the lowest rate.
proof fn lemma_sent_pair(
    rate: Rate,
    target: Seq<Word16>,
    reference: Seq<Word16>,
    response: Seq<Word16>,
    filtered: Seq<Word16>,
)
    requires
        rate.spec_index() == 0,
    ensures
        indices_stand_for(
            sent_indices(rate, target, reference, response, filtered),
            rate,
            searched_code(rate, target, reference, response, filtered),
        ),
{
    reveal(sent_indices);
    reveal(searched_code);
    let indices = sent_indices(rate, target, reference, response, filtered);
    let widths = rate.spec_pulse_widths();
    let found = searched_code(rate, target, reference, response, filtered);
    let decoded = sent_code(indices.take(1), 132);
    let dn = correlation(response, target);
    let sign = signs(dn, reference, Word16(8192));
    let pick = signed_correlation(dn, reference, Word16(8192));
    let best = two_pulse_pick(pick, sign, response, 1024);
    lemma2_to64();
    lemma_pick_samples(pick, sign, response, 1024);
    law_two_pulse_index_decodes(sign, best.2, best.3);
    let index = pair_index(sign, best.2, best.3);
    assert(0 <= index < 4096);
    assert(indices.take(1)[0] == index as u16);
    assert(index_bits(indices, widths, 0) =~= Seq::<u8>::empty());
    assert(index_bits(indices, widths, 1) =~= bits_of(index, 12));
    assert forall|i: int| 0 <= i < 64 implies #[trigger] decoded[i].0 * 512 == 512
        * found.code[i].0 by {
        assert(two_pulse_code(index)[i] == found.code[i].0);
    }
    assert(proportional(decoded, found.code, 512));
    assert(widths.len() == 1 && widths[0] == 12);
    assert(indices[0] < pow2(12));
    assert(found.bits == index_bits(indices, widths, 1));
}

/// The sent indices of a pulse set decode into its codeword.
proof fn lemma_decoded_pulses(
    budget: PulseBudget,
    n: int,
    frame_bits: usize,
    it: int,
    sign: Seq<Word16>,
    amplitude: Word16,
    chosen: Seq<int>,
)
    requires
        crate::enc::search::follows_tracks(budget, it, chosen),
        0 < amplitude.0 <= 512,
        frame_bits > 132,
        crate::codebook::pulse_bits(frame_bits) == budget.bits(),
        n == if budget.bits() <= 52 {
            4int
        } else {
            8
        },
    ensures
        ({
            let indices = packed_indices(budget, filled_slots(sign, chosen, budget.pulses() as int));
            proportional(
                sent_code(indices.take(n), frame_bits),
                crate::enc::search::pulse_code(sign, amplitude, chosen, budget.pulses() as int),
                amplitude.0 as int,
            )
        }),
{
    law_searched_pulses_decode(budget, it, sign, amplitude, chosen);
    let indices = packed_indices(budget, filled_slots(sign, chosen, budget.pulses() as int));
    let bits = budget.bits() as int;
    lemma_code_reads_a_prefix(indices, n, bits);
    let code = four_track_code(indices, bits);
    let sent = crate::enc::search::pulse_code(sign, amplitude, chosen, budget.pulses() as int);
    let decoded = sent_code(indices.take(n), frame_bits);
    assert forall|i: int| 0 <= i < 64 implies #[trigger] decoded[i].0 * amplitude.0 == 512
        * sent[i].0 by {
        assert(decoded[i].0 == code[i]);
        assert(code[i] * amplitude.0 == 512 * sent[i].0);
    }
}

/// Each sent index of a pulse set fits its width.
proof fn lemma_pulses_fit(
    rate: Rate,
    budget: PulseBudget,
    it: int,
    sign: Seq<Word16>,
    chosen: Seq<int>,
)
    requires
        rate.wf(),
        0 < rate.spec_index() < 9,
        PulseBudget::spec_from_frame_bits(rate.spec_bits() as usize) == Some(budget),
        crate::enc::search::follows_tracks(budget, it, chosen),
    ensures
        ({
            let indices = packed_indices(budget, filled_slots(sign, chosen, budget.pulses() as int));
            forall|k: int|
                0 <= k < rate.spec_pulse_widths().len() ==> #[trigger] indices[k] < pow2(
                    rate.spec_pulse_widths()[k] as nat,
                )
        }),
{
    law_searched_pulses_decode(budget, it, sign, Word16(512), chosen);
    let slots = filled_slots(sign, chosen, budget.pulses() as int);
    let indices = packed_indices(budget, slots);
    let widths = rate.spec_pulse_widths();
    assert forall|k: int| 0 <= k < widths.len() implies #[trigger] indices[k] < pow2(
        widths[k] as nat,
    ) by {
        law_packed_indices_fit(budget, slots, k);
        assert(field_width(budget, k) == widths[k]);
    }
}

/// At the other rates.
proof fn lemma_sent_pulses(
    rate: Rate,
    target: Seq<Word16>,
    reference: Seq<Word16>,
    response: Seq<Word16>,
    filtered: Seq<Word16>,
)
    requires
        rate.wf(),
        0 < rate.spec_index() < 9,
    ensures
        indices_stand_for(
            sent_indices(rate, target, reference, response, filtered),
            rate,
            searched_code(rate, target, reference, response, filtered),
        ),
{
    reveal(sent_indices);
    reveal(searched_code);
    let indices = sent_indices(rate, target, reference, response, filtered);
    let found = searched_code(rate, target, reference, response, filtered);
    let dn = correlation(response, target);
    let bits = rate.spec_bits() as usize;
    let budget = PulseBudget::spec_from_frame_bits(bits)->0;
    let v = search_view(dn, reference, response, budget);
    let rounds = budget.spec_iterations(bits) as int;
    let it = lemma_outcome_tracks(dn, reference, response, budget, filtered, rounds);
    let best = search_outcome(v, budget, filtered, rounds);
    let shift = impulse_scaling(response, budget);
    let amplitude = shr(Word16(512), shift);
    lemma_amplitude(response, budget);
    lemma_pulses_fit(rate, budget, it, v.sign, best.2);
    let n = rate.spec_pulse_widths().len() as int;
    lemma_decoded_pulses(budget, n, bits, it, v.sign, amplitude, best.2);
    assert(proportional(sent_code(indices.take(n), bits), found.code, amplitude.0 as int));
}

/// Whether a codeword at pulses of 512 is another at pulses of `amplitude`.
pub open spec fn proportional(a: Seq<Word16>, b: Seq<Word16>, amplitude: int) -> bool {
    forall|i: int| 0 <= i < 64 ==> #[trigger] a[i].0 * amplitude == 512 * b[i].0
}

// ---------------------------------------------------------------------------
// Subframes
// ---------------------------------------------------------------------------

/// What is written for indices are bits.
proof fn lemma_index_bits_are_bits(indices: Seq<u16>, widths: Seq<usize>, n: int)
    ensures
        all_bits(index_bits(indices, widths, n)),
    decreases n,
{
    if n > 0 {
        lemma_index_bits_are_bits(indices, widths, n - 1);
        lemma_bits_length(indices[n - 1] as int, widths[n - 1] as int);
    }
}

/// The high-band gain index of a subframe.
pub open spec fn gain_of_band(c: CoreView, s: SubframeView, exc: Seq<Word16>) -> int {
    band_index(
        enhanced_band(c, s, exc),
        s.aq,
        band_excitation(c, s, exc),
        s.q_new,
        subframe_pcm(s),
        s.vad_hist,
        s.hangover,
    )
}

/// The parameters that the encoder chose for a subframe.
#[verifier::opaque]
pub open spec fn chosen_fields(c: CoreView, s: SubframeView, exc: Seq<Word16>) -> SubframeFields {
    let index = s.rate.spec_index() as int;
    SubframeFields {
        pitch_lag: lag_of(c, s, exc).0,
        pitch_frac: lag_of(c, s, exc).1,
        ltp_filter: lag_is_quartered(index) && prefers_sharp(c, s, exc),
        gain_index: gain_index(c, s, exc),
        pulses: pulse_indices(c, s, exc).take(pulse_field_widths(index).len() as int),
        hf_gain: if index == 8 {
            Some(gain_of_band(c, s, exc) as u16)
        } else {
            None
        },
    }
}

/// What the layout of a subframe needs: the budget is the rate's, its lag is
/// spelled as its place says, and its window is one.
pub open spec fn laid_out(s: SubframeView, k: int) -> bool {
    &&& s.rate.wf()
    &&& s.rate.spec_index() <= 8
    &&& s.mode.frame_bits() == s.rate.spec_bits()
    &&& s.absolute == lag_is_absolute(s.rate.spec_index() as int, k)
    &&& PIT_MIN <= s.lag_window.min
    &&& s.lag_window.max <= PIT_MAX
    &&& s.lag_window.max - s.lag_window.min == 15
}

/// The index of the searched lag.
pub open spec fn sent_lag(c: CoreView, s: SubframeView, exc: Seq<Word16>) -> int {
    let (t0, frac) = lag_of(c, s, exc);
    lag_index(t0 as i16, frac as i16, s.lag_window.min, s.absolute, quarter_of(s)).0 as int
}

/// The lag's index is written as it is, and names the lag.
proof fn lemma_lag_written(c: CoreView, s: SubframeView, exc: Seq<Word16>, k: int)
    requires
        laid_out(s, k),
    ensures
        ({
            let index = s.rate.spec_index() as int;
            &&& lag_bits(c, s, exc) == bits_of(sent_lag(c, s, exc), lag_field_bits(index, k))
            &&& 0 <= sent_lag(c, s, exc) < pow2(lag_field_bits(index, k) as nat)
            &&& named_lag(
                sent_lag(c, s, exc),
                s.lag_window.min as int,
                s.absolute,
                lag_is_quartered(index),
            ) == lag_of(c, s, exc)
            &&& PIT_MIN <= lag_of(c, s, exc).0 <= PIT_MAX
        }),
{
    let (t0, frac) = lag_of(c, s, exc);
    law_subframe_lag_is_codable(c, s, exc);
    law_lag_index_reads_back(t0 as i16, frac as i16, s.lag_window.min, s.absolute, quarter_of(s));
}

/// The parts of what a subframe writes, each as long as the layout says.
proof fn lemma_parts(c: CoreView, s: SubframeView, exc: Seq<Word16>, k: int)
    requires
        laid_out(s, k),
    ensures
        ({
            let index = s.rate.spec_index() as int;
            let widths = s.rate.spec_pulse_widths();
            let indices = pulse_indices(c, s, exc);
            let code = index_bits(indices, widths, widths.len() as int);
            &&& widths == pulse_field_widths(index)
            &&& indices_stand_for(indices, s.rate, code_of(c, s, exc))
            &&& forall|j: int| 0 <= j < widths.len() ==> 1 <= #[trigger] widths[j] <= 14
            &&& code.len() == pulse_field_bits(index)
            &&& lag_bits(c, s, exc).len() == lag_field_bits(index, k)
            &&& ltp_bits(c, s, exc).len() == ltp_field_bits(index)
            &&& 0 <= gain_index(c, s, exc) < pow2(gain_field_bits(index) as nat)
            &&& band_bits(c, s, exc).len() == band_field_bits(index)
            &&& 0 <= gain_of_band(c, s, exc) < 16
            &&& subframe_bits(c, s, exc) == lag_bits(c, s, exc) + ltp_bits(c, s, exc) + code
                + bits_of(gain_index(c, s, exc), gain_field_bits(index)) + band_bits(c, s, exc)
            &&& subframe_bits(c, s, exc).len() == subframe_field_bits(index, k)
            &&& all_bits(subframe_bits(c, s, exc))
        }),
{
    reveal(subframe_bits);
    reveal(gain_index);
    lemma2_to64();
    let index = s.rate.spec_index() as int;
    let widths = s.rate.spec_pulse_widths();
    let indices = pulse_indices(c, s, exc);
    lemma_lag_written(c, s, exc, k);
    lemma_bits_length(sent_lag(c, s, exc), lag_field_bits(index, k));
    lemma_bits_length(gain_index(c, s, exc), gain_field_bits(index));
    lemma_bits_length(gain_of_band(c, s, exc), 4);
    lemma_bits_length(0, 1);
    lemma_bits_length(1, 1);
    lemma_pulse_width(s.rate);
    lemma_index_bits(indices, widths, widths.len() as int);
    lemma_index_bits_are_bits(indices, widths, widths.len() as int);
    assert(widths =~= pulse_field_widths(index));
    law_gain_index_fits(c.past_energy, gain_view(c, s, exc));
    law_band_index_fits(
        enhanced_band(c, s, exc),
        s.aq,
        band_excitation(c, s, exc),
        s.q_new,
        subframe_pcm(s),
        s.vad_hist,
        s.hangover,
    );
    if index == 0 {
        lemma_sent_pair(
            s.rate,
            winner(c, s, exc).target,
            code_reference(c, s, exc),
            code_response(c, s, exc),
            smooth_candidate(c, s, exc).response,
        );
    } else {
        lemma_sent_pulses(
            s.rate,
            winner(c, s, exc).target,
            code_reference(c, s, exc),
            code_response(c, s, exc),
            smooth_candidate(c, s, exc).response,
        );
    }
}

/// A value and a width, as they are written.
pub struct Written {
    pub value: int,
    pub width: int,
}

/// The bits of a value.
spec fn spelled(w: Written) -> Seq<u8> {
    bits_of(w.value, w.width)
}

spec fn fits(w: Written) -> bool {
    0 <= w.width <= 16 && 0 <= w.value < pow2(w.width as nat)
}

/// A value in a row of fields reads back.
proof fn lemma_value_reads_back(whole: Seq<u8>, before: Seq<u8>, w: Written, after: Seq<u8>)
    requires
        fits(w),
        whole == before + spelled(w) + after,
    ensures
        field(whole, before.len() as int, w.width) == w.value,
{
    law_written_fields_read_back(before, w.value, w.width, after);
}

/// Five parts in a row read back.
proof fn lemma_row_reads_back(
    before: Seq<u8>,
    lag: Written,
    ltp: Written,
    indices: Seq<u16>,
    widths: Seq<usize>,
    gain: Written,
    band: Written,
    after: Seq<u8>,
)
    requires
        fits(lag),
        fits(ltp),
        fits(gain),
        fits(band),
        widths.len() <= indices.len(),
        forall|j: int| 0 <= j < widths.len() ==> 1 <= #[trigger] widths[j] <= 14,
        forall|j: int| 0 <= j < widths.len() ==> #[trigger] indices[j] < pow2(widths[j] as nat),
    ensures
        ({
            let n = widths.len() as int;
            let code = index_bits(indices, widths, n);
            let whole = before + (spelled(lag) + spelled(ltp) + code + spelled(gain) + spelled(
                band,
            )) + after;
            let at = before.len() as int;
            let past = at + lag.width + ltp.width + total_width(widths, n);
            &&& field(whole, at, lag.width) == lag.value
            &&& field(whole, at + lag.width, ltp.width) == ltp.value
            &&& fields_at(whole, at + lag.width + ltp.width, widths) == indices.take(n)
            &&& field(whole, past, gain.width) == gain.value
            &&& field(whole, past + gain.width, band.width) == band.value
        }),
{
    let n = widths.len() as int;
    let code = index_bits(indices, widths, n);
    let (a, b, d, e) = (spelled(lag), spelled(ltp), spelled(gain), spelled(band));
    let whole = before + (a + b + code + d + e) + after;
    lemma_bits_length(lag.value, lag.width);
    lemma_bits_length(ltp.value, ltp.width);
    lemma_bits_length(gain.value, gain.width);
    lemma_bits_length(band.value, band.width);
    lemma_index_bits(indices, widths, n);
    assert(whole =~= before + a + (b + code + d + e + after));
    lemma_value_reads_back(whole, before, lag, b + code + d + e + after);
    assert(whole =~= (before + a) + b + (code + d + e + after));
    lemma_value_reads_back(whole, before + a, ltp, code + d + e + after);
    assert(whole =~= (before + a + b) + code + (d + e + after));
    lemma_fields_read_back(before + a + b, indices, widths, d + e + after);
    assert(whole =~= (before + a + b + code) + d + (e + after));
    lemma_value_reads_back(whole, before + a + b + code, gain, e + after);
    assert(whole =~= (before + a + b + code + d) + e + after);
    lemma_value_reads_back(whole, before + a + b + code + d, band, after);
}

/// A subframe reads back, wherever it stands; its lag up to the window that a
/// step counts from.
proof fn lemma_subframe_reads_back(
    before: Seq<u8>,
    c: CoreView,
    s: SubframeView,
    exc: Seq<Word16>,
    after: Seq<u8>,
    k: int,
)
    requires
        laid_out(s, k),
        before.len() == subframe_start(s.rate.spec_index() as int, k),
    ensures
        ({
            let index = s.rate.spec_index() as int;
            let bits = before + subframe_bits(c, s, exc) + after;
            let read = subframe_fields(bits, index, k);
            let chosen = chosen_fields(c, s, exc);
            &&& field(bits, subframe_start(index, k), lag_field_bits(index, k)) == sent_lag(
                c,
                s,
                exc,
            )
            &&& read.ltp_filter == chosen.ltp_filter
            &&& read.pulses == chosen.pulses
            &&& read.gain_index == chosen.gain_index
            &&& read.hf_gain == chosen.hf_gain
        }),
{
    reveal(chosen_fields);
    lemma2_to64();
    lemma_lag_written(c, s, exc, k);
    lemma_parts(c, s, exc, k);
    let index = s.rate.spec_index() as int;
    let widths = s.rate.spec_pulse_widths();
    law_fields_fill_the_frame(index);
    let lag = Written { value: sent_lag(c, s, exc), width: lag_field_bits(index, k) };
    let ltp = Written {
        value: if prefers_sharp(c, s, exc) {
            1
        } else {
            0
        },
        width: ltp_field_bits(index),
    };
    let gain = Written { value: gain_index(c, s, exc), width: gain_field_bits(index) };
    let band = Written {
        value: if index == 8 {
            gain_of_band(c, s, exc)
        } else {
            0
        },
        width: band_field_bits(index),
    };
    assert(ltp_bits(c, s, exc) =~= spelled(ltp));
    assert(band_bits(c, s, exc) =~= spelled(band));
    lemma_row_reads_back(before, lag, ltp, pulse_indices(c, s, exc), widths, gain, band, after);
}

// ---------------------------------------------------------------------------
// Frames
// ---------------------------------------------------------------------------

/// What the encoder's subframe `k` reads.
pub open spec fn coded_subframe(
    v: EncoderView,
    books: Codebooks,
    input: Seq<Word16>,
    rate: Rate,
    k: int,
) -> SubframeView {
    subframe_at(v, books, input, rate, loop_run(v, books, input, rate, k).window, k)
}

/// The parameters that the encoder chose for a speech frame.
pub open spec fn chosen_frame(
    v: EncoderView,
    books: Codebooks,
    input: Seq<Word16>,
    rate: Rate,
) -> FrameFields {
    FrameFields {
        vad_flag: voice_active(v, input),
        isf_indices: speech_indices(v, books, input, rate),
        subframes: Seq::new(
            4,
            |k: int|
                chosen_fields(
                    loop_run(v, books, input, rate, k).core,
                    coded_subframe(v, books, input, rate, k),
                    loop_run(v, books, input, rate, k).exc,
                ),
        ),
    }
}

spec fn is_window(w: LagWindow) -> bool {
    PIT_MIN <= w.min && w.max <= PIT_MAX && w.max - w.min == 15
}

/// The loop writes where the layout says, and keeps a window.
proof fn lemma_loop_layout(
    v: EncoderView,
    books: Codebooks,
    input: Seq<Word16>,
    rate: Rate,
    k: int,
)
    requires
        rate.wf(),
        rate.spec_index() <= 8,
        !is_comfort_noise(v, input),
        0 <= k <= 4,
    ensures
        ({
            let l = loop_run(v, books, input, rate, k);
            &&& l.bits.len() == subframe_start(rate.spec_index() as int, k)
            &&& all_bits(l.bits)
            &&& is_window(l.window)
            &&& laid_out(coded_subframe(v, books, input, rate, k), k) || k == 4
        }),
    decreases k,
{
    let index = rate.spec_index() as int;
    let l = loop_run(v, books, input, rate, k);
    if k == 0 {
        law_fields_fill_the_frame(index);
        let indices = speech_indices(v, books, input, rate);
        let widths = rate.spec_isf_widths();
        assert(widths =~= isf_field_widths(index));
        lemma_index_bits(indices, widths, widths.len() as int);
        lemma_index_bits_are_bits(indices, widths, widths.len() as int);
        lemma_bits_length(0, 1);
        lemma_bits_length(1, 1);
    } else {
        lemma_loop_layout(v, books, input, rate, k - 1);
        let before = loop_run(v, books, input, rate, k - 1);
        let s = coded_subframe(v, books, input, rate, k - 1);
        lemma_parts(before.core, s, before.exc, k - 1);
        reveal(next_window);
    }
}

/// Later subframes only append.
proof fn lemma_loop_appends(
    v: EncoderView,
    books: Codebooks,
    input: Seq<Word16>,
    rate: Rate,
    k: int,
    n: int,
)
    requires
        0 <= k <= n,
    ensures
        ({
            let a = loop_run(v, books, input, rate, k).bits;
            let b = loop_run(v, books, input, rate, n).bits;
            a.len() <= b.len() && b == a + b.skip(a.len() as int)
        }),
    decreases n,
{
    let a = loop_run(v, books, input, rate, k).bits;
    let b = loop_run(v, books, input, rate, n).bits;
    if k < n {
        lemma_loop_appends(v, books, input, rate, k, n - 1);
        let m = loop_run(v, books, input, rate, n - 1).bits;
        assert(m.len() <= b.len() && b.take(m.len() as int) =~= m);
        assert(m.take(a.len() as int) =~= a);
        assert(b.take(a.len() as int) =~= a);
        assert(b =~= a + b.skip(a.len() as int));
    } else {
        assert(b =~= a + b.skip(a.len() as int));
    }
}

/// Subframe `k` of a frame's bits reads back.
proof fn lemma_subframe_of_frame(
    v: EncoderView,
    books: Codebooks,
    input: Seq<Word16>,
    rate: Rate,
    k: int,
)
    requires
        rate.wf(),
        rate.spec_index() <= 8,
        !is_comfort_noise(v, input),
        0 <= k < 4,
    ensures
        ({
            let bits = loop_run(v, books, input, rate, 4).bits;
            let index = rate.spec_index() as int;
            let l = loop_run(v, books, input, rate, k);
            let s = coded_subframe(v, books, input, rate, k);
            &&& subframe_fields(bits, index, k) == chosen_fields(l.core, s, l.exc)
            &&& crate::params::window_at(bits, index, k) == loop_run(
                v,
                books,
                input,
                rate,
                k + 1,
            ).window
        }),
    decreases k,
{
    let bits = loop_run(v, books, input, rate, 4).bits;
    let index = rate.spec_index() as int;
    let l = loop_run(v, books, input, rate, k);
    let next = loop_run(v, books, input, rate, k + 1);
    let s = coded_subframe(v, books, input, rate, k);
    lemma_loop_layout(v, books, input, rate, k);
    lemma_loop_appends(v, books, input, rate, k + 1, 4);
    let after = bits.skip(next.bits.len() as int);
    assert(next.bits == l.bits + subframe_bits(l.core, s, l.exc));
    assert(bits == l.bits + subframe_bits(l.core, s, l.exc) + after);
    lemma_subframe_reads_back(l.bits, l.core, s, l.exc, after, k);
    lemma_lag_written(l.core, s, l.exc, k);
    reveal(next_window);
    reveal(chosen_fields);
    if k > 0 {
        lemma_subframe_of_frame(v, books, input, rate, k - 1);
    }
    let raw = field(bits, subframe_start(index, k), lag_field_bits(index, k));
    assert(raw == sent_lag(l.core, s, l.exc));
    if lag_is_absolute(index, k) {
        assert(named_lag(raw, 0, true, lag_is_quartered(index)) == lag_of(l.core, s, l.exc));
    } else {
        assert(s.lag_window == l.window);
        assert(crate::params::window_at(bits, index, k - 1) == l.window);
    }
    assert(lag_at(bits, index, k) == lag_of(l.core, s, l.exc));
}

/// What the encoder writes, the decoder reads: the payload of a speech frame
/// is accepted at its rate, unsorts to the bits that were written, and parses
/// into the voice activity, the spectrum's indices, and for each subframe the
/// lag, the filter choice, the codebook indices, the gain index and the
/// high-band gain that the encoder chose.
pub proof fn law_decoder_reads_what_was_written(
    v: EncoderView,
    books: Codebooks,
    input: Seq<Word16>,
    rate: Rate,
)
    requires
        rate.wf(),
        rate.spec_index() <= 8,
        !is_comfort_noise(v, input),
    ensures
        ({
            let index = rate.spec_index() as int;
            let payload = frame_payload(v, books, input, rate);
            &&& 8 * payload.len() >= frame_bits(index)
            &&& payload_bits(payload, index) == frame_codec_bits(v, books, input, rate)
            &&& frame_fields(payload_bits(payload, index), index) == chosen_frame(
                v,
                books,
                input,
                rate,
            )
        }),
{
    lemma_payload_unsorts(v, books, input, rate);
    lemma_bits_parse(v, books, input, rate);
}

/// The payload unsorts to the bits that were written.
proof fn lemma_payload_unsorts(v: EncoderView, books: Codebooks, input: Seq<Word16>, rate: Rate)
    requires
        rate.wf(),
        rate.spec_index() <= 8,
        !is_comfort_noise(v, input),
    ensures
        ({
            let index = rate.spec_index() as int;
            let payload = frame_payload(v, books, input, rate);
            &&& 8 * payload.len() >= frame_bits(index)
            &&& payload_bits(payload, index) == frame_codec_bits(v, books, input, rate)
        }),
{
    let index = rate.spec_index() as int;
    let bits = frame_codec_bits(v, books, input, rate);
    law_fields_fill_the_frame(index);
    lemma_loop_layout(v, books, input, rate, 4);
    law_orders_are_permutations(index);
    lemma_order_length(index);
    law_unpacking_undoes_packing(order_of(index), bits);
}

/// The bits parse into what was chosen.
proof fn lemma_bits_parse(v: EncoderView, books: Codebooks, input: Seq<Word16>, rate: Rate)
    requires
        rate.wf(),
        rate.spec_index() <= 8,
        !is_comfort_noise(v, input),
    ensures
        frame_fields(
            frame_codec_bits(v, books, input, rate),
            rate.spec_index() as int,
        ) == chosen_frame(v, books, input, rate),
{
    let index = rate.spec_index() as int;
    let bits = frame_codec_bits(v, books, input, rate);
    lemma_head_of_frame(v, books, input, rate);
    reveal(frame_fields);
    let read = frame_fields(bits, index);
    let chosen = chosen_frame(v, books, input, rate);
    assert forall|k: int| 0 <= k < 4 implies #[trigger] read.subframes[k] == chosen.subframes[k] by {
        lemma_subframe_of_frame(v, books, input, rate, k);
        assert(read.subframes[k] == subframe_fields(bits, index, k));
    }
    assert(read.subframes =~= chosen.subframes);
}

/// The voice activity and the spectrum's indices read back.
proof fn lemma_head_of_frame(v: EncoderView, books: Codebooks, input: Seq<Word16>, rate: Rate)
    requires
        rate.wf(),
        rate.spec_index() <= 8,
        !is_comfort_noise(v, input),
    ensures
        ({
            let bits = loop_run(v, books, input, rate, 4).bits;
            let index = rate.spec_index() as int;
            &&& (field(bits, 0, 1) == 1) == voice_active(v, input)
            &&& padded(fields_at(bits, 1, isf_field_widths(index))) == speech_indices(
                v,
                books,
                input,
                rate,
            )
        }),
{
    lemma2_to64();
    let bits = loop_run(v, books, input, rate, 4).bits;
    let index = rate.spec_index() as int;
    let start = loop_run(v, books, input, rate, 0).bits;
    lemma_loop_appends(v, books, input, rate, 0, 4);
    let after = bits.skip(start.len() as int);
    let flag = Written {
        value: if voice_active(v, input) {
            1
        } else {
            0
        },
        width: 1,
    };
    let indices = speech_indices(v, books, input, rate);
    let widths = rate.spec_isf_widths();
    assert(widths =~= isf_field_widths(index));
    law_chosen_indices_fit(
        books.isf,
        rate.spec_isf_quantiser(),
        crate::isf_quant::search_target(
            books.isf,
            crate::enc::encoder::raw_isf(v, input),
            v.isf_past,
        ),
    );
    let spectrum = index_bits(indices, widths, widths.len() as int);
    lemma_bits_length(flag.value, 1);
    assert(start == spelled(flag) + spectrum);
    let none = Seq::<u8>::empty();
    assert(bits =~= none + spelled(flag) + (spectrum + after));
    lemma_value_reads_back(bits, none, flag, spectrum + after);
    assert(bits =~= spelled(flag) + spectrum + after);
    lemma_fields_read_back(spelled(flag), indices, widths, after);
    assert(padded(indices.take(widths.len() as int)) =~= indices);
}

// ---------------------------------------------------------------------------
// Comfort noise
// ---------------------------------------------------------------------------

/// Payloads that agree on what an order sends unsort alike.
proof fn lemma_unsorted_agrees(order: Seq<u16>, p: Seq<u8>, q: Seq<u8>, n: int)
    requires
        forall|i: int| 0 <= i < n ==> #[trigger] payload_bit(p, i) == payload_bit(q, i),
    ensures
        unsorted(order, p, n) == unsorted(order, q, n),
    decreases n,
{
    if n > 0 {
        lemma_unsorted_agrees(order, p, q, n - 1);
        assert(payload_bit(p, n - 1) == payload_bit(q, n - 1));
    }
}

/// The row of fields of a comfort-noise frame reads back.
proof fn lemma_noise_row(indices: Seq<u16>, energy: Written, dither: Written)
    requires
        indices.len() == 5,
        indices_fit(indices),
        fits(energy),
        fits(dither),
        energy.width == 6,
        dither.width == 1,
    ensures
        ({
            let bits = index_bits(indices, sid_widths(), 5) + spelled(energy) + spelled(dither);
            &&& bits.len() == 35
            &&& all_bits(bits)
            &&& field(bits, 0, 6) == indices[0]
            &&& field(bits, 6, 6) == indices[1]
            &&& field(bits, 12, 6) == indices[2]
            &&& field(bits, 18, 5) == indices[3]
            &&& field(bits, 23, 5) == indices[4]
            &&& field(bits, 28, 6) == energy.value
            &&& bits[34] == dither.value
        }),
{
    lemma2_to64();
    reveal_with_fuel(total_width, 6);
    let widths = sid_widths();
    let rows = index_bits(indices, widths, 5);
    let (e, d) = (spelled(energy), spelled(dither));
    let bits = rows + e + d;
    let none = Seq::<u8>::empty();
    lemma_index_bits(indices, widths, 5);
    lemma_index_bits_are_bits(indices, widths, 5);
    lemma_bits_length(energy.value, 6);
    lemma_bits_length(dither.value, 1);
    assert(bits =~= none + rows + (e + d));
    assert forall|k: int| 0 <= k < 5 implies #[trigger] indices[k] < pow2(widths[k] as nat) by {
    }
    lemma_indices_read_back(none, indices, widths, 5, e + d, 0);
    lemma_indices_read_back(none, indices, widths, 5, e + d, 1);
    lemma_indices_read_back(none, indices, widths, 5, e + d, 2);
    lemma_indices_read_back(none, indices, widths, 5, e + d, 3);
    lemma_indices_read_back(none, indices, widths, 5, e + d, 4);
    lemma_value_reads_back(bits, rows, energy, d);
    assert(bits =~= (rows + e) + d + none);
    lemma_value_reads_back(bits, rows + e, dither, none);
    reveal_with_fuel(field, 2);
}

/// What the encoder writes into a comfort-noise frame, the decoder reads: any
/// payload that carries its thirty-five bits, whatever marks follow them,
/// parses into the spectrum's indices, the energy index and the dither flag
/// that the encoder chose.
pub proof fn law_decoder_reads_the_noise(
    v: EncoderView,
    books: Codebooks,
    input: Seq<Word16>,
    rate: Rate,
    payload: Seq<u8>,
)
    requires
        is_comfort_noise(v, input),
        payload.len() == 5,
        forall|i: int|
            0 <= i < 35 ==> #[trigger] payload_bit(payload, i) == payload_bit(
                frame_payload(v, books, input, rate),
                i,
            ),
    ensures
        ({
            let dtx = quiet_dtx(v, input, rate);
            let sid = sid_of(RxFrameType::SidUpdate, payload)->0;
            &&& sid.isf_indices@ == sid_indices(v, books, input, rate)
            &&& sid.energy_index == energy_index(dtx.log_en_hist)
            &&& sid.dither == needs_dither(sid_built(dtx))
        }),
{
    let dtx = quiet_dtx(v, input, rate);
    let indices = sid_indices(v, books, input, rate);
    let energy = Written { value: energy_index(dtx.log_en_hist).0 as int, width: 6 };
    let dither = Written {
        value: if needs_dither(sid_built(dtx)) {
            1
        } else {
            0
        },
        width: 1,
    };
    lemma2_to64();
    assert(0 <= energy.value <= 63) by {
        reveal(energy_index);
    }
    lemma_noise_indices_fit(v, books, input, rate);
    lemma_noise_row(indices, energy, dither);
    let bits = sid_frame_bits(v, books, input, rate);
    assert(bits == index_bits(indices, sid_widths(), 5) + spelled(energy) + spelled(dither));
    let sent = frame_payload(v, books, input, rate);
    law_orders_are_permutations(9);
    lemma_order_length(9);
    law_unpacking_undoes_packing(order_of(9), bits);
    lemma_unsorted_agrees(order_of(9), payload, sent, 35);
    let whole = sid_bits(payload);
    assert(whole.take(35) == bits);
    lemma_unsorted_len(order_of(9), payload, 35);
    lemma_field_prefix(whole, 35, 0, 6);
    lemma_field_prefix(whole, 35, 6, 6);
    lemma_field_prefix(whole, 35, 12, 6);
    lemma_field_prefix(whole, 35, 18, 5);
    lemma_field_prefix(whole, 35, 23, 5);
    lemma_field_prefix(whole, 35, 28, 6);
    assert(whole[34] == whole.take(35)[34]);
    let sid = sid_of(RxFrameType::SidUpdate, payload)->0;
    assert(sid.isf_indices@ =~= indices);
}

/// The indices of a comfort-noise spectrum fit their widths.
proof fn lemma_noise_indices_fit(
    v: EncoderView,
    books: Codebooks,
    input: Seq<Word16>,
    rate: Rate,
)
    ensures
        indices_fit(sid_indices(v, books, input, rate)),
{
    let isf = sid_isf(quiet_dtx(v, input, rate));
    reveal(quantised_index);
    assert forall|k: int| 0 <= k < 5 implies 0 <= #[trigger] quantised_index(books.noise, isf, k)
        < split_count(k) by {
        crate::vq::lemma_nearest_range(
            crate::isf_noise::centred(books.noise, isf),
            crate::isf_noise::split_start(k),
            crate::isf_noise::book_of(books.noise, k),
            crate::isf_noise::split_size(k),
            split_count(k),
        );
    }
    let i = sid_indices(v, books, input, rate);
    assert(0 <= quantised_index(books.noise, isf, 0) < 64 && i[0] < 64);
    assert(0 <= quantised_index(books.noise, isf, 1) < 64 && i[1] < 64);
    assert(0 <= quantised_index(books.noise, isf, 2) < 64 && i[2] < 64);
    assert(0 <= quantised_index(books.noise, isf, 3) < 32 && i[3] < 32);
    assert(0 <= quantised_index(books.noise, isf, 4) < 32 && i[4] < 32);
}

// ---------------------------------------------------------------------------
// In step
// ---------------------------------------------------------------------------

/// The two ends' spectra stay in step: a decoder that predicts from what the
/// encoder predicts from reads the spectrum that the encoder quantised, and
/// predicts from the same afterwards.
pub proof fn law_spectra_stay_in_step(
    v: EncoderView,
    books: Codebooks,
    input: Seq<Word16>,
    rate: Rate,
    d: DecoderView,
    t: DecoderTables,
)
    requires
        rate.wf(),
        rate.spec_index() <= 8,
        !is_comfort_noise(v, input),
        t.isf == books.isf,
        d.isf.past == v.isf_past,
    ensures
        ({
            let payload = frame_payload(v, books, input, rate);
            let f = frame_of(rate.spec_index() as int, payload, FrameQuality::Good);
            &&& spectrum_of(d, t, f) == speech_isf(v, books, input, rate)
            &&& spectrum_state(d, t, f).past == after_frame(v, books, input, rate).isf_past
        }),
{
    law_decoder_reads_what_was_written(v, books, input, rate);
    reveal(spectrum_of);
    reveal(spectrum_state);
}

/// Both ends shape a codeword alike: with the same tilt and the same lag, the
/// decoder's innovation is the encoder's shaped code.
pub proof fn law_two_ends_shape_alike(
    c: CoreView,
    s: SubframeView,
    exc: Seq<Word16>,
    d: crate::speech::CoreView,
    t: crate::speech::SpeechView,
)
    requires
        !crate::speech::is_lost(t),
        d.tilt_code == c.tilt_code,
        crate::speech::used_lag(d, t) == lag_of(c, s, exc),
        code_of(c, s, exc).code.len() == 64,
        crate::speech::sent_code(t.fields.pulses, t.frame_bits) == code_of(c, s, exc).code,
    ensures
        crate::speech::innovation(d, t) == crate::enc::subframe::shaped_code(c, s, exc),
{
    reveal(crate::speech::innovation);
}

} // verus!
