//! A recording of the encoder's intermediates, row by row.

use vstd::prelude::*;
use crate::enc::analysis::FrontEndFrame;
use crate::enc::preproc::L_FRAME16K;
use crate::enc::subframe::{SubframeTrace, TraceView};
use crate::fixed_point::Word16;
use crate::isf_noise::LP_ORDER;
use crate::lp::NB_SUBFR;

verus! {

/// A recorded row as plain values.
pub struct RowView {
    pub frame: int,
    /// The subframe, or -1 for a row of the whole frame.
    pub subframe: int,
    pub name: Seq<char>,
    pub values: Seq<i32>,
}

/// A row of words.
pub open spec fn word_row(frame: int, subframe: int, name: Seq<char>, x: Seq<Word16>) -> RowView {
    RowView { frame, subframe, name, values: Seq::new(x.len(), |i: int| x[i].0 as i32) }
}

/// A row of one number.
pub open spec fn value_row(frame: int, subframe: int, name: Seq<char>, value: i32) -> RowView {
    RowView { frame, subframe, name, values: seq![value] }
}

/// Whether a row answers to a frame, a subframe and a name.
pub open spec fn answers(r: RowView, frame: int, subframe: int, name: Seq<char>) -> bool {
    r.frame == frame && r.subframe == subframe && r.name == name
}

/// A recording of every intermediate.
///
/// Off by default; a divergence between two encoders is found by comparing
/// rows rather than by reasoning about output.
#[derive(Clone, Debug)]
pub struct EncoderTrace {
    rows: Vec<(usize, i32, &'static str, Vec<i32>)>,
}

/// A recorded row.
pub open spec fn row_of(r: (usize, i32, &'static str, Vec<i32>)) -> RowView {
    RowView { frame: r.0 as int, subframe: r.1 as int, name: r.2@, values: r.3@ }
}

/// Whether two texts are the same.
fn same_text(a: &str, b: &str) -> (same: bool)
    ensures
        same == (a@ == b@),
{
    let n: usize = a.unicode_len();
    if n != b.unicode_len() {
        return false;
    }
    for i in 0..n
        invariant
            n == a@.len(),
            n == b@.len(),
            forall|j: int| 0 <= j < i ==> a@[j] == b@[j],
    {
        if a.get_char(i) != b.get_char(i) {
            assert(a@[i as int] != b@[i as int]);
            return false;
        }
    }
    assert(a@ =~= b@);
    true
}

impl EncoderTrace {
    /// The rows as plain values.
    pub closed spec fn view(&self) -> Seq<RowView> {
        Seq::new(self.rows@.len(), |i: int| row_of(self.rows@[i]))
    }

    /// An empty recording.
    pub fn new() -> (t: Self)
        ensures
            t@ == Seq::<RowView>::empty(),
    {
        let t = EncoderTrace { rows: Vec::new() };
        assert(t@ =~= Seq::<RowView>::empty());
        t
    }

    /// Every recorded row: frame, subframe, name and values, with a subframe
    /// of -1 for rows of the whole frame.
    #[must_use]
    pub fn rows(&self) -> (rows: &[(usize, i32, &'static str, Vec<i32>)])
        ensures
            rows@.len() == self@.len(),
            forall|i: int| 0 <= i < rows@.len() ==> row_of(#[trigger] rows@[i]) == self@[i],
    {
        self.rows.as_slice()
    }

    /// One row's values, the first recorded under that name; `None` if it
    /// never was.
    #[must_use]
    pub fn row(&self, frame: usize, subframe: i32, name: &str) -> (values: Option<&[i32]>)
        ensures
            values is None <==> forall|i: int|
                0 <= i < self@.len() ==> !answers(
                    #[trigger] self@[i],
                    frame as int,
                    subframe as int,
                    name@,
                ),
            values is Some ==> exists|i: int|
                {
                    &&& 0 <= i < self@.len()
                    &&& answers(#[trigger] self@[i], frame as int, subframe as int, name@)
                    &&& values->0@ == self@[i].values
                    &&& forall|j: int|
                        0 <= j < i ==> !answers(
                            #[trigger] self@[j],
                            frame as int,
                            subframe as int,
                            name@,
                        )
                },
    {
        for i in 0..self.rows.len()
            invariant
                forall|j: int|
                    0 <= j < i ==> !answers(
                        #[trigger] self@[j],
                        frame as int,
                        subframe as int,
                        name@,
                    ),
        {
            let r = &self.rows[i];
            if r.0 == frame && r.1 == subframe && same_text(r.2, name) {
                assert(answers(self@[i as int], frame as int, subframe as int, name@));
                return Some(r.3.as_slice());
            }
        }
        None
    }

    /// Record a row of words.
    fn words(&mut self, frame: usize, subframe: i32, name: &'static str, x: &[Word16])
        ensures
            final(self)@ == old(self)@.push(word_row(frame as int, subframe as int, name@, x@)),
    {
        let ghost before = self@;
        let mut values: Vec<i32> = Vec::new();
        for i in 0..x.len()
            invariant
                values@.len() == i,
                forall|j: int| 0 <= j < i ==> #[trigger] values@[j] == x@[j].0 as i32,
        {
            values.push(x[i].0 as i32);
        }
        assert(values@ =~= Seq::new(x@.len(), |i: int| x@[i].0 as i32));
        self.rows.push((frame, subframe, name, values));
        assert(self@ =~= before.push(word_row(frame as int, subframe as int, name@, x@)));
    }

    /// Record a row of one number.
    fn value(&mut self, frame: usize, subframe: i32, name: &'static str, value: i32)
        ensures
            final(self)@ == old(self)@.push(value_row(frame as int, subframe as int, name@, value)),
    {
        let ghost before = self@;
        let mut values: Vec<i32> = Vec::new();
        values.push(value);
        assert(values@ =~= seq![value]);
        self.rows.push((frame, subframe, name, values));
        assert(self@ =~= before.push(value_row(frame as int, subframe as int, name@, value)));
    }
}

// ---------------------------------------------------------------------------
// The analysis
// ---------------------------------------------------------------------------

/// What the analysis of a frame records.
pub struct AnalysisView {
    pub input: Seq<Word16>,
    pub q_new: i16,
    pub window: Seq<Word16>,
    pub raw_high: Seq<Word16>,
    pub raw_low: Seq<Word16>,
    pub high: Seq<Word16>,
    pub low: Seq<Word16>,
    pub a: Seq<Word16>,
    pub rc: Seq<Word16>,
    pub isp: Seq<Word16>,
    /// Four predictors end to end.
    pub a_interp: Seq<Word16>,
    pub wsp: Seq<Word16>,
    pub wsp_shift: i16,
    /// The smoothed lag, where it was refreshed.
    pub median: Option<i16>,
}

/// Four predictors end to end.
pub open spec fn end_to_end(a: Seq<[Word16; 17]>) -> Seq<Word16> {
    Seq::new(68, |i: int| a[i / 17]@[i % 17])
}

/// What an analysed frame records.
pub open spec fn analysis_view(
    input: Seq<Word16>,
    frame: FrontEndFrame,
    median: Option<i16>,
) -> AnalysisView {
    AnalysisView {
        input,
        q_new: frame.scaling.q_new,
        window: frame.window@,
        raw_high: frame.autocorr_raw.high@,
        raw_low: frame.autocorr_raw.low@,
        high: frame.autocorr.high@,
        low: frame.autocorr.low@,
        a: frame.a@,
        rc: frame.rc@,
        isp: frame.isp@,
        a_interp: end_to_end(frame.a_interp@),
        wsp: frame.wsp@,
        wsp_shift: frame.wsp_shift,
        median,
    }
}

/// The rows of the analysis, in the order that they are computed.
#[verifier::opaque]
pub open spec fn analysis_rows(n: int, v: AnalysisView) -> Seq<RowView> {
    seq![
        word_row(n, -1, "speech16k"@, v.input),
        value_row(n, -1, "Q_new"@, v.q_new as i32),
        word_row(n, -1, "window"@, v.window),
        word_row(n, -1, "r_h_pre"@, v.raw_high),
        word_row(n, -1, "r_l_pre"@, v.raw_low),
        word_row(n, -1, "r_h"@, v.high),
        word_row(n, -1, "r_l"@, v.low),
        word_row(n, -1, "A"@, v.a),
        word_row(n, -1, "rc"@, v.rc),
        word_row(n, -1, "ispnew"@, v.isp),
        word_row(n, -1, "A_interp"@, v.a_interp),
        word_row(n, -1, "wsp"@, v.wsp),
        value_row(n, -1, "wsp_shift"@, v.wsp_shift as i32),
    ] + match v.median {
        Some(lag) => seq![value_row(n, -1, "T_op_med"@, lag as i32)],
        None => Seq::empty(),
    }
}

/// Lay four predictors end to end.
fn flatten(a: &[[Word16; 17]; NB_SUBFR]) -> (flat: [Word16; 68])
    ensures
        flat@ == end_to_end(a@),
{
    let mut flat: [Word16; 68] = [Word16(0); 68];
    for i in 0..68usize
        invariant
            forall|j: int| 0 <= j < i ==> #[trigger] flat@[j] == a@[j / 17]@[j % 17],
    {
        flat[i] = a[i / 17][i % 17];
    }
    assert(flat@ =~= end_to_end(a@));
    flat
}

/// Record the analysis of a frame.
pub fn record_analysis(
    trace: &mut EncoderTrace,
    n: usize,
    input: &[Word16; L_FRAME16K],
    frame: &FrontEndFrame,
    median: Option<i16>,
)
    ensures
        final(trace)@ == old(trace)@ + analysis_rows(
            n as int,
            analysis_view(input@, *frame, median),
        ),
{
    proof {
        reveal(analysis_rows);
    }
    let ghost before = trace@;
    trace.words(n, -1, "speech16k", input);
    trace.value(n, -1, "Q_new", frame.scaling.q_new as i32);
    trace.words(n, -1, "window", &frame.window);
    trace.words(n, -1, "r_h_pre", &frame.autocorr_raw.high);
    trace.words(n, -1, "r_l_pre", &frame.autocorr_raw.low);
    trace.words(n, -1, "r_h", &frame.autocorr.high);
    trace.words(n, -1, "r_l", &frame.autocorr.low);
    trace.words(n, -1, "A", &frame.a);
    trace.words(n, -1, "rc", &frame.rc);
    trace.words(n, -1, "ispnew", &frame.isp);
    let flat = flatten(&frame.a_interp);
    trace.words(n, -1, "A_interp", &flat);
    trace.words(n, -1, "wsp", &frame.wsp);
    trace.value(n, -1, "wsp_shift", frame.wsp_shift as i32);
    if let Some(lag) = median {
        trace.value(n, -1, "T_op_med", lag as i32);
    }
    assert(trace@ =~= before + analysis_rows(n as int, analysis_view(input@, *frame, median)));
}

// ---------------------------------------------------------------------------
// The spectrum
// ---------------------------------------------------------------------------

/// What the quantisation of a spectrum records.
pub struct SpectrumView {
    /// Whether the 36-bit quantiser was used.
    pub narrow: bool,
    pub unquantised: Seq<Word16>,
    pub indices: Seq<u16>,
    pub isf: Seq<Word16>,
    pub stab_fac: Word16,
    pub isp: Seq<Word16>,
    /// Four predictors end to end.
    pub aq: Seq<Word16>,
}

/// The indices that a quantiser uses, as words.
pub open spec fn index_words(indices: Seq<u16>, narrow: bool) -> Seq<Word16> {
    Seq::new(
        if narrow {
            5
        } else {
            7
        },
        |i: int| Word16(indices[i] as i16),
    )
}

/// The rows of a quantised spectrum.
#[verifier::opaque]
pub open spec fn spectrum_rows(n: int, v: SpectrumView) -> Seq<RowView> {
    seq![
        word_row(
            n,
            -1,
            if v.narrow {
                "isf_unq36"@
            } else {
                "isf_unq46"@
            },
            v.unquantised,
        ),
        word_row(
            n,
            -1,
            if v.narrow {
                "isf_indice36"@
            } else {
                "isf_indice46"@
            },
            index_words(v.indices, v.narrow),
        ),
        word_row(n, -1, "isf_q"@, v.isf),
        value_row(n, -1, "stab_fac"@, v.stab_fac.0 as i32),
        word_row(n, -1, "ispnew_q"@, v.isp),
        word_row(n, -1, "Aq"@, v.aq),
    ]
}

/// Record a quantised spectrum.
pub fn record_spectrum(
    trace: &mut EncoderTrace,
    n: usize,
    narrow: bool,
    unquantised: &[Word16; LP_ORDER],
    indices: &[u16; 7],
    isf: &[Word16; LP_ORDER],
    stab_fac: Word16,
    isp: &[Word16; LP_ORDER],
    aq: &[[Word16; 17]; NB_SUBFR],
)
    ensures
        final(trace)@ == old(trace)@ + spectrum_rows(
            n as int,
            (SpectrumView {
                narrow,
                unquantised: unquantised@,
                indices: indices@,
                isf: isf@,
                stab_fac,
                isp: isp@,
                aq: end_to_end(aq@),
            }),
        ),
{
    proof {
        reveal(spectrum_rows);
    }
    let ghost before = trace@;
    let ghost v = SpectrumView {
        narrow,
        unquantised: unquantised@,
        indices: indices@,
        isf: isf@,
        stab_fac,
        isp: isp@,
        aq: end_to_end(aq@),
    };
    let count: usize = if narrow {
        5
    } else {
        7
    };
    let mut words: Vec<Word16> = Vec::new();
    for i in 0..count
        invariant
            count <= 7,
            words@.len() == i,
            forall|j: int| 0 <= j < i ==> #[trigger] words@[j] == Word16(indices@[j] as i16),
    {
        words.push(Word16(indices[i] as i16));
    }
    assert(words@ =~= index_words(indices@, narrow));
    if narrow {
        trace.words(n, -1, "isf_unq36", unquantised);
        trace.words(n, -1, "isf_indice36", words.as_slice());
    } else {
        trace.words(n, -1, "isf_unq46", unquantised);
        trace.words(n, -1, "isf_indice46", words.as_slice());
    }
    trace.words(n, -1, "isf_q", isf);
    trace.value(n, -1, "stab_fac", stab_fac.0 as i32);
    trace.words(n, -1, "ispnew_q", isp);
    let flat = flatten(aq);
    trace.words(n, -1, "Aq", &flat);
    assert(trace@ =~= before + spectrum_rows(n as int, v));
}

// ---------------------------------------------------------------------------
// Subframes
// ---------------------------------------------------------------------------

/// One for true.
pub open spec fn flag(b: bool) -> i32 {
    if b {
        1
    } else {
        0
    }
}

/// The rows of subframe `k`.
#[verifier::opaque]
pub open spec fn subframe_rows(n: int, k: int, shift: i16, t: TraceView) -> Seq<RowView> {
    seq![
        word_row(n, k, "xn"@, t.xn),
        word_row(n, k, "h1"@, t.h1),
        value_row(n, k, "shift"@, shift as i32),
        value_row(n, k, "T0"@, t.t0 as i32),
        value_row(n, k, "T0_frac"@, t.t0_frac as i32),
        value_row(n, k, "T0_min"@, t.window.min as i32),
        value_row(n, k, "T0_max"@, t.window.max as i32),
        value_row(n, k, "gain1"@, t.gain1.0 as i32),
        value_row(n, k, "gain2"@, t.gain2.0 as i32),
        word_row(n, k, "adapt"@, t.adapt),
        word_row(n, k, "y1"@, t.y1),
        word_row(n, k, "xn2"@, t.xn2),
        word_row(n, k, "cn"@, t.cn),
        word_row(n, k, "h2"@, t.h2),
        word_row(n, k, "dn"@, t.dn),
        value_row(n, k, "select"@, flag(t.select)),
        word_row(n, k, "code"@, t.code),
        word_row(n, k, "y2"@, t.y2),
        value_row(n, k, "gain_pit"@, t.gain_pit.0 as i32),
        value_row(n, k, "gain_code"@, t.gain_code.0 as i32),
        value_row(n, k, "L_gain_code"@, t.l_gain_code.0),
        value_row(n, k, "voice_fac"@, t.voice_fac.0 as i32),
        word_row(n, k, "exc_total"@, t.total),
        word_row(n, k, "synth"@, t.synth),
    ]
}

/// Record a subframe.
pub fn record_subframe(trace: &mut EncoderTrace, n: usize, k: i32, shift: i16, t: &SubframeTrace)
    ensures
        final(trace)@ == old(trace)@ + subframe_rows(n as int, k as int, shift, t@),
{
    proof {
        reveal(subframe_rows);
    }
    let ghost before = trace@;
    let select: i32 = if t.select {
        1
    } else {
        0
    };
    trace.words(n, k, "xn", &t.xn);
    trace.words(n, k, "h1", &t.h1);
    trace.value(n, k, "shift", shift as i32);
    trace.value(n, k, "T0", t.t0 as i32);
    trace.value(n, k, "T0_frac", t.t0_frac as i32);
    trace.value(n, k, "T0_min", t.window.min as i32);
    trace.value(n, k, "T0_max", t.window.max as i32);
    trace.value(n, k, "gain1", t.gain1.0 as i32);
    trace.value(n, k, "gain2", t.gain2.0 as i32);
    trace.words(n, k, "adapt", &t.adapt);
    trace.words(n, k, "y1", &t.y1);
    trace.words(n, k, "xn2", &t.xn2);
    trace.words(n, k, "cn", &t.cn);
    trace.words(n, k, "h2", &t.h2);
    trace.words(n, k, "dn", &t.dn);
    trace.value(n, k, "select", select);
    trace.words(n, k, "code", &t.code);
    trace.words(n, k, "y2", &t.y2);
    trace.value(n, k, "gain_pit", t.gain_pit.0 as i32);
    trace.value(n, k, "gain_code", t.gain_code.0 as i32);
    trace.value(n, k, "L_gain_code", t.l_gain_code.0);
    trace.value(n, k, "voice_fac", t.voice_fac.0 as i32);
    trace.words(n, k, "exc_total", &t.total);
    trace.words(n, k, "synth", &t.synth);
    assert(trace@ =~= before + subframe_rows(n as int, k as int, shift, t@));
}

} // verus!
