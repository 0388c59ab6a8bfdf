use amrwb::dtx::{DtxDecoder, DtxState, RxFrameType, SidFields};
use amrwb::fixed_point::{DspContext, Word16};
use amrwb::isf_noise::NoiseCodebooks;

/// A deterministic sequence of small numbers.
struct Steps(u32);

impl Steps {
    fn next(&mut self, span: i16) -> i16 {
        self.0 = self.0.wrapping_mul(1_103_515_245).wrapping_add(12345);
        ((self.0 >> 16) as i32 % (2 * i32::from(span) + 1) - i32::from(span)) as i16
    }

    fn table<const N: usize>(&mut self, span: i16) -> [i16; N] {
        std::array::from_fn(|_| self.next(span))
    }
}

const MEAN: [i16; 16] = [
    738, 1326, 2336, 3578, 4596, 5662, 6711, 7730, 8750, 9753, 10705, 11728, 12833, 13971, 15043,
    4037,
];

fn noise_codebooks() -> NoiseCodebooks {
    let mut s = Steps(2);
    NoiseCodebooks {
        mean: MEAN,
        book0: s.table(400),
        book1: s.table(400),
        book2: s.table(400),
        book3: s.table(400),
        book4: s.table(400),
    }
}

#[test]
fn the_handler_runs_on_speech_and_keeps_the_staleness_counter_moving() {
    let mut ctx = DspContext::default();
    let mut dtx = DtxDecoder::new();
    for _ in 0..30 {
        assert_eq!(
            dtx.receive(&mut ctx, RxFrameType::SpeechGood),
            DtxState::Speech
        );
        dtx.commit(DtxState::Speech);
    }
    assert_eq!(
        dtx.elapsed_count(),
        Word16(32767),
        "the counter must saturate rather than wrap"
    );
    assert_eq!(
        dtx.receive(&mut ctx, RxFrameType::SidFirst),
        DtxState::ComfortNoise
    );
    assert!(
        dtx.hangover_added(),
        "a SID_FIRST after a talk spurt must permit the backward analysis"
    );
}

#[test]
fn a_long_gap_without_an_update_fades_to_mute() {
    let mut ctx = DspContext::default();
    let mut dtx = DtxDecoder::new();
    dtx.receive(&mut ctx, RxFrameType::SidFirst);
    dtx.commit(DtxState::ComfortNoise);
    let mut muted_at = None;
    for frame in 0..70 {
        let state = dtx.receive(&mut ctx, RxFrameType::NoData);
        dtx.commit(state);
        if state == DtxState::Muted && muted_at.is_none() {
            muted_at = Some(frame);
        }
    }
    assert_eq!(
        muted_at,
        Some(49),
        "DTX_MAX_EMPTY_THRESH is 50 frames without an update"
    );
}

#[test]
fn damaged_speech_leaves_the_mute_but_a_gap_does_not() {
    let mut ctx = DspContext::default();
    let mut dtx = DtxDecoder::new();
    dtx.receive(&mut ctx, RxFrameType::SidFirst);
    dtx.commit(DtxState::Muted);
    assert_eq!(
        dtx.receive(&mut ctx, RxFrameType::SpeechBad),
        DtxState::ComfortNoise,
        "SPEECH_BAD is absent from the stay-muted list"
    );
    dtx.commit(DtxState::Muted);
    assert_eq!(dtx.receive(&mut ctx, RxFrameType::NoData), DtxState::Muted);
}

#[test]
fn an_update_renews_the_parameters_and_a_first_does_not() {
    let mut ctx = DspContext::default();
    let mut dtx = DtxDecoder::new();
    dtx.receive(&mut ctx, RxFrameType::SidFirst);
    assert!(dtx.sid_frame() && !dtx.valid_data());
    dtx.commit(DtxState::ComfortNoise);
    dtx.receive(&mut ctx, RxFrameType::SidUpdate);
    assert!(dtx.sid_frame() && dtx.valid_data());
}

#[test]
fn comfort_noise_is_deterministic_and_not_silent() {
    let books = noise_codebooks();
    let mut ctx = DspContext::default();
    let mut dtx = DtxDecoder::new();
    dtx.receive(&mut ctx, RxFrameType::SidUpdate);
    let fields = SidFields {
        isf_indices: [10, 20, 30, 5, 7],
        energy_index: Word16(30),
        dither: false,
    };
    let (isf, excitation) =
        dtx.comfort_noise(&mut ctx, &books, DtxState::ComfortNoise, Some(fields));
    assert!(excitation.iter().any(|s| s.0 != 0), "the noise is silent");
    assert!(isf.iter().any(|s| s.0 != 0), "the spectrum is empty");

    let mut again = DtxDecoder::new();
    again.receive(&mut ctx, RxFrameType::SidUpdate);
    let (isf2, exc2) = again.comfort_noise(&mut ctx, &books, DtxState::ComfortNoise, Some(fields));
    assert_eq!(isf, isf2);
    assert_eq!(excitation, exc2, "the generator must be deterministic");
}

#[test]
fn a_louder_index_makes_louder_noise() {
    let books = noise_codebooks();
    let mut ctx = DspContext::default();
    let mut level = Vec::new();
    for energy in [10i16, 30, 50] {
        let mut dtx = DtxDecoder::new();
        dtx.receive(&mut ctx, RxFrameType::SidUpdate);
        let fields = SidFields {
            isf_indices: [0; 5],
            energy_index: Word16(energy),
            dither: false,
        };
        let (_, noise) = dtx.comfort_noise(&mut ctx, &books, DtxState::ComfortNoise, Some(fields));
        level.push(noise.iter().map(|s| i64::from(s.0).abs()).sum::<i64>());
    }
    assert!(level[0] < level[1] && level[1] < level[2], "{level:?}");
}

#[test]
fn fields_are_not_read_where_the_frame_is_no_update() {
    let books = noise_codebooks();
    let mut ctx = DspContext::default();
    let fields = SidFields {
        isf_indices: [u16::MAX; 5],
        energy_index: Word16(63),
        dither: true,
    };
    let mut with = DtxDecoder::new();
    with.receive(&mut ctx, RxFrameType::SidFirst);
    let mut without = DtxDecoder::new();
    without.receive(&mut ctx, RxFrameType::SidFirst);
    assert_eq!(
        with.comfort_noise(&mut ctx, &books, DtxState::ComfortNoise, Some(fields)),
        without.comfort_noise(&mut ctx, &books, DtxState::ComfortNoise, None)
    );
}
