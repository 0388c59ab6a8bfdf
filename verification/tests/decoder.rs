use amrwb::conceal::FrameQuality;
use amrwb::decoder::{Decoder, DecoderTables, FRAME_SIZE_16K};
use amrwb::dtx::RxFrameType;
use amrwb::enc::encoder::{Codebooks, WbEncoder};
use amrwb::enc::preproc::L_FRAME16K;
use amrwb::enc::rate::Rate;
use amrwb::enhance::DispersionPulses;
use amrwb::fixed_point::{DspContext, Word16};
use amrwb::isf_noise::NoiseCodebooks;
use amrwb::isf_quant::IsfCodebooks;
use amrwb::mode::{AmrMode, AmrVariant};
use amrwb::params::FrameParams;
use amrwb::speech::SpeechCore;

/// A deterministic sequence of small numbers.
struct Steps(u32);

impl Steps {
    fn next(&mut self, span: i16) -> i16 {
        self.0 = self.0.wrapping_mul(1_103_515_245).wrapping_add(12345);
        ((self.0 >> 16) as i32 % (2 * i32::from(span) + 1) - i32::from(span)) as i16
    }

    fn table<const N: usize>(&mut self, span: i16) -> [i16; N] {
        std::array::from_fn(|_| self.next(span))
    }
}

const MEAN: [i16; 16] = [
    738, 1326, 2336, 3578, 4596, 5662, 6711, 7730, 8750, 9753, 10705, 11728, 12833, 13971, 15043,
    4037,
];

fn isf_codebooks() -> IsfCodebooks {
    let mut s = Steps(1);
    IsfCodebooks {
        mean: MEAN,
        first_low: s.table(700),
        first_high: s.table(700),
        wide0: s.table(160),
        wide1: s.table(160),
        wide2: s.table(160),
        wide3: s.table(160),
        wide4: s.table(160),
        narrow0: s.table(160),
        narrow1: s.table(160),
        narrow2: s.table(160),
    }
}

fn noise_codebooks() -> NoiseCodebooks {
    let mut s = Steps(2);
    NoiseCodebooks {
        mean: MEAN,
        book0: s.table(400),
        book1: s.table(400),
        book2: s.table(400),
        book3: s.table(400),
        book4: s.table(400),
    }
}

/// A frame of a decaying pulse train over a slow wave.
fn speech_frame(frame: usize) -> [i16; L_FRAME16K] {
    let mut samples = [0i16; L_FRAME16K];
    for (i, slot) in samples.iter_mut().enumerate() {
        let n = (frame * L_FRAME16K + i) as i32;
        let period = 131 + (n / 3000) % 9;
        let pulse = 11000 - (n % period) * 150;
        let wave = ((n * 7) % 400 - 200) * 15;
        let hiss = ((n.wrapping_mul(7919) >> 3) % 301) - 150;
        *slot = (pulse.max(0) + wave + hiss) as i16;
    }
    samples
}

fn tables() -> DecoderTables {
    // A windowed sinc in five phases, with its centre at tap 59.
    let up_taps: [i16; 120] = std::array::from_fn(|m| {
        let x = (m as f64 - 59.0) / 5.0;
        let sinc = if x == 0.0 {
            1.0
        } else {
            (std::f64::consts::PI * x).sin() / (std::f64::consts::PI * x)
        };
        let window = 0.5 + 0.5 * (std::f64::consts::PI * x / 12.0).cos();
        (16384.0 * sinc * window).round() as i16
    });
    let mut s = Steps(3);
    let mut low: [i16; 64] = s.table(4000);
    let mut mid: [i16; 64] = s.table(2000);
    low[0] = 20000;
    mid[0] = 24000;
    DecoderTables {
        isf: isf_codebooks(),
        noise: noise_codebooks(),
        dispersion: DispersionPulses { low, mid },
        up_taps,
    }
}

fn mode(index: u8) -> AmrMode {
    AmrMode::new(AmrVariant::WideBand, index).expect("mode")
}

/// The first frames of a stream at a rate.
fn stream(index: u8, frames: usize) -> Vec<Vec<u8>> {
    let books = Codebooks { isf: isf_codebooks(), noise: noise_codebooks() };
    let rate = Rate::from_index(index).expect("a speech mode");
    let mut encoder = WbEncoder::new();
    (0..frames)
        .map(|f| encoder.encode_frame(&books, &speech_frame(f), rate))
        .collect()
}

fn level(frame: &[i16; FRAME_SIZE_16K]) -> i64 {
    frame.iter().map(|&s| i64::from(s).abs()).sum()
}

#[test]
fn a_gap_during_speech_is_concealed_rather_than_refused() {
    let tables = tables();
    let mut decoder = Decoder::new();
    let out = decoder
        .decode_comfort_noise(&tables, RxFrameType::NoData, &[], 2)
        .expect("a gap during speech is concealed");
    assert_eq!(out.len(), FRAME_SIZE_16K);
}

#[test]
fn a_lost_frame_decodes_without_a_payload() {
    let tables = tables();
    let mut dec = Decoder::new();
    for payload in stream(2, 4) {
        dec.decode(&tables, mode(2), &payload).expect("decodes");
    }
    let concealed = dec
        .decode_frame(&tables, mode(2), &[], FrameQuality::Unusable)
        .expect("a lost frame still produces audio");
    assert_eq!(concealed.len(), FRAME_SIZE_16K);
    assert!(
        concealed.iter().any(|&s| s != 0),
        "a lost frame produced silence rather than concealment"
    );
}

#[test]
fn a_long_outage_fades_rather_than_buzzing() {
    let tables = tables();
    let mut dec = Decoder::new();
    for mut payload in stream(2, 6) {
        // The first bit says that the talker is active.
        payload[0] |= 0x80;
        dec.decode(&tables, mode(2), &payload).expect("decodes");
    }
    let first = level(
        &dec.decode_frame(&tables, mode(2), &[], FrameQuality::Unusable)
            .expect("decodes"),
    );
    let mut levels = vec![first];
    for _ in 0..11 {
        levels.push(level(
            &dec.decode_frame(&tables, mode(2), &[], FrameQuality::Unusable)
                .expect("decodes"),
        ));
    }
    let last = levels[11];
    assert!(
        last * 4 < first,
        "twelve lost frames only fell from {first} to {last}: {levels:?}"
    );
}

#[test]
fn every_rate_decodes_to_sound() {
    let tables = tables();
    for index in 0..9u8 {
        let mut dec = Decoder::new();
        let mut loudest = 0;
        for payload in stream(index, 5) {
            let out = dec.decode(&tables, mode(index), &payload).expect("decodes");
            loudest = loudest.max(level(&out));
        }
        assert!(loudest > 320 * 50, "mode {index} stayed at {loudest}");
    }
}

#[test]
fn the_decoded_speech_follows_the_input() {
    // Tones well above the two high-passes, which would shift them. The
    // synthesis lags the input; the best alignment must correlate well.
    let tables = tables();
    let books = Codebooks { isf: isf_codebooks(), noise: noise_codebooks() };
    let tone = |n: usize| {
        let t = n as f64 / 16000.0;
        let wave = |hertz: f64| (2.0 * std::f64::consts::PI * hertz * t).sin();
        (3000.0 * wave(500.0) + 2000.0 * wave(833.0) + 1000.0 * wave(1310.0)) as i16
    };
    let mut report = Vec::new();
    for (index, least) in [(0u8, 0.5), (2, 0.7), (7, 0.8)] {
        let rate = Rate::from_index(index).expect("a speech mode");
        let mut encoder = WbEncoder::new();
        let mut dec = Decoder::new();
        let mut out = Vec::new();
        for f in 0..20 {
            let pcm = std::array::from_fn(|i| tone(f * L_FRAME16K + i));
            let payload = encoder.encode_frame(&books, &pcm, rate);
            out.extend_from_slice(&dec.decode(&tables, mode(index), &payload).expect("decodes"));
        }
        let best = (0..200)
            .map(|lag| {
                let (mut xy, mut xx, mut yy) = (0f64, 0f64, 0f64);
                for i in 1600..5600 {
                    let x = f64::from(tone(i));
                    let y = f64::from(out[i + lag]);
                    xy += x * y;
                    xx += x * x;
                    yy += y * y;
                }
                xy / (xx * yy).sqrt()
            })
            .fold(-1.0, f64::max);
        report.push((index, best, best > least));
    }
    assert!(report.iter().all(|r| r.2), "{report:?}");
}

#[test]
fn the_two_ends_build_the_same_excitation() {
    // The history of the two pitch predictors must not drift apart.
    let tables = tables();
    let books = Codebooks { isf: isf_codebooks(), noise: noise_codebooks() };
    let mut report = Vec::new();
    for index in 0..9u8 {
        let rate = Rate::from_index(index).expect("a speech mode");
        let mut encoder = WbEncoder::new();
        encoder.record_trace();
        let payloads: Vec<Vec<u8>> = (0..10)
            .map(|f| encoder.encode_frame(&books, &speech_frame(f), rate))
            .collect();
        let trace = encoder.take_trace().expect("recording");
        let mut ctx = DspContext::new();
        let mut core = SpeechCore::new();
        let (mut difference, mut total) = (0f64, 0f64);
        for (f, payload) in payloads.iter().enumerate() {
            core.begin_frame(FrameQuality::Good);
            let params = FrameParams::parse(mode(index), payload).expect("parses");
            let q_sent = trace.row(f, -1, "Q_new").expect("recorded")[0];
            for (k, sub) in params.subframes.iter().enumerate() {
                let r = core.subframe(
                    &mut ctx,
                    &tables.dispersion,
                    sub,
                    FrameQuality::Good,
                    rate.bits(),
                    Word16(20000),
                    0,
                );
                let sent = trace.row(f, k as i32, "exc_total").expect("recorded");
                for (a, b) in sent.iter().zip(r.total) {
                    let a = f64::from(*a) / 2f64.powi(q_sent);
                    let b = f64::from(b.0) / 2f64.powi(i32::from(r.q_new));
                    difference += (a - b) * (a - b);
                    total += a * a;
                }
            }
        }
        report.push((index, (difference / total).sqrt()));
    }
    assert!(
        report.iter().all(|r| r.1 < 0.05),
        "the excitations differ by more than five percent: {report:?}"
    );
}

#[test]
fn a_payload_that_does_not_parse_is_refused() {
    let tables = tables();
    let mut dec = Decoder::new();
    assert!(dec.decode(&tables, mode(8), &[0u8; 59]).is_none());
    assert!(dec
        .decode_frame(&tables, mode(8), &[0u8; 59], FrameQuality::Bad)
        .is_none());
    assert!(dec
        .decode_frame(&tables, mode(8), &[0u8; 59], FrameQuality::Unusable)
        .is_some());
    assert!(dec
        .decode_comfort_noise(&tables, RxFrameType::NoData, &[], 9)
        .is_none());
}

#[test]
fn of_a_lost_frame_the_payload_is_not_read() {
    let tables = tables();
    let payloads = stream(4, 4);
    let mut a = Decoder::new();
    for payload in &payloads {
        a.decode(&tables, mode(4), payload).expect("decodes");
    }
    let mut b = a.clone();
    for round in 0..3 {
        let with = a
            .decode_frame(&tables, mode(4), &[0xa5; 40], FrameQuality::Unusable)
            .expect("concealed");
        let without = b
            .decode_frame(&tables, mode(4), &[], FrameQuality::Unusable)
            .expect("concealed");
        assert_eq!(with, without, "round {round}");
    }
    assert_eq!(
        a.decode(&tables, mode(4), &payloads[0]),
        b.decode(&tables, mode(4), &payloads[0])
    );
}

#[test]
fn a_refused_payload_leaves_the_decoder_alone() {
    let tables = tables();
    let payloads = stream(3, 3);
    let mut a = Decoder::new();
    a.decode(&tables, mode(3), &payloads[0]).expect("decodes");
    let mut b = a.clone();
    assert!(a.decode(&tables, mode(3), &payloads[1][..10]).is_none());
    assert_eq!(
        a.decode(&tables, mode(3), &payloads[1]),
        b.decode(&tables, mode(3), &payloads[1])
    );
}

#[test]
fn a_damaged_frame_still_decodes_its_pulses() {
    let tables = tables();
    let payloads = stream(2, 5);
    let mut dec = Decoder::new();
    for payload in &payloads[..4] {
        dec.decode(&tables, mode(2), payload).expect("decodes");
    }
    let mut lost = dec.clone();
    let damaged = dec
        .decode_frame(&tables, mode(2), &payloads[4], FrameQuality::Bad)
        .expect("parses");
    let gone = lost
        .decode_frame(&tables, mode(2), &payloads[4], FrameQuality::Unusable)
        .expect("concealed");
    assert_ne!(damaged, gone, "a damaged frame and a lost one are different inputs");
}

#[test]
fn comfort_noise_plays_and_speech_resumes() {
    let tables = tables();
    let payloads = stream(8, 3);
    let mut dec = Decoder::new();
    for payload in &payloads {
        dec.decode(&tables, mode(8), payload).expect("decodes");
    }
    let mut sid = [0x5a, 0xc3, 0x7e, 0x81, 0xe0];
    amrwb::bitstream::finish_sid_payload(&mut sid, true, 8);
    let noise = dec
        .decode_comfort_noise(&tables, RxFrameType::SidUpdate, &sid, 8)
        .expect("noise");
    assert!(noise.iter().any(|&s| s != 0), "the comfort noise is silent");
    let more = dec
        .decode_comfort_noise(&tables, RxFrameType::NoData, &[], 8)
        .expect("noise");
    assert_ne!(noise, more, "the noise repeats itself");
    let speech = dec.decode(&tables, mode(8), &payloads[0]).expect("decodes");
    assert!(level(&speech) > 0);
}

#[test]
fn a_default_decoder_is_a_new_one() {
    let tables = tables();
    let payloads = stream(1, 1);
    assert_eq!(
        Decoder::default().decode(&tables, mode(1), &payloads[0]),
        Decoder::new().decode(&tables, mode(1), &payloads[0])
    );
}
