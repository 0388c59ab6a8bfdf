use amrwb::codebook::{self, decode_2t64, decode_4t64, pulse_bits, L_SUBFR, PULSE};
use amrwb::enc::encoder::{Codebooks, WbEncoder};
use amrwb::enc::preproc::L_FRAME16K;
use amrwb::enc::rate::Rate;
use amrwb::isf_noise::NoiseCodebooks;
use amrwb::isf_quant::IsfCodebooks;
use amrwb::mode::{AmrMode, AmrVariant};
use amrwb::params::FrameParams;

/// Frame sizes in bits, by mode index.
const FRAME_BITS: [usize; 9] = [132, 177, 253, 285, 317, 365, 397, 461, 477];

/// A deterministic sequence of small numbers.
struct Steps(u32);

impl Steps {
    fn next(&mut self, span: i16) -> i16 {
        self.0 = self.0.wrapping_mul(1_103_515_245).wrapping_add(12345);
        ((self.0 >> 16) as i32 % (2 * i32::from(span) + 1) - i32::from(span)) as i16
    }

    fn table<const N: usize>(&mut self, span: i16) -> [i16; N] {
        std::array::from_fn(|_| self.next(span))
    }
}

const MEAN: [i16; 16] = [
    738, 1326, 2336, 3578, 4596, 5662, 6711, 7730, 8750, 9753, 10705, 11728, 12833, 13971, 15043,
    4037,
];

fn isf_codebooks() -> IsfCodebooks {
    let mut s = Steps(1);
    IsfCodebooks {
        mean: MEAN,
        first_low: s.table(700),
        first_high: s.table(700),
        wide0: s.table(160),
        wide1: s.table(160),
        wide2: s.table(160),
        wide3: s.table(160),
        wide4: s.table(160),
        narrow0: s.table(160),
        narrow1: s.table(160),
        narrow2: s.table(160),
    }
}

fn noise_codebooks() -> NoiseCodebooks {
    let mut s = Steps(2);
    NoiseCodebooks {
        mean: MEAN,
        book0: s.table(400),
        book1: s.table(400),
        book2: s.table(400),
        book3: s.table(400),
        book4: s.table(400),
    }
}

/// A frame of a decaying pulse train over a slow wave.
fn speech_frame(frame: usize) -> [i16; L_FRAME16K] {
    let mut samples = [0i16; L_FRAME16K];
    for (i, slot) in samples.iter_mut().enumerate() {
        let n = (frame * L_FRAME16K + i) as i32;
        let period = 131 + (n / 3000) % 9;
        let pulse = 11000 - (n % period) * 150;
        let wave = ((n * 7) % 400 - 200) * 15;
        let hiss = ((n.wrapping_mul(7919) >> 3) % 301) - 150;
        *slot = (pulse.max(0) + wave + hiss) as i16;
    }
    samples
}

/// The parameters of the first few frames of a stream at a rate.
fn stream(mode_index: usize, frames: usize) -> Vec<FrameParams> {
    let books = Codebooks { isf: isf_codebooks(), noise: noise_codebooks() };
    let rate = Rate::from_index(mode_index as u8).expect("a speech mode");
    let mode = AmrMode::new(AmrVariant::WideBand, mode_index as u8).expect("mode");
    let mut encoder = WbEncoder::new();
    (0..frames)
        .map(|f| {
            let payload = encoder.encode_frame(&books, &speech_frame(f), rate);
            FrameParams::parse(mode, &payload).expect("parses")
        })
        .collect()
}

#[test]
fn pulse_counts_match_what_the_mode_pays_for() {
    const EXPECTED: [usize; 9] = [2, 4, 8, 10, 12, 16, 18, 24, 24];

    for (mode_index, &frame_bits) in FRAME_BITS.iter().enumerate() {
        let params = &stream(mode_index, 1)[0];
        let code = codebook::decode(&params.subframes[0].pulses, frame_bits).expect("code");
        let total: usize = code
            .iter()
            .map(|&v| usize::try_from(i32::from(v).abs() / i32::from(PULSE)).expect("count"))
            .sum();
        let expected = EXPECTED.get(mode_index).copied().expect("mode");
        assert_eq!(
            total, expected,
            "mode {mode_index}: {total} pulses, expected {expected}"
        );
    }
}

#[test]
fn every_pulse_is_a_unit_in_q9() {
    for (mode_index, &frame_bits) in FRAME_BITS.iter().enumerate() {
        for params in stream(mode_index, 3) {
            for sub in &params.subframes {
                let code = codebook::decode(&sub.pulses, frame_bits).expect("code");
                for (i, &v) in code.iter().enumerate() {
                    assert_eq!(
                        i32::from(v) % i32::from(PULSE),
                        0,
                        "mode {mode_index}: code[{i}] = {v} is not a whole pulse"
                    );
                }
            }
        }
    }
}

#[test]
fn four_track_pulses_land_only_in_their_own_track() {
    for (mode_index, &frame_bits) in FRAME_BITS.iter().enumerate().skip(1) {
        let params = &stream(mode_index, 1)[0];
        let bits = pulse_bits(frame_bits);
        let full = decode_4t64(&params.subframes[0].pulses, bits).expect("code");
        for track in 0..4 {
            let in_track: i32 = (0..L_SUBFR)
                .filter(|i| i % 4 == track)
                .map(|i| i32::from(full[i]).abs())
                .sum();
            assert!(
                in_track > 0,
                "mode {mode_index}: track {track} has no pulses"
            );
        }
    }
}

#[test]
fn an_unknown_codebook_width_is_rejected() {
    assert!(decode_4t64(&[0; 8], 13).is_none());
    assert!(decode_4t64(&[0; 8], 0).is_none());
}

#[test]
fn the_two_pulse_codebook_places_one_pulse_per_track() {
    for index in [0u16, 1, 1234, 4095] {
        let code = decode_2t64(index);
        let even: usize = (0..L_SUBFR).step_by(2).filter(|&i| code[i] != 0).count();
        let odd: usize = (1..L_SUBFR).step_by(2).filter(|&i| code[i] != 0).count();
        assert_eq!((even, odd), (1, 1), "index {index}: pulse placement");
    }
}

#[test]
fn too_few_indices_do_not_decode() {
    assert!(codebook::decode(&[], 132).is_none());
    assert!(codebook::decode(&[0; 3], 285).is_none());
    assert!(codebook::decode(&[0; 7], 477).is_none());
    let code = codebook::decode(&[0x0fff], 132).expect("one index");
    assert_eq!(code[62], -512);
    assert_eq!(code[63], -512);
}
