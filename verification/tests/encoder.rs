use amrwb::enc::encoder::{Codebooks, WbEncoder};
use amrwb::enc::preproc::L_FRAME16K;
use amrwb::enc::rate::{Parameters, Rate};
use amrwb::isf_noise::NoiseCodebooks;
use amrwb::isf_quant::IsfCodebooks;
use amrwb::mode::{AmrMode, AmrVariant};
use amrwb::params::FrameParams;

/// A deterministic sequence of small numbers.
struct Steps(u32);

impl Steps {
    fn next(&mut self, span: i16) -> i16 {
        self.0 = self.0.wrapping_mul(1_103_515_245).wrapping_add(12345);
        ((self.0 >> 16) as i32 % (2 * i32::from(span) + 1) - i32::from(span)) as i16
    }

    fn table<const N: usize>(&mut self, span: i16) -> [i16; N] {
        std::array::from_fn(|_| self.next(span))
    }
}

const MEAN: [i16; 16] = [
    738, 1326, 2336, 3578, 4596, 5662, 6711, 7730, 8750, 9753, 10705, 11728, 12833, 13971, 15043,
    4037,
];

fn isf_codebooks() -> IsfCodebooks {
    let mut s = Steps(1);
    IsfCodebooks {
        mean: MEAN,
        first_low: s.table(700),
        first_high: s.table(700),
        wide0: s.table(160),
        wide1: s.table(160),
        wide2: s.table(160),
        wide3: s.table(160),
        wide4: s.table(160),
        narrow0: s.table(160),
        narrow1: s.table(160),
        narrow2: s.table(160),
    }
}

fn noise_codebooks() -> NoiseCodebooks {
    let mut s = Steps(2);
    NoiseCodebooks {
        mean: MEAN,
        book0: s.table(400),
        book1: s.table(400),
        book2: s.table(400),
        book3: s.table(400),
        book4: s.table(400),
    }
}

/// A frame of a decaying pulse train over a slow wave.
fn speech_frame(frame: usize) -> [i16; L_FRAME16K] {
    let mut samples = [0i16; L_FRAME16K];
    for (i, slot) in samples.iter_mut().enumerate() {
        let n = (frame * L_FRAME16K + i) as i32;
        let period = 131 + (n / 3000) % 9;
        let pulse = 11000 - (n % period) * 150;
        let wave = ((n * 7) % 400 - 200) * 15;
        let hiss = ((n.wrapping_mul(7919) >> 3) % 301) - 150;
        *slot = (pulse.max(0) + wave + hiss) as i16;
    }
    samples
}

fn codebooks() -> Codebooks {
    Codebooks { isf: isf_codebooks(), noise: noise_codebooks() }
}

#[test]
fn the_voice_activity_bit_is_not_hard_wired() {
    let books = codebooks();
    let rate = Rate::from_index(2).expect("a speech mode");
    let mut encoder = WbEncoder::new();
    let mut frames = 0usize;
    for _ in 0..5 {
        let payload = encoder.encode_frame(&books, &[0i16; L_FRAME16K], rate);
        assert_eq!(payload[0] >> 7, 0, "silence was called speech");
        frames += 1;
    }
    assert_eq!(frames, 5, "the silent run produced no frames");

    let mut heard = false;
    let mut encoder = WbEncoder::new();
    for frame in 0..8 {
        let payload = encoder.encode_frame(&books, &speech_frame(frame), rate);
        heard |= payload[0] >> 7 == 1;
    }
    assert!(heard, "a pulse train was never called speech");
}

#[test]
fn extreme_input_produces_a_frame_rather_than_a_panic() {
    let books = codebooks();
    for mode in 0..9u8 {
        let rate = Rate::from_index(mode).expect("a speech mode");
        let mut encoder = WbEncoder::new();
        for frame in 0..6 {
            let mut pcm = [0i16; L_FRAME16K];
            for (i, slot) in pcm.iter_mut().enumerate() {
                *slot = match frame % 3 {
                    0 => i16::MIN,
                    1 => {
                        if i % 2 == 0 {
                            i16::MAX
                        } else {
                            i16::MIN
                        }
                    }
                    _ => i16::MAX,
                };
            }
            let payload = encoder.encode_frame(&books, &pcm, rate);
            assert_eq!(payload.len(), rate.packed_bytes(), "mode {mode}");
        }
    }
}

#[test]
fn the_parameter_writer_fills_the_frame_exactly() {
    let books = codebooks();
    for mode in 0..9u8 {
        let rate = Rate::from_index(mode).expect("a speech mode");
        let mut encoder = WbEncoder::new();
        let mut prms = Parameters::new();
        encoder.encode_into(&books, &speech_frame(0), rate, &mut prms);
        assert_eq!(
            prms.len(),
            rate.bits(),
            "mode {mode}: wrote {} of {} codec bits",
            prms.len(),
            rate.bits()
        );
    }
}

#[test]
fn the_payload_is_a_permutation_of_the_codec_bits() {
    for mode in 0..9u8 {
        let rate = Rate::from_index(mode).expect("a speech mode");
        let mut prms = Parameters::new();
        for i in 0..rate.bits() {
            prms.push(u16::from(i % 3 == 0), 1);
        }
        let packed = prms.pack(rate);
        let sort = rate.sort_table();
        let mut recovered = vec![0u8; rate.bits()];
        for (i, &target) in sort.iter().enumerate() {
            recovered[target as usize] = (packed[i / 8] >> (7 - (i % 8))) & 1;
        }
        assert_eq!(
            recovered,
            prms.bits().to_vec(),
            "mode {mode}: packing is not the inverse of unsorting"
        );
    }
}

#[test]
fn the_dtx_hangover_moves_mode_8_and_leaves_the_other_rates_alone() {
    let books = codebooks();
    let frames = 6;
    for mode in 0..9u8 {
        let rate = Rate::from_index(mode).expect("a speech mode");

        let mut plain = WbEncoder::new();
        let baseline: Vec<Vec<u8>> = (0..frames)
            .map(|f| plain.encode_frame(&books, &speech_frame(f), rate))
            .collect();

        let mut hungover = WbEncoder::new();
        hungover.force_dtx_hangover(4);
        let moved: Vec<Vec<u8>> = (0..frames)
            .map(|f| hungover.encode_frame(&books, &speech_frame(f), rate))
            .collect();

        if mode == 8 {
            assert_ne!(baseline, moved, "23.85 kbit/s ignored the hangover counter");
        } else {
            assert_eq!(
                baseline, moved,
                "mode {mode} changed with the hangover counter, and only mode 8 should"
            );
        }
    }
}

#[test]
fn every_rate_announces_itself() {
    let bytes = [17usize, 23, 32, 36, 40, 46, 50, 58, 60];
    for mode in 0..9u8 {
        let rate = Rate::from_index(mode).expect("a speech mode");
        assert_eq!(rate.packed_bytes(), bytes[mode as usize]);
        assert_eq!(rate.toc_byte(), 8 * mode + 4);
        assert!(!rate.is_sid());
        assert_eq!(rate.has_high_band(), mode == 8);
    }
    assert!(Rate::from_index(9).is_none());
    assert!(Rate::sid().is_sid());
    assert_eq!(Rate::sid().packed_bytes(), 5);
    assert_eq!(Rate::sid().toc_byte(), 76);
}

#[test]
fn silence_turns_into_comfort_noise_when_allowed() {
    let books = codebooks();
    let rate = Rate::from_index(2).expect("a speech mode");
    let mut encoder = WbEncoder::new();
    encoder.set_allow_dtx(true);
    let mut kinds = Vec::new();
    for _ in 0..30 {
        let (quiet, payload) = encoder.encode_frame_typed(&books, &[0i16; L_FRAME16K], rate);
        assert_eq!(payload.len(), if quiet { 5 } else { 32 });
        kinds.push(quiet);
    }
    // Seven frames of hangover, then quiet.
    assert_eq!(kinds.iter().position(|&q| q), Some(7));
    assert!(kinds[7..].iter().all(|&q| q));

    let mut encoder = WbEncoder::new();
    for _ in 0..30 {
        let (quiet, _) = encoder.encode_frame_typed(&books, &[0i16; L_FRAME16K], rate);
        assert!(!quiet, "comfort noise was not asked for");
    }
}

#[test]
fn what_the_encoder_writes_parses_at_every_rate() {
    let books = codebooks();
    for index in 0..9u8 {
        let rate = Rate::from_index(index).expect("a speech mode");
        let mode = AmrMode::new(AmrVariant::WideBand, index).expect("mode");
        let mut encoder = WbEncoder::new();
        for frame in 0..4 {
            let payload = encoder.encode_frame(&books, &speech_frame(frame), rate);
            let params = FrameParams::parse(mode, &payload).expect("parses");
            assert_eq!(params.vad_flag, payload[0] >> 7 == 1);
            assert_eq!(params.subframes.len(), 4);
            for sub in &params.subframes {
                assert!((34..=231).contains(&sub.pitch_lag));
                assert!(sub.pitch_frac <= 3);
                assert_eq!(sub.hf_gain.is_some(), index == 8);
                assert_eq!(sub.pulses.len(), rate.pulse_index_widths().len());
            }
        }
    }
}

#[test]
fn a_written_field_reads_back() {
    let mut prms = Parameters::new();
    prms.push(0b1011, 4);
    prms.push(0, 0);
    prms.push(0x1234, 13);
    assert_eq!(prms.len(), 17);
    let bits: Vec<u8> = prms.bits().to_vec();
    assert_eq!(&bits[..4], &[1, 0, 1, 1]);
    let value = bits[4..].iter().fold(0u32, |v, &b| 2 * v + u32::from(b));
    assert_eq!(value, 0x1234);
}

#[test]
fn a_recording_holds_what_was_encoded() {
    let books = codebooks();
    for index in [0u8, 2, 8] {
        let rate = Rate::from_index(index).expect("a speech mode");
        let mode = AmrMode::new(AmrVariant::WideBand, index).expect("mode");
        let mut plain = WbEncoder::new();
        let mut encoder = WbEncoder::new();
        assert!(WbEncoder::new().take_trace().is_none(), "recording is off by default");
        encoder.record_trace();
        let mut parsed = Vec::new();
        for frame in 0..3 {
            let payload = encoder.encode_frame(&books, &speech_frame(frame), rate);
            assert_eq!(
                payload,
                plain.encode_frame(&books, &speech_frame(frame), rate),
                "recording changed the bitstream"
            );
            parsed.push(FrameParams::parse(mode, &payload).expect("parses"));
        }
        let trace = encoder.take_trace().expect("recording was enabled");
        for (frame, params) in parsed.iter().enumerate() {
            let input = trace.row(frame, -1, "speech16k").expect("recorded");
            assert_eq!(input.len(), 320);
            for (kept, raw) in input.iter().zip(speech_frame(frame)) {
                assert_eq!(*kept, i32::from(raw & !3));
            }
            let name = if index == 0 { "isf_indice36" } else { "isf_indice46" };
            let indices = trace.row(frame, -1, name).expect("recorded");
            for (recorded, read) in indices.iter().zip(params.isf_indices) {
                assert_eq!(*recorded, i32::from(read));
            }
            for (k, sub) in params.subframes.iter().enumerate() {
                let k = k as i32;
                let t0 = trace.row(frame, k, "T0").expect("recorded");
                assert_eq!(t0, &[i32::from(sub.pitch_lag)][..]);
                let frac = trace.row(frame, k, "T0_frac").expect("recorded");
                assert_eq!(frac, &[i32::from(sub.pitch_frac)][..]);
                let select = trace.row(frame, k, "select").expect("recorded");
                assert_eq!(select, &[i32::from(sub.ltp_filter)][..]);
                assert_eq!(trace.row(frame, k, "synth").expect("recorded").len(), 64);
            }
        }
        assert_eq!(trace.rows()[0].2, "speech16k");
        assert!(trace.row(3, -1, "speech16k").is_none());
        assert!(trace.row(0, 4, "T0").is_none());
        assert!(trace.row(0, 0, "T").is_none());
        assert!(encoder.take_trace().expect("still recording").rows().is_empty());
    }
}

#[test]
fn a_frame_without_a_type_is_always_speech() {
    let books = codebooks();
    for index in [0u8, 2, 8] {
        let rate = Rate::from_index(index).expect("a speech mode");
        let mut allowed = WbEncoder::new();
        allowed.set_allow_dtx(true);
        let mut plain = WbEncoder::new();
        for _ in 0..20 {
            let payload = allowed.encode_frame(&books, &[0i16; L_FRAME16K], rate);
            assert_eq!(payload.len(), rate.packed_bytes());
            assert_eq!(payload, plain.encode_frame(&books, &[0i16; L_FRAME16K], rate));
        }
        // The permission outlives such frames.
        let kinds: Vec<bool> = (0..20)
            .map(|_| allowed.encode_frame_typed(&books, &[0i16; L_FRAME16K], rate).0)
            .collect();
        assert!(kinds.contains(&true), "discontinuous transmission was switched off");
    }
}

#[test]
fn a_taken_recording_leaves_an_empty_one() {
    let books = codebooks();
    let rate = Rate::from_index(2).expect("a speech mode");
    let mut encoder = WbEncoder::new();
    assert!(encoder.take_trace().is_none());
    let empty = encoder.take_trace().expect("taking one starts the next");
    assert!(empty.rows().is_empty());
    encoder.encode_frame(&books, &speech_frame(0), rate);
    assert!(!encoder.take_trace().expect("recording").rows().is_empty());
    assert!(encoder.take_trace().expect("recording").rows().is_empty());
}
