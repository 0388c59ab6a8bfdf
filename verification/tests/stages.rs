use amrwb::conceal::FrameQuality;
use amrwb::enc::gain_quant::GainBits;
use amrwb::enc::high_band::HighBand;
use amrwb::enc::shaping::{preemph, stability, voice_factor};
use amrwb::enhance::{agc2, blend, DispersionLevel, DispersionPulses, PhaseDispersion};
use amrwb::excitation::{Excitation, Upsampler};
use amrwb::extrapolation::{extrapolate_isf, interpolate_isf};
use amrwb::fixed_point::{
    abs_s, add_s, div_32, div_s, extract_h, extract_l, l_abs, l_add, l_comp, l_deposit_h,
    l_deposit_l, l_extract, l_mac, l_msu, l_mult, l_negate, l_shl, l_shr, l_shr_r, l_sub, mpy_32,
    mpy_32_16, mult, mult_r, negate, norm_l, norm_s, round, shl, shr, shr_r, sub_s, DspContext,
    Word16, Word32,
};
use amrwb::gain::{FrameContext, GainDecoder};
use amrwb::gain_tables::QUA_GAIN_7B;
use amrwb::highband::{match_energy, spectral_tilt, BandFilter, TiltFilter};
use amrwb::isf_noise::LP_ORDER;
use amrwb::lag::{decode_lag, encode_lag, lag_index_width};
use amrwb::lp::{interpolate_isp, isf_to_isp, isp_to_isf, isp_to_lp};
use amrwb::ltp::predict;
use amrwb::math::{dot_product12, isqrt_n, log2, pow2, scale_sig};
use amrwb::noise::NoiseGenerator;
use amrwb::synthesis::{deemphasis, HighPass50, SynthesisFilter, PREEMPH_FAC};

#[test]
fn sixteen_bit_operators_saturate() {
    assert_eq!(add_s(Word16(32767), Word16(1)), Word16(32767));
    assert_eq!(sub_s(Word16(-32768), Word16(1)), Word16(-32768));
    assert_eq!(mult(Word16(-32768), Word16(-32768)), Word16(32767));
    assert_eq!(mult(Word16(-3), Word16(16384)), Word16(-2));
    assert_eq!(mult_r(Word16(-3), Word16(16384)), Word16(-1));
    assert_eq!(negate(Word16(-32768)), Word16(32767));
    assert_eq!(abs_s(Word16(-32768)), Word16(32767));
    assert_eq!(shl(Word16(20000), 1), Word16(32767));
    assert_eq!(shl(Word16(-7), -1), Word16(-4));
    assert_eq!(shr(Word16(-7), 1), Word16(-4));
    assert_eq!(shr_r(Word16(7), 1), Word16(4));
    assert_eq!(norm_s(Word16(1)), 14);
    assert_eq!(norm_s(Word16(0)), 0);
    assert_eq!(div_s(Word16(1), Word16(2)), Word16(16384));
    assert_eq!(div_s(Word16(5), Word16(5)), Word16(32767));
}

#[test]
fn long_operators_saturate() {
    assert_eq!(l_add(Word32(i32::MAX), Word32(1)), Word32(i32::MAX));
    assert_eq!(l_sub(Word32(i32::MIN), Word32(1)), Word32(i32::MIN));
    assert_eq!(l_mult(Word16(-32768), Word16(-32768)), Word32(i32::MAX));
    assert_eq!(l_mult(Word16(3), Word16(4)), Word32(24));
    assert_eq!(l_mac(Word32(1), Word16(3), Word16(4)), Word32(25));
    assert_eq!(l_msu(Word32(1), Word16(3), Word16(4)), Word32(-23));
    assert_eq!(l_negate(Word32(i32::MIN)), Word32(i32::MAX));
    assert_eq!(l_abs(Word32(-5)), Word32(5));
    assert_eq!(l_shl(Word32(1), 31), Word32(i32::MAX));
    assert_eq!(l_shr(Word32(-5), 1), Word32(-3));
    assert_eq!(l_shr_r(Word32(5), 1), Word32(3));
    assert_eq!(norm_l(Word32(1)), 30);
    assert_eq!(round(Word32(0x0001_8000)), Word16(2));
    assert_eq!(extract_h(Word32(-1)), Word16(-1));
    assert_eq!(extract_l(Word32(0x0001_8000)), Word16(-32768));
    assert_eq!(l_deposit_h(Word16(-1)), Word32(-65536));
    assert_eq!(l_deposit_l(Word16(-1)), Word32(-1));
}

#[test]
fn double_precision_splits_and_joins() {
    let (hi, lo) = l_extract(Word32(0x1234_5678));
    assert_eq!((hi.0, lo.0), (0x1234, 0x2b3c));
    assert_eq!(l_comp(hi, lo), Word32(0x1234_5678));
    let (hi, lo) = l_extract(Word32(0x4000_0000));
    assert_eq!(mpy_32(hi, lo, hi, lo), Word32(0x2000_0000));
    assert_eq!(mpy_32_16(hi, lo, Word16(16384)), Word32(0x2000_0000));
    let ratio = div_32(Word32(0x1000_0000), hi, lo).0;
    assert!((ratio - 0x2000_0000).abs() < 0x1_0000, "{ratio:x}");
}

#[test]
fn roots_logarithms_and_powers_meet_their_exact_points() {
    // A quarter has the root one half, and one over that is two.
    let (root, exp) = isqrt_n((Word32(0x4000_0000), 1));
    let value = f64::from(root.0) / 2f64.powi(31) * 2f64.powi(i32::from(exp));
    assert!((value - 1.0).abs() < 1e-3, "{value}");
    assert_eq!(log2(Word32(1)), (0, Word16(0)));
    assert_eq!(log2(Word32(1 << 20)), (20, Word16(0)));
    assert_eq!(log2(Word32(0)), (0, Word16(0)));
    assert_eq!(pow2(14, Word16(0)), Word32(16384));
    assert_eq!(pow2(3, Word16(0)), Word32(8));
}

#[test]
fn the_generator_repeats_its_sequence() {
    let mut ctx = DspContext::new();
    let mut g = NoiseGenerator::new();
    // 21845 * 31821 + 13849, in sixteen bits.
    assert_eq!(g.next(&mut ctx), Word16((21845i64 * 31821 + 13849) as i16));
    let mut again = NoiseGenerator::new();
    let first: Vec<i16> = (0..8).map(|_| again.next(&mut ctx).0).collect();
    assert_eq!(first[0], g.seed.0);
}

#[test]
fn every_codable_lag_reads_back() {
    let mut ctx = DspContext::new();
    for (t0, frac) in [(34i16, 0i16), (34, 3), (127, 1), (128, 2), (159, 2), (160, 0), (231, 0)] {
        let index = encode_lag(&mut ctx, t0, frac, 0, true, true);
        assert!(index < 512);
        assert_eq!(decode_lag(index, 0, true, true), (t0, frac as u8), "{t0}.{frac}");
    }
    for (t0, frac) in [(34i16, 0i16), (91, 2), (92, 0), (231, 0)] {
        let index = encode_lag(&mut ctx, t0, frac, 0, true, false);
        assert!(index < 256);
        assert_eq!(decode_lag(index, 0, true, false), (t0, frac as u8), "{t0}.{frac}");
    }
    for t0 in 100..116i16 {
        for frac in 0..4i16 {
            let index = encode_lag(&mut ctx, t0, frac, 100, false, true);
            assert!(index < 64);
            assert_eq!(decode_lag(index, 100, false, true), (t0, frac as u8));
        }
    }
    assert_eq!(
        [
            lag_index_width(true, true),
            lag_index_width(true, false),
            lag_index_width(false, true),
            lag_index_width(false, false)
        ],
        [9, 8, 6, 5]
    );
}

#[test]
fn a_flat_spectrum_has_a_flat_predictor() {
    // Frequencies spread evenly belong to a predictor that predicts nothing.
    let isf: [Word16; LP_ORDER] = [
        1024, 2048, 3072, 4096, 5120, 6144, 7168, 8192, 9216, 10240, 11264, 12288, 13312, 14336,
        15360, 3840,
    ]
    .map(Word16);
    let isp = isf_to_isp(&isf);
    let a = isp_to_lp(&isp);
    assert_eq!(a[0].0, 4096);
    for (i, tap) in a.iter().enumerate().skip(1) {
        assert!(tap.0.abs() < 450, "a[{i}] = {}", tap.0);
    }
    let back = isp_to_isf(&isp);
    for i in 0..LP_ORDER {
        assert!((back[i].0 - isf[i].0).abs() <= 2, "isf[{i}] = {}", back[i].0);
    }
    let four = interpolate_isp(&isp, &isp);
    for a_k in &four {
        assert_eq!(a_k, &a, "between a spectrum and itself lies itself");
    }
}

#[test]
fn a_still_spectrum_is_stable() {
    let isf = [Word16(3000); LP_ORDER];
    assert_eq!(stability(&isf, &isf), Word16(32767));
    let far = [Word16(-3000); LP_ORDER];
    assert_eq!(stability(&isf, &far), Word16(0));
}

#[test]
fn voicing_takes_the_sign_of_the_stronger_part() {
    let loud = [Word16(2000); 64];
    let quiet = [Word16(1); 64];
    assert!(voice_factor(&loud, -3, Word16(16384), &quiet, Word16(1)).0 > 32000);
    assert!(voice_factor(&quiet, -3, Word16(1), &loud, Word16(16384)).0 < -32000);
}

#[test]
fn pre_emphasis_takes_differences() {
    let mut x = [Word16(1000), Word16(2000), Word16(4000)];
    let mut memory = Word16(0);
    preemph(&mut x, Word16(16384), &mut memory);
    assert_eq!(x, [Word16(1000), Word16(1500), Word16(3000)]);
    assert_eq!(memory, Word16(4000));
}

#[test]
fn an_integer_lag_copies_the_past() {
    let mut exc: Vec<Word16> = (0..313).map(|i| Word16(if i < 248 { 1000 } else { 0 })).collect();
    predict(&mut exc, 248, 100, 0, 65);
    for (i, x) in exc[248..].iter().enumerate() {
        assert!((x.0 - 1000).abs() <= 4, "sample {i} is {}", x.0);
    }
}

#[test]
fn a_small_gain_is_scaled_up_and_a_large_one_is_not() {
    let mut small = Excitation::new();
    assert_eq!(small.rescale_to(Word32(1 << 16)), (8, Word16(256)));
    let mut large = Excitation::new();
    assert_eq!(large.rescale_to(Word32(0x0800_0000)).0, 0);
    let code = [Word16(0); 64];
    large.build(&code, Word16(0), Word16(0));
    assert_eq!(large.subframe(), [Word16(0); 64]);
    // A silent subframe leaves fourteen bits of room, less one.
    large.advance();
    assert_eq!(large.rescale_to(Word32(1)).0, 8);
}

#[test]
fn the_total_adds_both_contributions() {
    let mut e = Excitation::new();
    let (q, gain) = e.rescale_to(Word32(1 << 16));
    assert_eq!(q, 8);
    let mut code = [Word16(0); 64];
    code[5] = Word16(512);
    e.build(&code, Word16(16384), gain);
    let total = e.subframe();
    // One pulse of one (Q9) at a gain of one, in Q8.
    assert_eq!(total[5], Word16(256));
    assert!(total.iter().enumerate().all(|(i, x)| i == 5 || x.0 == 0));
}

#[test]
fn a_constant_stays_constant_at_sixteen_kilohertz() {
    // Each phase of these taps is one half at the sample it is nearest to.
    let mut taps = [0i16; 120];
    for tap in &mut taps[55..60] {
        *tap = 16384;
    }
    let mut up = Upsampler::new();
    let _ = up.process(&taps, &[Word16(700); 64]);
    let out = up.process(&taps, &[Word16(700); 64]);
    assert_eq!(out, [Word16(700); 80]);
}

#[test]
fn lost_gains_fall_with_severity() {
    let code: [Word16; 64] = std::array::from_fn(|i| Word16(if i % 8 == 0 { 512 } else { 0 }));
    let good = FrameContext {
        quality: FrameQuality::Good,
        erasure_state: 0,
        vad_history: 0,
        previous_frame_bad: false,
    };
    let mut gains = GainDecoder::new();
    let mut pitch = Word16(0);
    for _ in 0..8 {
        let g = gains.decode(60, GainBits::Seven, &code, good);
        assert_eq!(g.pitch, Word16(QUA_GAIN_7B[120]));
        pitch = g.pitch;
    }
    let mut last = pitch.0;
    for state in 1..=6usize {
        let lost = FrameContext {
            quality: FrameQuality::Unusable,
            erasure_state: state,
            ..good
        };
        let g = gains.decode(0, GainBits::Seven, &code, lost);
        assert!(g.pitch.0 <= last, "severity {state} raised the gain");
        last = g.pitch.0;
    }
    assert!(last < pitch.0 / 8);
}

#[test]
fn the_gain_after_an_erasure_is_held_back() {
    let code: [Word16; 64] = std::array::from_fn(|i| Word16(if i % 8 == 0 { 512 } else { 0 }));
    let after = |bad: bool| {
        let mut gains = GainDecoder::new();
        gains
            .decode(
                127,
                GainBits::Seven,
                &code,
                FrameContext {
                    quality: FrameQuality::Good,
                    erasure_state: 0,
                    vad_history: 0,
                    previous_frame_bad: bad,
                },
            )
            .code
    };
    assert!(after(true).0 <= after(false).0);
}

#[test]
fn dispersion_is_for_the_unvoiced_at_low_rates() {
    let mut low = [0i16; 64];
    low[3] = 32767;
    let pulses = DispersionPulses { low, mid: [0; 64] };
    let mut code = [Word16(0); 64];
    code[62] = Word16(512);
    let mut d = PhaseDispersion::new();
    d.apply(&pulses, &mut code, Word16(0), Word16(0), DispersionLevel::for_frame_bits(132));
    // The response delays by three, around the end.
    let mut want = [Word16(0); 64];
    want[1] = Word16(512);
    assert_eq!(code, want);

    let mut untouched = [Word16(7); 64];
    let mut d = PhaseDispersion::new();
    d.apply(&pulses, &mut untouched, Word16(0), Word16(0), DispersionLevel::for_frame_bits(253));
    assert_eq!(untouched, [Word16(7); 64]);
    assert_eq!(DispersionLevel::for_frame_bits(177), DispersionLevel::Low);
}

#[test]
fn levelling_restores_the_level() {
    let reference = [Word16(1000); 64];
    let mut x = [Word16(2000); 64];
    agc2(&reference, &mut x);
    for v in &x {
        assert!((v.0 - 1000).abs() <= 4, "{}", v.0);
    }
    let mut silent = [Word16(0); 64];
    agc2(&reference, &mut silent);
    assert_eq!(silent, [Word16(0); 64]);
    let mut muted = [Word16(2000); 64];
    agc2(&[Word16(0); 64], &mut muted);
    assert_eq!(muted, [Word16(0); 64]);
}

#[test]
fn only_strongly_voiced_low_rates_are_blended() {
    let x: [Word16; 64] = std::array::from_fn(|i| Word16((i as i16 % 7) * 100));
    let adaptive = [Word16(300); 64];
    assert_eq!(blend(&x, &adaptive, Word16(16000), 253), x);
    assert_eq!(blend(&x, &adaptive, Word16(8192), 177), x);
    assert_ne!(blend(&x, &adaptive, Word16(16000), 177), x);
}

#[test]
fn the_continued_spectrum_reaches_further_down_the_cosine() {
    let isf: [Word16; LP_ORDER] = [
        1024, 2048, 3072, 4096, 5120, 6144, 7168, 8192, 9216, 10240, 11264, 12288, 13312, 14336,
        15360, 3840,
    ]
    .map(Word16);
    let same = interpolate_isf(&isf, &isf, 3);
    for i in 0..LP_ORDER {
        assert!((same[i].0 - isf[i].0).abs() <= 1);
    }
    let isp = extrapolate_isf(&isf);
    for pair in isp[..19].windows(2) {
        assert!(pair[1].0 < pair[0].0, "the wide spectrum is out of order");
    }
}

#[test]
fn scaling_rounds() {
    let mut x = [Word16(5), Word16(-5), Word16(30000)];
    scale_sig(&mut x, -1);
    assert_eq!(x, [Word16(3), Word16(-2), Word16(15000)]);
    scale_sig(&mut x, 2);
    assert_eq!(x, [Word16(12), Word16(-8), Word16(32767)]);
}

#[test]
fn the_output_high_pass_removes_a_constant_and_falls_silent() {
    let mut f = HighPass50::new();
    let mut dc = vec![Word16(4000); 4000];
    f.filter(&mut dc);
    assert!((dc[0].0 - 3958).abs() <= 2, "the first sample passes: {}", dc[0].0);
    assert!(dc[3999].0.abs() <= 2, "a constant leaks through: {}", dc[3999].0);

    let mut f = HighPass50::new();
    let mut g = NoiseGenerator::new();
    let mut ctx = DspContext::new();
    let mut noise: Vec<Word16> = (0..2000).map(|_| shr(g.next(&mut ctx), 4)).collect();
    let level = noise.iter().map(|x| i64::from(x.0).abs()).sum::<i64>();
    f.filter(&mut noise);
    let after = noise.iter().map(|x| i64::from(x.0).abs()).sum::<i64>();
    assert!((after - level).abs() * 10 < level, "noise passes: {level} became {after}");
    let mut silence = vec![Word16(0); 4000];
    f.filter(&mut silence);
    assert!(
        silence[3000..].iter().all(|x| x.0.abs() <= 1),
        "silence does not stay silent"
    );
}

#[test]
fn a_flat_filter_passes_its_excitation_and_de_emphasis_rings() {
    let mut a = [Word16(0); 17];
    a[0] = Word16(4096);
    let mut x = [Word16(0); 64];
    x[0] = Word16(1000);
    let mut f = SynthesisFilter::new();
    let (high, low) = f.filter(&a, &x, 0);
    let mut memory = Word16(0);
    let y = deemphasis(&high, &low, PREEMPH_FAC, &mut memory);
    assert_eq!([y[0].0, y[1].0, y[2].0], [1000, 680, 462]);

    // A scaling of four bits takes the excitation down by sixteen.
    let mut f = SynthesisFilter::new();
    let (high, low) = f.filter(&a, &x, 4);
    let mut memory = Word16(0);
    let y = deemphasis(&high, &low, PREEMPH_FAC, &mut memory);
    assert!((y[0].0 - 63).abs() <= 1, "{}", y[0].0);
}

/// The level of a tone through a band filter, in percent of what went in.
fn tone_through(mut filter: BandFilter, hertz: f64) -> i64 {
    let mut out = 0i64;
    let mut before = 0i64;
    for block in 0..6 {
        let mut x: [Word16; 80] = std::array::from_fn(|i| {
            let t = f64::from(block * 80 + i as i32) / 16000.0;
            Word16((8000.0 * (2.0 * std::f64::consts::PI * hertz * t).sin()) as i16)
        });
        let level: i64 = x.iter().map(|v| i64::from(v.0).abs()).sum();
        filter.filter(&mut x);
        if block >= 2 {
            before += level;
            out += x.iter().map(|v| i64::from(v.0).abs()).sum::<i64>();
        }
    }
    out * 100 / before
}

#[test]
fn the_bands_lie_where_they_should() {
    let inside = tone_through(BandFilter::band_pass(), 6500.0);
    assert!((80..=120).contains(&inside), "6.5 kHz comes out at {inside} %");
    let below = tone_through(BandFilter::band_pass(), 3000.0);
    assert!(below <= 5, "3 kHz leaks at {below} %");
    let kept = tone_through(BandFilter::low_pass_7k(), 3000.0);
    assert!((90..=110).contains(&kept), "3 kHz comes out at {kept} %");
    let cut = tone_through(BandFilter::low_pass_7k(), 7900.0);
    assert!(cut <= 20, "7.9 kHz leaks at {cut} %");
}

#[test]
fn matched_noise_has_the_energy_of_the_excitation() {
    let excitation = [Word16(400); 64];
    let mut noise: [Word16; 80] = std::array::from_fn(|i| Word16(if i % 2 == 0 { 3000 } else { -3000 }));
    match_energy(&excitation, &mut noise, 0);
    // Twice the root of 64 * 400^2 over 80 * 3000^2, of 3000.
    let want = 2.0 * (64.0f64 / 80.0).sqrt() * 400.0;
    assert!((f64::from(noise[0].0) - want).abs() < 0.03 * want, "{} for {want}", noise[0].0);
    let mut silent = noise;
    match_energy(&[Word16(0); 64], &mut silent, 5);
    assert_eq!(silent, [Word16(0); 80]);
}

#[test]
fn a_falling_spectrum_tilts() {
    // The tilt is measured above 400 Hz.
    let low: [Word16; 64] = std::array::from_fn(|i| {
        let t = i as f64 / 12800.0;
        Word16((8000.0 * (2.0 * std::f64::consts::PI * 900.0 * t).sin()) as i16)
    });
    let high: [Word16; 64] = std::array::from_fn(|i| Word16(if i % 2 == 0 { 8000 } else { -8000 }));
    let mut f = TiltFilter::new();
    assert!(spectral_tilt(&mut f, &mut low.clone()).0 > 20000);
    let mut f = TiltFilter::new();
    assert_eq!(spectral_tilt(&mut f, &mut high.clone()).0, 0);
}

#[test]
fn voicing_takes_any_scaling_that_its_exponents_fit() {
    let loud = [Word16(4000); 64];
    // Far down, the codeword outweighs the adaptive part altogether.
    assert!(voice_factor(&loud, 16000, Word16(16384), &loud, Word16(1000)).0 < -32000);
    assert!(voice_factor(&loud, -16000, Word16(16384), &loud, Word16(1000)).0 > 32000);
}

#[test]
fn outside_a_hangover_the_tilt_has_no_weight() {
    let mut ctx = DspContext::new();
    let mut aq = [Word16(0); 17];
    aq[0] = Word16(4096);
    let excitation: [Word16; 64] = std::array::from_fn(|i| Word16((i as i16 * 97) % 700 - 350));
    let reference: [Word16; 80] = std::array::from_fn(|i| Word16((i as i16 * 211) % 900 - 450));
    for hangover in [7i16, 8, 100] {
        let mut quiet = HighBand::new();
        let mut active = HighBand::new();
        for _ in 0..4 {
            let a = quiet.analyse(&mut ctx, &aq, &excitation, 3, &reference, 40, Word16(hangover));
            let b = active.analyse(&mut ctx, &aq, &excitation, 3, &reference, 0, Word16(hangover));
            assert_eq!(a, b);
            assert!(a < 16);
        }
    }
}

#[test]
fn an_inner_product_stops_at_the_shorter_signal() {
    let long = [Word16(3); 9];
    let short = [Word16(5); 4];
    assert_eq!(dot_product12(&long, &short), dot_product12(&short, &long));
    assert_eq!(dot_product12(&long, &short), dot_product12(&long[..4], &short));
    // Seeded with one: 2 * 4 * 15 + 1 is 121, 24 places below the top.
    assert_eq!(dot_product12(&short, &long), (Word32(121 << 24), 6));
}
