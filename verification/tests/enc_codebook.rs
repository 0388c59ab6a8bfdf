use amrwb::codebook as decoder;
use amrwb::enc::budget::PulseBudget;
use amrwb::enc::codebook::{
    correlate_target, cross_prefix, energy_prefix, pitch_sharpen, search_two_pulse, L_SUBFR, NB_POS,
    NB_TRACK, PITCH_SHARP,
};
use amrwb::enc::pack::{
    pack_1p, pack_2p, pack_3p, pack_4p, pack_5p, pack_6p, SLOTS_PER_TRACK,
};
use amrwb::enc::search::{
    add_pair, search_multi_pulse, track_at, Innovation, SearchTables, Stage,
};
use amrwb::fixed_point::{
    add_s, extract_h, l_mac, l_negate, negate, norm_l, shr_r, DspContext, Word16, Word32,
};

const FRAME_BITS: usize = 253;

/// A correlation, a residual and a decaying impulse response.
fn subframe(seed: u32) -> ([Word16; L_SUBFR], [Word16; L_SUBFR], [Word16; L_SUBFR]) {
    let mut state = seed;
    let mut next = move |span: i32| {
        state = state.wrapping_mul(1_103_515_245).wrapping_add(12345);
        ((state >> 16) as i32 % (2 * span + 1) - span) as i16
    };
    let dn: [Word16; L_SUBFR] = std::array::from_fn(|_| Word16(next(4000)));
    let cn: [Word16; L_SUBFR] = std::array::from_fn(|_| Word16(next(2000)));
    let mut h2 = [Word16(0); L_SUBFR];
    let mut level = 4000i32;
    for (i, slot) in h2.iter_mut().enumerate() {
        let swing = if i % 5 < 3 { 1 } else { -1 };
        *slot = Word16((level * swing) as i16 + next(40));
        level = level * 9 / 10;
    }
    (dn, cn, h2)
}

fn searched(seed: u32, budget: PulseBudget, frame_bits: usize) -> Innovation {
    let mut ctx = DspContext::new();
    let (mut dn, cn, h2) = subframe(seed);
    let mut filtered = [Word16(0); L_SUBFR];
    search_multi_pulse(&mut ctx, &mut dn, &cn, &h2, &mut filtered, budget, frame_bits)
}

#[test]
fn chosen_positions_and_signs_survive_a_decode() {
    let mut compared = 0usize;
    for seed in 0..12 {
        let result = searched(seed, PulseBudget::B36, FRAME_BITS);
        let decoded =
            decoder::decode_4t64(&result.indices[..4], 36).expect("36 bits is a valid budget");
        let scale = 1i16 << result.impulse_shift;
        let expected: Vec<i16> = result.code.iter().map(|v| v.0 * scale).collect();
        assert_eq!(decoded.to_vec(), expected, "decoded pulses differ at {seed}");

        // Eight pulses, two per track.
        for track in 0..NB_TRACK {
            let used = result.slots[track * SLOTS_PER_TRACK..track * SLOTS_PER_TRACK + 6]
                .iter()
                .filter(|&&s| s >= 0)
                .count();
            assert_eq!(used, 2, "track {track} has {used} pulses at {seed}");
        }
        compared += 1;
    }
    assert_eq!(compared, 12, "compared {compared} subframes, expected 12");
}

fn stage(correlation: i16, energy: i16) -> Stage {
    Stage {
        excitation: [Word16(0); L_SUBFR],
        correlation: Word16(correlation),
        energy: Word16(energy),
        placed: [0; 24],
        count: 0,
    }
}

#[test]
fn a_tied_pulse_pair_resolves_to_the_earlier_one() {
    let mut dn = [Word16(0); L_SUBFR];
    // Track 1 samples 9 and 21, inner positions 2 and 5, score alike.
    dn[9] = Word16(1000);
    dn[21] = Word16(1000);
    // Every outer position admitted: the rank code is `rank - 8`.
    let tables = SearchTables::new(
        dn,
        [Word16(32767); L_SUBFR],
        [Word16(0); L_SUBFR],
        [Word16(-8); L_SUBFR],
        [0, 1, 2, 3],
    );
    let next = add_pair(&tables, &stage(0, 0), 8, 0, 1);
    assert_eq!(
        (next.placed[0], next.placed[1]),
        (0, 9),
        "the first of two equally good inner positions must win"
    );
    assert_eq!(
        next.correlation.0, 1000,
        "the correlation is re-read from dn at the winning pair"
    );
}

#[test]
fn a_stage_that_accepts_nothing_still_writes_its_energy() {
    // A rank code of zero everywhere admits no outer position.
    let tables = SearchTables::new(
        [Word16(1000); L_SUBFR],
        [Word16(32767); L_SUBFR],
        [Word16(0); L_SUBFR],
        [Word16(0); L_SUBFR],
        [0, 1, 2, 3],
    );
    let next = add_pair(&tables, &stage(50, 1234), 8, 2, 3);
    assert_eq!(
        (next.placed[0], next.placed[1]),
        (2, 3),
        "the defaults are position 0 of each track"
    );
    assert_eq!(next.energy.0, 1, "the untouched incumbent energy is written out");
    assert_eq!(next.correlation.0, 2050, "the defaults still update the sum");
}

#[test]
fn equal_ranks_select_the_lowest_sample_index() {
    let mut ctx = DspContext::new();
    let impulse = [Word16(2048); L_SUBFR];
    let cn = [Word16(0); L_SUBFR];
    let mut dn = [Word16(1000); L_SUBFR];
    let mut filtered = [Word16(0); L_SUBFR];

    let result = search_multi_pulse(
        &mut ctx,
        &mut dn,
        &cn,
        &impulse,
        &mut filtered,
        PulseBudget::B36,
        FRAME_BITS,
    );

    let (a, b) = (result.pulses[0], result.pulses[1]);
    assert!(
        a < 4 && b < 4,
        "tied tracks must rank their lowest sample first, got {a} and {b}"
    );
    assert_eq!(b, (a + 1) % 4, "the first stage always fixes two adjacent tracks");
}

#[test]
fn correlation_tables_agree_with_the_reference_pointer_walk() {
    const CHAIN_A: [usize; 4] = [2, 1, 0, 3];
    const CHAIN_B: [usize; 4] = [3, 2, 1, 0];

    let mut h = [Word16(0); L_SUBFR];
    let mut state = 12345u32;
    for v in &mut h {
        state = state.wrapping_mul(1_103_515_245).wrapping_add(12345);
        *v = Word16(((state >> 16) as i16) / 16);
    }

    // Self energies, four tracks of sixteen.
    let prefix = energy_prefix(&h, Word32(0x0000_8000));
    let mut self_walked = [[Word16(0); NB_POS]; NB_TRACK];
    let mut acc = Word32(0x0000_8000);
    let mut p = 0usize;
    for i in 0..NB_POS {
        for track in (0..NB_TRACK).rev() {
            acc = l_mac(acc, h[p], h[p]);
            p += 1;
            self_walked[track][NB_POS - 1 - i] = extract_h(acc);
        }
    }
    let mut checked = 0usize;
    for track in 0..NB_TRACK {
        for n in 0..NB_POS {
            assert_eq!(
                prefix[L_SUBFR - 1 - (NB_TRACK * n + track)],
                self_walked[track][n],
                "rrixix[{track}][{n}]"
            );
            checked += 1;
        }
    }
    assert_eq!(checked, 64, "checked {checked} self energies, expected 64");

    // Cross energies, four tracks of 256, by the two pointer chains.
    let step = NB_POS as i32 + 1;
    let mut cross_walked = [[Word16(0); NB_POS * NB_POS]; NB_TRACK];

    for (chain, tail) in [(CHAIN_A, 3usize), (CHAIN_B, 1usize)] {
        let first = chain[0] == 2;
        let mut base: i32 = (NB_POS * NB_POS) as i32 - 1;
        let mut lag = if first { 1usize } else { 3usize };
        for k in 0..NB_POS {
            let mut ptr = if first {
                [base, base, base, base]
            } else {
                [base, base - 1, base - 1, base - 1]
            };
            let mut acc = Word32(0x0000_8000);
            let (mut a, mut b) = (0usize, lag);
            for i in (k + 1)..=NB_POS {
                let writes = if i == NB_POS { tail } else { 4 };
                for (slot, &track) in chain.iter().enumerate().take(writes) {
                    acc = l_mac(acc, h[a], h[b]);
                    a += 1;
                    b += 1;
                    let bias = i32::from(first && slot == 3) * NB_POS as i32;
                    let at = usize::try_from(ptr[slot] - bias)
                        .expect("the chains stay inside the table");
                    cross_walked[track][at] = extract_h(acc);
                }
                if i < NB_POS {
                    for slot in &mut ptr {
                        *slot -= step;
                    }
                }
            }
            base -= if first { NB_POS as i32 } else { 1 };
            lag += NB_TRACK;
        }
    }
    let chains = cross_prefix(&h);
    let mut checked = 0usize;
    for (track, row) in cross_walked.iter().enumerate() {
        let other = (track + 1) % NB_TRACK;
        for nx in 0..NB_POS {
            for ny in 0..NB_POS {
                let a = NB_TRACK * nx + track;
                let b = NB_TRACK * ny + other;
                let lag = a.abs_diff(b);
                let last = L_SUBFR - 1 - a.max(b);
                assert_eq!(
                    chains[(lag - 1) / 2][last],
                    row[nx * NB_POS + ny],
                    "rrixiy[{track}][{nx}][{ny}]"
                );
                checked += 1;
            }
        }
    }
    assert_eq!(
        checked,
        NB_TRACK * NB_POS * NB_POS,
        "checked {checked} cross energies, expected 1024"
    );
}

#[test]
fn pitch_sharpening_is_recursive() {
    let mut ctx = DspContext::new();
    let mut x = [Word16(0); 8];
    x[0] = Word16(1000);
    pitch_sharpen(&mut ctx, &mut x, 2, Word16(PITCH_SHARP));
    assert_eq!(x[2].0, 850);
    assert_eq!(x[4].0, 723);
    assert_eq!(x[6].0, 615);
    assert_eq!(x[1].0, 0, "samples before the lag are untouched");
}

#[test]
fn pitch_sharpening_with_a_long_lag_is_a_no_op() {
    let mut ctx = DspContext::new();
    let original = [Word16(1234); L_SUBFR];
    let mut x = original;
    pitch_sharpen(&mut ctx, &mut x, 200, Word16(PITCH_SHARP));
    assert_eq!(x.to_vec(), original.to_vec());
}

#[test]
fn every_budget_round_trips_through_the_decoder() {
    let budgets = [
        PulseBudget::B20,
        PulseBudget::B36,
        PulseBudget::B44,
        PulseBudget::B52,
        PulseBudget::B64,
        PulseBudget::B72,
        PulseBudget::B88,
    ];
    let mut compared = 0usize;

    for budget in budgets {
        let frame_bits = if budget == PulseBudget::B88 {
            461
        } else {
            budget.bits() * 4
        };
        for seed in 0..12 {
            let result = searched(seed, budget, frame_bits);
            let count = budget.index_count();
            let decoded = decoder::decode_4t64(&result.indices[..count], budget.bits())
                .expect("a valid budget");
            let scale = 1i16 << result.impulse_shift;
            let expected: Vec<i16> = result.code.iter().map(|v| v.0 * scale).collect();
            assert_eq!(
                decoded.to_vec(),
                expected,
                "{budget:?} round trip differs at {seed}"
            );
            compared += 1;
        }
    }

    assert_eq!(
        compared,
        budgets.len() * 12,
        "compared {compared} searches, expected {}",
        budgets.len() * 12
    );
}

#[test]
fn the_two_pulse_codebook_is_self_consistent() {
    let mut ctx = DspContext::new();
    let mut compared = 0usize;

    for seed in 0..12 {
        let (mut dn, cn, h2) = subframe(seed);
        let result = search_two_pulse(&mut ctx, &mut dn, &cn, &h2);

        let decoded = decoder::decode_2t64(result.index);
        let expected: Vec<i16> = result.code.iter().map(|v| v.0).collect();
        assert_eq!(
            decoded.to_vec(),
            expected,
            "the index does not decode to its own codeword at {seed}"
        );

        let [ix, iy] = result.positions;
        assert_eq!(ix % 2, 0, "the first pulse is on the even track");
        assert_eq!(iy % 2, 1, "the second pulse is on the odd track");

        for i in 0..L_SUBFR {
            let mut sum = Word16(0);
            for (pos, positive) in result.positions.iter().zip(result.positive) {
                if i >= *pos {
                    let tap = h2[i - *pos];
                    let signed = if positive { tap } else { negate(tap) };
                    sum = add_s(sum, signed);
                }
            }
            let expected = shr_r(sum, 3);
            assert_eq!(result.filtered[i], expected, "filtered sample {i} at {seed}");
        }
        compared += 1;
    }

    assert_eq!(compared, 12, "compared {compared} subframes, expected 12");
}

#[test]
fn the_widest_budget_changes_iteration_count_at_23_85() {
    assert_eq!(PulseBudget::B88.iterations(461), 2, "23.05 kbit/s");
    assert_eq!(PulseBudget::B88.iterations(477), 1, "23.85 kbit/s");
    assert_eq!(PulseBudget::B88.iterations(462), 2, "the test is > 462");
    assert_eq!(PulseBudget::B88.iterations(463), 1);
}

#[test]
fn budgets_follow_the_frame_size_ladder() {
    let expected = [
        (132, None),
        (177, Some(PulseBudget::B20)),
        (253, Some(PulseBudget::B36)),
        (285, Some(PulseBudget::B44)),
        (317, Some(PulseBudget::B52)),
        (365, Some(PulseBudget::B64)),
        (397, Some(PulseBudget::B72)),
        (461, Some(PulseBudget::B88)),
        (477, Some(PulseBudget::B88)),
    ];
    for (bits, budget) in expected {
        assert_eq!(PulseBudget::from_frame_bits(bits), budget, "{bits} bits");
    }
}

#[test]
fn codeword_amplitude_counts_the_pulses_on_each_sample() {
    let mut compared = 0usize;
    for seed in 0..12 {
        let result = searched(seed, PulseBudget::B36, FRAME_BITS);
        let unit = i32::from(512i16 >> result.impulse_shift);
        let mut seen = [0i32; L_SUBFR];
        for &p in result.pulses.iter().take(8) {
            seen[usize::try_from(p).expect("a sample index")] += 1;
        }
        for (i, &n) in seen.iter().enumerate() {
            assert_eq!(
                i32::from(result.code[i].0).abs(),
                n * unit,
                "sample {i} carries {n} pulses at {seed}"
            );
        }
        compared += 1;
    }
    assert_eq!(compared, 12, "compared {compared} subframes, expected 12");
}

#[test]
fn negative_normalisation_uses_the_complement_rule() {
    assert_eq!(norm_l(Word32(0xC000_0000u32 as i32)), 1);
    assert_eq!(l_negate(Word32(0x8000_0000u32 as i32)).0, i32::MAX);
}

#[test]
fn packed_indices_stay_within_their_advertised_width() {
    let mut state = 987u32;
    let mut next = move || {
        state = state.wrapping_mul(1_103_515_245).wrapping_add(12345);
        (state >> 20) % 32
    };
    let mut checked = 0usize;
    for _ in 0..2000 {
        let pos: [u32; 6] = std::array::from_fn(|_| next());
        for (width, value) in [
            (5, pack_1p(pos[0], 4)),
            (9, pack_2p(pos[0], pos[1], 4)),
            (13, pack_3p(pos[0], pos[1], pos[2], 4)),
            (16, pack_4p(&pos[..4], 4)),
            (20, pack_5p(&pos[..5], 4)),
            (22, pack_6p(&pos, 4)),
        ] {
            assert!(
                (0..1 << width).contains(&value),
                "a {width}-bit packing produced {value}"
            );
            checked += 1;
        }
    }
    assert_eq!(checked, 12000, "checked {checked} packings");
}

#[test]
fn a_target_correlates_best_where_its_response_lies() {
    let mut ctx = DspContext::new();
    let (_, _, h) = subframe(5);
    let mut target = [Word16(0); L_SUBFR];
    for i in 20..L_SUBFR {
        target[i] = h[i - 20];
    }
    let dn = correlate_target(&mut ctx, &h, &target);
    let best = (0..L_SUBFR).max_by_key(|&i| dn[i].0).expect("a sample");
    assert_eq!(best, 20);
}

/// The track rotation, four tracks a row; iteration `k` starts at row `k`.
const ROTATION: [usize; 36] = [
    0, 1, 2, 3, //
    1, 2, 3, 0, //
    2, 3, 0, 1, //
    3, 0, 1, 2, //
    0, 1, 2, 3, //
    1, 2, 3, 0, //
    2, 3, 0, 1, //
    3, 0, 1, 2, //
    0, 1, 2, 3,
];

#[test]
fn the_tracks_start_one_later_in_every_row() {
    let tracks: Vec<usize> = (0..8).map(|k| track_at(PulseBudget::B36, 0, k)).collect();
    assert_eq!(tracks, [0, 1, 2, 3, 1, 2, 3, 0]);
    let tracks: Vec<usize> = (0..10).map(|k| track_at(PulseBudget::B44, 2, k)).collect();
    assert_eq!(tracks, [2, 3, 0, 1, 3, 0, 1, 2, 0, 1]);

    for (budget, frame_bits) in [
        (PulseBudget::B20, 177usize),
        (PulseBudget::B36, 253),
        (PulseBudget::B44, 285),
        (PulseBudget::B52, 317),
        (PulseBudget::B64, 365),
        (PulseBudget::B72, 397),
        (PulseBudget::B88, 461),
        (PulseBudget::B88, 477),
    ] {
        for it in 0..budget.iterations(frame_bits) {
            for k in 0..budget.pulses() {
                let odd = match budget {
                    PulseBudget::B44 => 8,
                    PulseBudget::B72 => 16,
                    _ => 24,
                };
                let want = if k >= odd { k - odd } else { ROTATION[4 * it + k] };
                assert_eq!(track_at(budget, it, k), want, "{budget:?} {it} {k}");
            }
        }
    }
}

#[test]
fn the_searched_pulses_follow_the_rotation() {
    for (budget, frame_bits) in [
        (PulseBudget::B36, 253usize),
        (PulseBudget::B52, 317),
        (PulseBudget::B64, 365),
        (PulseBudget::B88, 461),
    ] {
        for seed in 0..6 {
            let pulses = searched(seed, budget, frame_bits).pulses;
            let tracks: Vec<usize> = pulses[..budget.pulses()]
                .iter()
                .map(|&p| p as usize % 4)
                .collect();
            let it = tracks[0];
            assert!(it < budget.iterations(frame_bits));
            assert_eq!(tracks, ROTATION[4 * it..4 * it + budget.pulses()], "{budget:?} {seed}");
        }
    }
}

#[test]
fn a_silent_search_keeps_the_first_sample_of_each_track() {
    // No pair is ever better than the one that a stage starts from.
    let mut ctx = DspContext::new();
    let zero = [Word16(0); L_SUBFR];
    let mut dn = zero;
    let mut filtered = [Word16(80); L_SUBFR];
    let result = search_multi_pulse(
        &mut ctx,
        &mut dn,
        &zero,
        &zero,
        &mut filtered,
        PulseBudget::B36,
        FRAME_BITS,
    );
    let decoded = decoder::decode_4t64(&result.indices[..4], 36).expect("a valid budget");
    assert_eq!(decoded.to_vec(), result.code.iter().map(|v| v.0).collect::<Vec<i16>>());
    assert_eq!(result.indices[4..], [0; 4]);
    assert_eq!(result.pulses[..8], [0, 1, 2, 3, 1, 2, 3, 0]);
    assert_eq!(filtered, zero, "the accepted iteration's vector replaces the incoming one");
}
