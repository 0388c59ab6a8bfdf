use amrwb::enc::analysis::{weight_a, FrontEnd, FrontEndFrame, GAMMA1};
use amrwb::enc::levinson::{levinson, LevinsonMemory};
use amrwb::enc::preproc::{restrict_to_14_bit, L_FRAME16K};
use amrwb::enc::roots::{az_isp_detail, GRID, GRID_POINTS, ISP_INIT, NC};
use amrwb::fixed_point::{l_extract, l_mult, round, shl, Word16, Word32};
use amrwb::isf_noise::LP_ORDER;
use amrwb::lp::Autocorrelation;

/// A frame of a decaying pulse train over a slow wave.
fn input_frame(frame: usize) -> [Word16; L_FRAME16K] {
    let mut samples = [Word16(0); L_FRAME16K];
    for (i, slot) in samples.iter_mut().enumerate() {
        let n = (frame * L_FRAME16K + i) as i32;
        let pulse = 9000 - (n % 137) * 120;
        let wave = ((n * 7) % 400 - 200) * 20;
        *slot = Word16((pulse.max(0) + wave) as i16);
    }
    samples
}

fn initial_isp() -> [Word16; LP_ORDER] {
    ISP_INIT.map(Word16)
}

/// Run the whole front end across three frames.
fn replay(mut check: impl FnMut(usize, &FrontEndFrame)) -> usize {
    let mut front = FrontEnd::new();
    for frame in 0..3 {
        let mut input = input_frame(frame);
        restrict_to_14_bit(&mut input);
        let result = front.process_frame(&input);
        check(frame, &result);
    }
    3
}

#[test]
fn the_root_search_finds_fifteen_roots_inside_their_own_grid_intervals() {
    let count = replay(|frame, got| {
        let search = az_isp_detail(&got.a, &initial_isp());
        assert_eq!(search.roots_found, LP_ORDER - 1, "frame {frame}: root count");
        assert!(!search.fell_back, "frame {frame}: fell back to old ISPs");

        let mut previous_index = 0usize;
        for (n, &j) in search.accepted_at.iter().enumerate() {
            assert!(
                j > previous_index,
                "frame {frame}: root {n} accepted at grid {j}, not after {previous_index}"
            );
            let upper = if n == 0 {
                GRID[j - 1]
            } else {
                search.isp[n - 1].0.max(GRID[j - 1])
            };
            assert!(
                search.isp[n].0 >= GRID[j] && search.isp[n].0 <= upper,
                "frame {frame}: root {n} = {} outside [{}, {}]",
                search.isp[n].0,
                GRID[j],
                upper
            );
            previous_index = j;
        }
        for n in 1..LP_ORDER - 1 {
            assert!(
                search.isp[n].0 < search.isp[n - 1].0,
                "frame {frame}: roots {} and {n} are not descending",
                n - 1
            );
        }
        assert_eq!(search.isp[LP_ORDER - 1], shl(got.a[LP_ORDER], 3));
    });
    assert_eq!(count, 3);
}

#[test]
fn an_exact_zero_at_a_grid_point_counts_as_a_sign_change() {
    for (ylow, yhigh) in [(0i16, 5i16), (5, 0), (0, 0), (0, -5), (-5, 0)] {
        assert!(
            l_mult(Word16(ylow), Word16(yhigh)).0 <= 0,
            "({ylow}, {yhigh}) must bracket a root"
        );
    }
    for (ylow, yhigh) in [(5i16, 7i16), (-5, -7)] {
        assert!(
            l_mult(Word16(ylow), Word16(yhigh)).0 > 0,
            "({ylow}, {yhigh}) must not bracket a root"
        );
    }
}

#[test]
fn a_failed_search_returns_every_old_isp_including_the_last() {
    let mut a = [Word16(0); LP_ORDER + 1];
    a[0] = Word16(4096);
    a[NC] = Word16(4096);
    a[LP_ORDER] = Word16(-4096);
    let old: [Word16; LP_ORDER] = initial_isp();

    let search = az_isp_detail(&a, &old);
    assert!(search.fell_back, "this predictor must fail the search");
    assert_eq!(search.roots_found, 0, "F1 has no sign change to find");
    assert_eq!(search.isp, old, "all sixteen ISPs come from old_isp");
    assert_ne!(search.isp[LP_ORDER - 1], shl(a[LP_ORDER], 3));
}

#[test]
fn the_grid_matches_its_generating_formula() {
    assert_eq!(GRID[0], 32767);
    assert_eq!(GRID[GRID_POINTS], -32760);
    for (i, &point) in GRID.iter().enumerate().take(GRID_POINTS).skip(1) {
        let want = ((std::f64::consts::PI * i as f64 / GRID_POINTS as f64).cos() * 32768.0).round();
        assert!(
            (f64::from(point) - want).abs() <= 1.0,
            "grid[{i}] = {point} but cos gives {want}"
        );
    }
    for (i, pair) in GRID.windows(2).enumerate() {
        assert!(pair[1] < pair[0], "grid must descend at {}", i + 1);
    }
}

#[test]
fn an_unstable_reflection_coefficient_keeps_the_previous_filter() {
    let mut mem = LevinsonMemory::new();
    for i in 0..LP_ORDER {
        mem.previous_a[i] = Word16(100 + i as i16);
    }
    mem.previous_rc = [Word16(-1000), Word16(2000)];
    let before = mem.clone();

    let mut r = Autocorrelation { high: [Word16(0); 17], low: [Word16(0); 17] };
    let (hi, lo) = l_extract(Word32(0x7fff_ffff));
    r.high[0] = hi;
    r.low[0] = lo;
    let (hi, lo) = l_extract(Word32(-0x7fff_ffff));
    r.high[2] = hi;
    r.low[2] = lo;

    let (a, rc) = levinson(&r, &mut mem);
    assert_eq!(a[0].0, 4096, "a[0] is written even on the unstable path");
    assert_eq!(&a[1..], &before.previous_a[..], "the old filter is emitted again");
    assert_eq!(rc[0], before.previous_rc[0]);
    assert_eq!(rc[1], before.previous_rc[1]);
    assert_eq!(mem, before, "the unstable path must not update the memory");
}

#[test]
fn levinson_updates_its_memory_on_the_stable_path() {
    let count = replay(|frame, got| {
        let mut mem = LevinsonMemory::new();
        let (a, rc) = levinson(&got.autocorr, &mut mem);
        assert_eq!(&mem.previous_a[..], &a[1..], "frame {frame}: stored A");
        assert_eq!(mem.previous_rc, [rc[0], rc[1]], "frame {frame}: stored rc");
    });
    assert_eq!(count, 3);
}

#[test]
fn weighting_builds_its_gamma_powers_by_iterated_rounding() {
    let count = replay(|frame, got| {
        let ap = weight_a(&got.a_interp[0], Word16(GAMMA1));
        assert_eq!(ap[0], got.a_interp[0][0], "frame {frame}: ap[0] is a copy");

        let mut fac = Word16(GAMMA1);
        for (i, (&weighted, &plain)) in ap.iter().zip(got.a_interp[0].iter()).enumerate().skip(1) {
            let want = round(l_mult(plain, fac));
            assert_eq!(weighted, want, "frame {frame}: ap[{i}]");
            if i < LP_ORDER {
                fac = round(l_mult(fac, Word16(GAMMA1)));
            }
        }
    });
    assert_eq!(count, 3);

    // The ladder is not the same sequence as each power rounded once.
    let mut fac = Word16(GAMMA1);
    let mut exact = f64::from(GAMMA1) / 32768.0;
    let mut diverged = false;
    for _ in 1..LP_ORDER {
        fac = round(l_mult(fac, Word16(GAMMA1)));
        exact *= f64::from(GAMMA1) / 32768.0;
        let single_rounding = (exact * 32768.0).round() as i16;
        if single_rounding != fac.0 {
            diverged = true;
        }
    }
    assert!(diverged, "the iterated ladder must drift from gamma^i");
}
