//! The transmitted pitch index: coding a lag and reading it back.
//!
//! An absolute index covers the whole range of lags at a resolution that
//! coarsens with the lag; a relative one an offset into sixteen lags.

use vstd::prelude::*;
use crate::enc::pitch::{
    best_fraction, best_integer, closed_loop_choice, eight_bit_resolution, lemma_best_integer,
    nine_bit_resolution, LagWindow, SearchLimits, PIT_FR1_8B, PIT_FR1_9B, PIT_FR2, PIT_MAX, PIT_MIN,
};
use crate::fixed_point::{add_s, shl, shr, sub_s, DspContext, Word16};

verus! {

/// How many bits a pitch index occupies.
pub open spec fn spec_lag_index_width(absolute: bool, quarter_sample: bool) -> usize {
    if absolute {
        if quarter_sample {
            9
        } else {
            8
        }
    } else if quarter_sample {
        6
    } else {
        5
    }
}

/// How many bits this subframe's pitch index occupies.
#[verifier::when_used_as_spec(spec_lag_index_width)]
pub fn lag_index_width(absolute: bool, quarter_sample: bool) -> (width: usize)
    ensures
        width == spec_lag_index_width(absolute, quarter_sample),
{
    if absolute {
        if quarter_sample {
            9
        } else {
            8
        }
    } else if quarter_sample {
        6
    } else {
        5
    }
}

/// The index of a lag.
pub open spec fn lag_index(
    t0: i16,
    t0_frac: i16,
    t0_min: i16,
    absolute: bool,
    quarter_sample: bool,
) -> Word16 {
    let half_frac = shr(Word16(t0_frac), 1);
    if quarter_sample {
        if absolute {
            if t0 < PIT_FR2 {
                sub_s(add_s(shl(Word16(t0), 2), Word16(t0_frac)), Word16(136))
            } else if t0 < PIT_FR1_9B {
                add_s(sub_s(add_s(shl(Word16(t0), 1), half_frac), Word16(256)), Word16(376))
            } else {
                add_s(add_s(sub_s(Word16(t0), Word16(PIT_FR1_9B)), Word16(376)), Word16(64))
            }
        } else {
            add_s(shl(sub_s(Word16(t0), Word16(t0_min)), 2), Word16(t0_frac))
        }
    } else if absolute {
        if t0 < PIT_FR1_8B {
            sub_s(add_s(shl(Word16(t0), 1), half_frac), Word16(68))
        } else {
            add_s(sub_s(Word16(t0), Word16(PIT_FR1_8B)), Word16(116))
        }
    } else {
        add_s(shl(sub_s(Word16(t0), Word16(t0_min)), 1), half_frac)
    }
}

/// Code a closed-loop lag.
pub fn encode_lag(
    _ctx: &mut DspContext,
    t0: i16,
    t0_frac: i16,
    t0_min: i16,
    absolute: bool,
    quarter_sample: bool,
) -> (index: u16)
    ensures
        index == lag_index(t0, t0_frac, t0_min, absolute, quarter_sample).0 as u16,
{
    let half_frac = shr(Word16(t0_frac), 1);
    let index = if quarter_sample {
        if absolute {
            if t0 < PIT_FR2 {
                sub_s(add_s(shl(Word16(t0), 2), Word16(t0_frac)), Word16(136))
            } else if t0 < PIT_FR1_9B {
                add_s(sub_s(add_s(shl(Word16(t0), 1), half_frac), Word16(256)), Word16(376))
            } else {
                add_s(add_s(sub_s(Word16(t0), Word16(PIT_FR1_9B)), Word16(376)), Word16(64))
            }
        } else {
            add_s(shl(sub_s(Word16(t0), Word16(t0_min)), 2), Word16(t0_frac))
        }
    } else if absolute {
        if t0 < PIT_FR1_8B {
            sub_s(add_s(shl(Word16(t0), 1), half_frac), Word16(68))
        } else {
            add_s(sub_s(Word16(t0), Word16(PIT_FR1_8B)), Word16(116))
        }
    } else {
        add_s(shl(sub_s(Word16(t0), Word16(t0_min)), 1), half_frac)
    };
    #[verifier::truncate]
    (index.0 as u16)
}

/// The lag and the fraction that an index names.
pub open spec fn named_lag(index: int, t0_min: int, absolute: bool, quarter_sample: bool) -> (
    int,
    int,
) {
    if quarter_sample {
        if absolute {
            if index < 376 {
                (34 + index / 4, index % 4)
            } else if index < 440 {
                (128 + (index - 376) / 2, 2 * (index % 2))
            } else {
                (160 + index - 440, 0)
            }
        } else {
            (t0_min + index / 4, index % 4)
        }
    } else if absolute {
        if index < 116 {
            (34 + index / 2, 2 * (index % 2))
        } else {
            (92 + index - 116, 0)
        }
    } else {
        (t0_min + index / 2, 2 * (index % 2))
    }
}

/// Read a pitch index back.
pub fn decode_lag(index: u16, t0_min: i16, absolute: bool, quarter_sample: bool) -> (lag: (i16, u8))
    requires
        index < 512,
        0 <= t0_min <= 231,
    ensures
        (lag.0 as int, lag.1 as int) == named_lag(
            index as int,
            t0_min as int,
            absolute,
            quarter_sample,
        ),
        lag.1 <= 3,
{
    if quarter_sample {
        if absolute {
            if index < 376 {
                (34 + (index / 4) as i16, (index % 4) as u8)
            } else if index < 440 {
                (128 + ((index - 376) / 2) as i16, 2 * (index % 2) as u8)
            } else {
                (160 + (index - 440) as i16, 0)
            }
        } else {
            (t0_min + (index / 4) as i16, (index % 4) as u8)
        }
    } else if absolute {
        if index < 116 {
            (34 + (index / 2) as i16, 2 * (index % 2) as u8)
        } else {
            (92 + (index - 116) as i16, 0)
        }
    } else {
        (t0_min + (index / 2) as i16, 2 * (index % 2) as u8)
    }
}

/// A lag that an index can name: at the resolution of its range, and for a
/// relative index inside the window.
pub open spec fn codable(t0: int, t0_frac: int, t0_min: int, absolute: bool, quarter_sample: bool) -> bool {
    &&& PIT_MIN <= t0 <= PIT_MAX
    &&& 0 <= t0_frac <= 3
    &&& !quarter_sample ==> t0_frac % 2 == 0
    &&& absolute && quarter_sample && t0 >= PIT_FR2 ==> t0_frac % 2 == 0
    &&& absolute && t0 >= if quarter_sample {
        PIT_FR1_9B
    } else {
        PIT_FR1_8B
    } ==> t0_frac == 0
    &&& !absolute ==> t0_min <= t0 <= t0_min + 15 && PIT_MIN <= t0_min
}

/// The shifts of the index on the range of lags.
proof fn lemma_lag_shifts(x: i16)
    requires
        0 <= x <= 300,
    ensures
        shl(Word16(x), 2).0 == 4 * x,
        shl(Word16(x), 1).0 == 2 * x,
        shr(Word16(x), 1).0 == x as int / 2,
{
    reveal(crate::fixed_point::spec_shl);
    reveal(crate::fixed_point::spec_shr);
    vstd::arithmetic::power2::lemma2_to64();
    let v = x as int;
    assert(v * 4 == 4 * v && v * 2 == 2 * v) by (nonlinear_arith);
}

/// An index fits its width and names the lag that it was coded from.
pub proof fn law_lag_index_reads_back(
    t0: i16,
    t0_frac: i16,
    t0_min: i16,
    absolute: bool,
    quarter_sample: bool,
)
    requires
        codable(t0 as int, t0_frac as int, t0_min as int, absolute, quarter_sample),
    ensures
        ({
            let index = lag_index(t0, t0_frac, t0_min, absolute, quarter_sample).0 as int;
            &&& 0 <= index < vstd::arithmetic::power2::pow2(
                lag_index_width(absolute, quarter_sample) as nat,
            )
            &&& named_lag(index, t0_min as int, absolute, quarter_sample) == (
                t0 as int,
                t0_frac as int,
            )
        }),
{
    reveal(crate::fixed_point::spec_add_s);
    reveal(crate::fixed_point::spec_sub_s);
    vstd::arithmetic::power2::lemma2_to64();
    lemma_lag_shifts(t0);
    lemma_lag_shifts(t0_frac);
    if !absolute {
        lemma_lag_shifts((t0 - t0_min) as i16);
    }
}

/// A search in steps ends on a step inside its range.
proof fn lemma_fraction_steps(
    corr: Seq<Word16>,
    centre: int,
    start: int,
    step: int,
    candidate: int,
)
    requires
        step == 1 || step == 2,
        start <= candidate,
        (candidate - start) % step == 0,
    ensures
        ({
            let f = best_fraction(corr, centre, start, step, candidate);
            start <= f <= candidate && (f - start) % step == 0
        }),
    decreases candidate - start,
{
    if candidate > start {
        lemma_fraction_steps(corr, centre, start, step, candidate - step);
    }
}

/// The closed-loop search over sixteen lags finds only lags that its index can
/// name.
pub proof fn law_search_finds_codable_lags(
    corr: Seq<Word16>,
    window: LagWindow,
    absolute: bool,
    quarter_sample: bool,
)
    requires
        PIT_MIN <= window.min,
        window.max <= PIT_MAX,
        window.max - window.min == 15,
    ensures
        ({
            let limits = SearchLimits {
                window,
                absolute,
                resolution: if quarter_sample {
                    nine_bit_resolution()
                } else {
                    eight_bit_resolution()
                },
            };
            let (t0, frac) = closed_loop_choice(corr, limits);
            codable(t0, frac, window.min as int, absolute, quarter_sample)
        }),
{
    let resolution = if quarter_sample {
        nine_bit_resolution()
    } else {
        eight_bit_resolution()
    };
    let limits = SearchLimits { window, absolute, resolution };
    lemma_best_integer(corr, 15);
    let n = best_integer(corr, 15);
    let lag = window.min + n;
    let coarse = (absolute && lag >= resolution.half_from) || resolution.half_from == PIT_MIN;
    let start = if n == 0 {
        0int
    } else if coarse {
        -2
    } else {
        -3
    };
    if coarse {
        lemma_fraction_steps(corr, n + 4, start, 2, 2);
    } else {
        lemma_fraction_steps(corr, n + 4, start, 1, 3);
    }
}

} // verus!
