//! Packing of chosen pulses into the transmitted indices.
//!
//! Every pulse is `position (0..15) + 16` when it is negative, and the sign
//! is always bit 4 whatever the width of the position field.

use vstd::prelude::*;
use crate::codebook::{decodable, effect, four_track_code, ints, joined, net};
use crate::enc::budget::PulseBudget;
use crate::pulse::{
    bit_at, down, half_of, high_bits, lemma_concat_bound, lemma_small, lemma_three_bound, lemma_up,
    lemma_width, low, low_bits, pack1, pack2, pack3, pack4, pack4_odd, pack5, pack6, power, shifted,
    up,
};

verus! {

/// Slots reserved per track in the pulse table: enough for the 24-pulse
/// mode's six pulses on one track.
pub const SLOTS_PER_TRACK: usize = 6;

/// Largest pulse count over all modes.
pub const MAX_PULSES: usize = 24;

/// Pack one pulse into `n + 1` bits.
pub fn pack_1p(pos: u32, n: u32) -> (index: u32)
    requires
        pos < 32,
        1 <= n <= 4,
    ensures
        index == pack1(pos as int, n as int),
        index < up(1, n + 1),
{
    let place: u32 = low_bits(pos, n);
    let size: u32 = power(n);
    proof {
        lemma_small(1);
        lemma_up(1, 0, n as int, 1);
        lemma_up(1, 1, n as int, 0);
        lemma_concat_bound(n as int, 1, place as int, 1);
        lemma_concat_bound(n as int, 1, place as int, 0);
        lemma_up(0, 0, n as int, 0);
    }
    if pos >= 16 {
        place + size
    } else {
        place
    }
}

/// Pack two pulses into `2n + 1` bits.
///
/// The pair is unordered, so the state freed by fixing an order carries a sign.
pub fn pack_2p(pos1: u32, pos2: u32, n: u32) -> (index: u32)
    requires
        pos1 < 32,
        pos2 < 32,
        1 <= n <= 4,
    ensures
        index == pack2(pos1 as int, pos2 as int, n as int),
        index < up(1, 2 * n + 1),
{
    let low1: u32 = low_bits(pos1, n);
    let low2: u32 = low_bits(pos2, n);
    let swap: bool = if (pos1 >= 16) == (pos2 >= 16) {
        pos1 > pos2
    } else {
        low1 <= low2
    };
    let (first, first_low, second_low): (u32, u32, u32) = if swap {
        (pos2, low2, low1)
    } else {
        (pos1, low1, low2)
    };
    proof {
        lemma_small(1);
        lemma_up(0, 0, 2 * n, 0);
        lemma_three_bound(n as int, n as int, 1, second_low as int, first_low as int, 0);
        lemma_three_bound(n as int, n as int, 1, second_low as int, first_low as int, 1);
    }
    let index: u32 = shifted(first_low, n, Ghost(n as int)) + second_low;
    if first >= 16 {
        index + power(2 * n)
    } else {
        index
    }
}

/// Which two of three pulses share a half: the pair, then the third.
fn pair_up(pos1: u32, pos2: u32, pos3: u32, n: u32) -> (r: (u32, u32, u32))
    requires
        pos1 < 32,
        pos2 < 32,
        pos3 < 32,
        2 <= n <= 4,
    ensures
        (r.0 as int, r.1 as int, r.2 as int) == crate::pulse::paired(
            pos1 as int,
            pos2 as int,
            pos3 as int,
            n as int,
        ),
        r.0 < 32,
        r.1 < 32,
        r.2 < 32,
{
    let half: u32 = bit_at(pos1, n - 1);
    if half == bit_at(pos2, n - 1) {
        (pos1, pos2, pos3)
    } else if half == bit_at(pos3, n - 1) {
        (pos1, pos3, pos2)
    } else {
        (pos2, pos3, pos1)
    }
}

/// Pack three pulses into `3n + 1` bits.
///
/// Splits on which two of the three share a half-range. The branch order is
/// part of the code: the first two are tested first, then the first and third.
pub fn pack_3p(pos1: u32, pos2: u32, pos3: u32, n: u32) -> (index: u32)
    requires
        pos1 < 32,
        pos2 < 32,
        pos3 < 32,
        2 <= n <= 4,
    ensures
        index == pack3(pos1 as int, pos2 as int, pos3 as int, n as int),
        index < up(1, 3 * n + 1),
{
    let (x, y, z) = pair_up(pos1, pos2, pos3, n);
    let pair: u32 = pack_2p(x, y, n - 1);
    let half: u32 = bit_at(x, n - 1);
    let last: u32 = pack_1p(z, n);
    proof {
        lemma_small(1);
        lemma_width(2 * n - 1);
        lemma_three_bound(2 * n - 1, 1, n + 1, pair as int, half as int, last as int);
    }
    let side: u32 = shifted(half, 2 * n - 1, Ghost(1));
    let upper: u32 = shifted(last, 2 * n, Ghost(n + 1));
    pair + side + upper
}

/// Pack four pulses into `4n + 1` bits.
pub fn pack_4p_odd(pos1: u32, pos2: u32, pos3: u32, pos4: u32, n: u32) -> (index: u32)
    requires
        pos1 < 32,
        pos2 < 32,
        pos3 < 32,
        pos4 < 32,
        2 <= n <= 4,
    ensures
        index == pack4_odd(pos1 as int, pos2 as int, pos3 as int, pos4 as int, n as int),
        index < up(1, 4 * n + 1),
{
    let (x, y, z) = pair_up(pos1, pos2, pos3, n);
    let pair: u32 = pack_2p(x, y, n - 1);
    let half: u32 = bit_at(x, n - 1);
    let last: u32 = pack_2p(z, pos4, n);
    proof {
        lemma_small(1);
        lemma_width(2 * n - 1);
        lemma_three_bound(2 * n - 1, 1, 2 * n + 1, pair as int, half as int, last as int);
    }
    let side: u32 = shifted(half, 2 * n - 1, Ghost(1));
    let upper: u32 = shifted(last, 2 * n, Ghost(2 * n + 1));
    pair + side + upper
}

/// Split positions by which half-range they fall in, order preserved.
///
/// Returns the two halves in fixed-size buffers with their lengths.
pub fn split_halves(pos: &[u32], n: u32) -> (r: ([u32; 6], usize, [u32; 6], usize))
    requires
        pos.len() <= 6,
        forall|x: int| 0 <= x < pos@.len() ==> pos@[x] < 32,
        n <= 3,
    ensures
        r.1 + r.3 == pos@.len(),
        ints(r.0@).take(r.1 as int) == half_of(ints(pos@), n as int, 0),
        ints(r.2@).take(r.3 as int) == half_of(ints(pos@), n as int, 1),
        forall|x: int| 0 <= x < 6 ==> r.0@[x] < 32,
        forall|x: int| 0 <= x < 6 ==> r.2@[x] < 32,
{
    let mut low: [u32; 6] = [0; 6];
    let mut high: [u32; 6] = [0; 6];
    let mut n_low: usize = 0;
    let mut n_high: usize = 0;
    let ghost all = ints(pos@);
    proof {
        assert(ints(low@).take(0) =~= Seq::<int>::empty());
        assert(ints(high@).take(0) =~= Seq::<int>::empty());
        assert(all.take(0) =~= Seq::<int>::empty());
    }
    for k in 0..pos.len()
        invariant
            pos.len() <= 6,
            forall|x: int| 0 <= x < pos@.len() ==> pos@[x] < 32,
            n <= 3,
            all == ints(pos@),
            n_low + n_high == k,
            ints(low@).take(n_low as int) == half_of(all.take(k as int), n as int, 0),
            ints(high@).take(n_high as int) == half_of(all.take(k as int), n as int, 1),
            forall|x: int| 0 <= x < 6 ==> low@[x] < 32,
            forall|x: int| 0 <= x < 6 ==> high@[x] < 32,
    {
        let p: u32 = pos[k];
        let ghost old_low = ints(low@).take(n_low as int);
        let ghost old_high = ints(high@).take(n_high as int);
        proof {
            assert(all.take(k + 1).drop_last() =~= all.take(k as int));
            assert(all.take(k + 1).last() == p as int);
        }
        if bit_at(p, n) == 0 {
            low[n_low] = p;
            n_low = n_low + 1;
            assert(ints(low@).take(n_low as int) =~= old_low.push(p as int));
        } else {
            high[n_high] = p;
            n_high = n_high + 1;
            assert(ints(high@).take(n_high as int) =~= old_high.push(p as int));
        }
    }
    proof {
        assert(all.take(pos@.len() as int) =~= all);
    }
    (low, n_low, high, n_high)
}

/// Pack four pulses into `4n` bits.
///
/// The two leading bits carry how many pulses fell in the low half-range. The
/// all-high and all-low cases both leave those two bits at zero and are
/// separated by the bit below them, which only the all-high case sets.
pub fn pack_4p(pos: &[u32], n: u32) -> (index: u32)
    requires
        pos.len() == 4,
        forall|x: int| 0 <= x < pos@.len() ==> pos@[x] < 32,
        3 <= n <= 4,
    ensures
        index == pack4(ints(pos@), n as int),
        index < up(1, 4 * n),
{
    let n1: u32 = n - 1;
    let (l, count, h, rest) = split_halves(pos, n1);
    let ghost low_half = half_of(ints(pos@), n1 as int, 0);
    let ghost high_half = half_of(ints(pos@), n1 as int, 1);
    proof {
        lemma_small(1);
        lemma_small(2);
        lemma_small(3);
        lemma_width(4 * n - 3);
        lemma_up(0, 0, 4 * n - 2, 0);
        lemma_up(0, 0, 4 * n - 3, 0);
        assert(forall|x: int| 0 <= x < count ==> low_half[x] == ints(l@).take(count as int)[x]);
        assert(forall|x: int| 0 <= x < rest ==> high_half[x] == ints(h@).take(rest as int)[x]);
        assert(low_half.len() == count && high_half.len() == rest);
    }
    if count == 0 {
        let body: u32 = pack_4p_odd(h[0], h[1], h[2], h[3], n1);
        proof {
            lemma_three_bound(4 * n - 3, 1, 2, body as int, 1, 0);
        }
        power(4 * n - 3) + body
    } else if count == 1 {
        let upper: u32 = pack_1p(l[0], n1);
        let body: u32 = pack_3p(h[0], h[1], h[2], n1);
        proof {
            lemma_width(3 * n1 + 1);
            lemma_three_bound(3 * n1 + 1, n1 + 1, 2, body as int, upper as int, 1);
        }
        shifted(upper, 3 * n1 + 1, Ghost(n1 + 1)) + body + power(4 * n - 2)
    } else if count == 2 {
        let upper: u32 = pack_2p(l[0], l[1], n1);
        let body: u32 = pack_2p(h[0], h[1], n1);
        proof {
            lemma_width(2 * n1 + 1);
            lemma_three_bound(2 * n1 + 1, 2 * n1 + 1, 2, body as int, upper as int, 2);
        }
        shifted(upper, 2 * n1 + 1, Ghost(2 * n1 + 1)) + body + shifted(2, 4 * n - 2, Ghost(2))
    } else if count == 3 {
        let upper: u32 = pack_3p(l[0], l[1], l[2], n1);
        let body: u32 = pack_1p(h[0], n1);
        proof {
            lemma_width(n as int);
            lemma_three_bound(n as int, 3 * n1 + 1, 2, body as int, upper as int, 3);
        }
        shifted(upper, n, Ghost(3 * n1 + 1)) + body + shifted(3, 4 * n - 2, Ghost(2))
    } else {
        let body: u32 = pack_4p_odd(l[0], l[1], l[2], l[3], n1);
        proof {
            lemma_three_bound(4 * n - 3, 1, 2, body as int, 0, 0);
        }
        body
    }
}

/// Pack five pulses into `5n` bits.
///
/// Unlike the four- and six-pulse packers there is no population count: the
/// top bit alone distinguishes the two shape families.
pub fn pack_5p(pos: &[u32], n: u32) -> (index: u32)
    requires
        pos.len() == 5,
        forall|x: int| 0 <= x < pos@.len() ==> pos@[x] < 32,
        3 <= n <= 4,
    ensures
        index == pack5(ints(pos@), n as int),
        index < up(1, 5 * n),
{
    let n1: u32 = n - 1;
    let (l, count, h, rest) = split_halves(pos, n1);
    let ghost low_half = half_of(ints(pos@), n1 as int, 0);
    let ghost high_half = half_of(ints(pos@), n1 as int, 1);
    proof {
        lemma_small(1);
        lemma_width(2 * n + 1);
        lemma_up(0, 0, 5 * n - 1, 0);
        assert(forall|x: int| 0 <= x < count ==> low_half[x] == ints(l@).take(count as int)[x]);
        assert(forall|x: int| 0 <= x < rest ==> high_half[x] == ints(h@).take(rest as int)[x]);
        assert(low_half.len() == count && high_half.len() == rest);
    }
    let (x, y): (u32, u32) = if count == 0 {
        (h[3], h[4])
    } else if count == 1 {
        (h[3], l[0])
    } else if count == 2 {
        (l[0], l[1])
    } else if count == 3 {
        (h[0], h[1])
    } else if count == 4 {
        (l[3], h[0])
    } else {
        (l[3], l[4])
    };
    let pair: u32 = pack_2p(x, y, n);
    if count < 3 {
        let three: u32 = pack_3p(h[0], h[1], h[2], n1);
        proof {
            lemma_three_bound(2 * n + 1, 3 * n - 2, 1, pair as int, three as int, 1);
        }
        power(5 * n - 1) + shifted(three, 2 * n + 1, Ghost(3 * n - 2)) + pair
    } else {
        let three: u32 = pack_3p(l[0], l[1], l[2], n1);
        proof {
            lemma_three_bound(2 * n + 1, 3 * n - 2, 1, pair as int, three as int, 0);
        }
        shifted(three, 2 * n + 1, Ghost(3 * n - 2)) + pair
    }
}

/// Pack six pulses into `6n - 2` bits.
///
/// The leading two-bit field encodes the *shape class*, not the population
/// count: a half that is fuller high and one that is fuller low share a class,
/// and the bit below it tells them apart.
pub fn pack_6p(pos: &[u32], n: u32) -> (index: u32)
    requires
        pos.len() == 6,
        forall|x: int| 0 <= x < pos@.len() ==> pos@[x] < 32,
        n == 4,
    ensures
        index == pack6(ints(pos@), n as int),
        index < up(1, 6 * n - 2),
{
    let n1: u32 = n - 1;
    let (l, count, h, rest) = split_halves(pos, n1);
    let ghost low_half = half_of(ints(pos@), n1 as int, 0);
    let ghost high_half = half_of(ints(pos@), n1 as int, 1);
    proof {
        lemma_small(1);
        lemma_small(2);
        lemma_small(3);
        lemma_up(0, 0, 19, 0);
        lemma_up(0, 0, 20, 0);
        assert(forall|x: int| 0 <= x < count ==> low_half[x] == ints(l@).take(count as int)[x]);
        assert(forall|x: int| 0 <= x < rest ==> high_half[x] == ints(h@).take(rest as int)[x]);
        assert(low_half.len() == count && high_half.len() == rest);
    }
    if count == 3 {
        let upper: u32 = pack_3p(l[0], l[1], l[2], n1);
        let body: u32 = pack_3p(h[0], h[1], h[2], n1);
        proof {
            lemma_width(10);
            lemma_three_bound(10, 10, 2, body as int, upper as int, 3);
        }
        shifted(upper, 3 * n1 + 1, Ghost(10)) + body + shifted(3, 6 * n - 4, Ghost(2))
    } else {
        let high_side: bool = count < 3;
        let (full, others, many): ([u32; 6], [u32; 6], usize) = if high_side {
            (h, l, rest)
        } else {
            (l, h, count)
        };
        let side: u32 = if high_side {
            power(6 * n - 5)
        } else {
            0
        };
        let ghost full_half = if high_side {
            high_half
        } else {
            low_half
        };
        let ghost s: int = if high_side {
            1
        } else {
            0
        };
        proof {
            lemma_width(19);
            assert(side == up(s, 19));
        }
        if many == 6 {
            let five: [u32; 5] = [full[0], full[1], full[2], full[3], full[4]];
            assert(ints(five@) =~= full_half.take(5));
            let upper: u32 = pack_5p(&five, n1);
            let body: u32 = pack_1p(full[5], n1);
            proof {
                lemma_width(4);
                lemma_three_bound(4, 15, 1, body as int, upper as int, s);
                lemma_concat_bound(20, 2, body + up(upper as int, 4) + up(s, 19), 0);
            }
            side + shifted(upper, n, Ghost(15)) + body
        } else if many == 5 {
            let five: [u32; 5] = [full[0], full[1], full[2], full[3], full[4]];
            assert(ints(five@) =~= full_half);
            let upper: u32 = pack_5p(&five, n1);
            let body: u32 = pack_1p(others[0], n1);
            proof {
                lemma_width(4);
                lemma_three_bound(4, 15, 1, body as int, upper as int, s);
                lemma_concat_bound(20, 2, body + up(upper as int, 4) + up(s, 19), 1);
            }
            side + shifted(upper, n, Ghost(15)) + body + power(6 * n - 4)
        } else {
            let four: [u32; 4] = [full[0], full[1], full[2], full[3]];
            assert(ints(four@) =~= full_half);
            let upper: u32 = pack_4p(&four, n1);
            let body: u32 = pack_2p(others[0], others[1], n1);
            proof {
                lemma_width(7);
                lemma_three_bound(7, 12, 1, body as int, upper as int, s);
                lemma_concat_bound(20, 2, body + up(upper as int, 7) + up(s, 19), 2);
            }
            side + shifted(upper, 2 * n1 + 1, Ghost(12)) + body + shifted(2, 6 * n - 4, Ghost(2))
        }
    }
}

// ---------------------------------------------------------------------------
// Four tracks
// ---------------------------------------------------------------------------

/// The pulses in the slots of track `t`.
pub open spec fn slots_on(budget: PulseBudget, slots: Seq<i16>, t: int) -> Seq<int> {
    Seq::new(budget.pulses_on(t) as nat, |x: int| slots[6 * t + x] as int)
}

/// Every slot that the budget uses holds a pulse.
pub open spec fn slots_filled(budget: PulseBudget, slots: Seq<i16>) -> bool {
    &&& slots.len() == 24
    &&& forall|t: int, x: int|
        0 <= t < 4 && 0 <= x < budget.pulses_on(t) ==> 0 <= #[trigger] slots[6 * t + x] < 32
}

/// The index of one track's pulses.
pub open spec fn packed_track(s: Seq<int>) -> int {
    if s.len() == 1 {
        pack1(s[0], 4)
    } else if s.len() == 2 {
        pack2(s[0], s[1], 4)
    } else if s.len() == 3 {
        pack3(s[0], s[1], s[2], 4)
    } else if s.len() == 4 {
        pack4(s, 4)
    } else if s.len() == 5 {
        pack5(s, 4)
    } else {
        pack6(s, 4)
    }
}

/// Bits of a track's index that are sent in its second field.
pub open spec fn second_field(budget: PulseBudget, t: int) -> int {
    match budget {
        PulseBudget::B64 => 14,
        PulseBudget::B72 => if t < 2 {
            10
        } else {
            14
        },
        PulseBudget::B88 => 11,
        _ => 0,
    }
}

/// The transmitted indices of a pulse table.
pub open spec fn packed_indices(budget: PulseBudget, slots: Seq<i16>) -> Seq<u16> {
    Seq::new(
        8,
        |k: int|
            if k < 4 {
                down(packed_track(slots_on(budget, slots, k)), second_field(budget, k)) as u16
            } else if budget.bits() <= 52 {
                0u16
            } else {
                low(
                    packed_track(slots_on(budget, slots, k - 4)),
                    second_field(budget, k - 4),
                ) as u16
            },
    )
}

/// The index of one track, packed from its slots.
fn pack_track(budget: PulseBudget, slots: &[i16; MAX_PULSES], t: usize) -> (index: u32)
    requires
        t < 4,
        slots_filled(budget, slots@),
    ensures
        index == packed_track(slots_on(budget, slots@, t as int)),
        index < up(1, track_width(budget.pulses_on(t as int))),
{
    let ghost want = slots_on(budget, slots@, t as int);
    let count: usize = match budget {
        PulseBudget::B20 => 1,
        PulseBudget::B36 => 2,
        PulseBudget::B44 => if t < 2 {
            3
        } else {
            2
        },
        PulseBudget::B52 => 3,
        PulseBudget::B64 => 4,
        PulseBudget::B72 => if t < 2 {
            5
        } else {
            4
        },
        PulseBudget::B88 => 6,
    };
    let mut p: [u32; 6] = [0; 6];
    for x in 0..count
        invariant
            t < 4,
            count == budget.pulses_on(t as int),
            count <= 6,
            slots_filled(budget, slots@),
            forall|y: int| 0 <= y < x ==> p@[y] == slots@[6 * t + y] && p@[y] < 32,
    {
        p[x] = slots[SLOTS_PER_TRACK * t + x] as u32;
    }
    proof {
        lemma_widths();
    }
    if count == 1 {
        pack_1p(p[0], 4)
    } else if count == 2 {
        pack_2p(p[0], p[1], 4)
    } else if count == 3 {
        pack_3p(p[0], p[1], p[2], 4)
    } else if count == 4 {
        let four: [u32; 4] = [p[0], p[1], p[2], p[3]];
        assert(ints(four@) =~= want);
        pack_4p(&four, 4)
    } else if count == 5 {
        let five: [u32; 5] = [p[0], p[1], p[2], p[3], p[4]];
        assert(ints(five@) =~= want);
        pack_5p(&five, 4)
    } else {
        assert(ints(p@) =~= want);
        pack_6p(&p, 4)
    }
}

/// The widths of the transmitted fields.
proof fn lemma_widths()
    ensures
        up(1, 2) == 4,
        up(1, 5) == 32,
        up(1, 9) == 512,
        up(1, 10) == 1024,
        up(1, 11) == 2048,
        up(1, 13) == 8192,
        up(1, 14) == 16384,
        up(1, 16) == 65536,
        up(1, 20) == 0x10_0000,
        up(1, 22) == 0x40_0000,
{
    reveal(up);
    vstd::arithmetic::power2::lemma2_to64();
}

/// Pack the per-track pulse slots into the mode's transmitted indices.
pub fn pack_indices(budget: PulseBudget, slots: &[i16; MAX_PULSES]) -> (indices: [u16; 8])
    requires
        slots_filled(budget, slots@),
    ensures
        indices@ == packed_indices(budget, slots@),
{
    let mut indices: [u16; 8] = [0; 8];
    for t in 0..4usize
        invariant
            slots_filled(budget, slots@),
            forall|k: int|
                0 <= k < 8 ==> #[trigger] indices@[k] == if k % 4 < t {
                    packed_indices(budget, slots@)[k]
                } else {
                    0
                },
    {
        let index: u32 = pack_track(budget, slots, t);
        let width: u32 = match budget {
            PulseBudget::B64 => 14,
            PulseBudget::B72 => if t < 2 {
                10
            } else {
                14
            },
            PulseBudget::B88 => 11,
            _ => 0,
        };
        let first: u32 = high_bits(index, width);
        let second: u32 = low_bits(index, width);
        proof {
            lemma_widths();
            lemma_small(index as int);
            reveal(down);
            reveal(up);
            vstd::arithmetic::power2::lemma2_to64();
            lemma_fields_fit(index as int, width as int);
        }
        indices[t] = first as u16;
        if width != 0 {
            indices[t + 4] = second as u16;
        }
    }
    assert(indices@ =~= packed_indices(budget, slots@));
    indices
}

/// Both fields of a split index fit sixteen bits.
proof fn lemma_fields_fit(index: int, w: int)
    requires
        0 <= index < 0x40_0000,
        w == 0 && index < 65536 || w == 14 || w == 10 && index < 0x10_0000 || w == 11,
    ensures
        0 <= down(index, w) < 65536,
        0 <= low(index, w) < 65536,
{
    reveal(down);
    reveal(low);
    vstd::arithmetic::power2::lemma2_to64();
    lemma_small(index);
    if w == 14 {
        assert(down(index, w) == index / 16384);
    } else if w == 10 {
        assert(down(index, w) == index / 1024);
    } else if w == 11 {
        assert(down(index, w) == index / 2048);
    }
}

// ---------------------------------------------------------------------------
// Round trip
// ---------------------------------------------------------------------------

/// Pulses that share a position of a track have one sign.
pub open spec fn signs_agree(s: Seq<int>) -> bool {
    forall|x: int, y: int|
        0 <= x < s.len() && 0 <= y < s.len() && #[trigger] s[x] % 16 == #[trigger] s[y] % 16
            ==> s[x] == s[y]
}

/// Bits of the index of `k` pulses on a track.
pub open spec fn track_width(k: int) -> int {
    if k <= 3 {
        4 * k + 1
    } else if k == 4 {
        16
    } else if k == 5 {
        20
    } else {
        22
    }
}

/// One track survives packing and decoding: at every position the signed
/// number of pulses is what went in.
proof fn lemma_track_round_trip(s: Seq<int>, p: int)
    requires
        1 <= s.len() <= 6,
        forall|x: int| 0 <= x < s.len() ==> 0 <= #[trigger] s[x] < 32,
        signs_agree(s),
    ensures
        ({
            let i = packed_track(s);
            let d = if s.len() == 1 {
                seq![crate::pulse::dec1(i, 4, 0)]
            } else if s.len() == 2 {
                crate::pulse::dec2(i, 4, 0)
            } else if s.len() == 3 {
                crate::pulse::dec3(i, 4, 0)
            } else if s.len() == 4 {
                crate::pulse::dec4(i, 4, 0)
            } else if s.len() == 5 {
                crate::pulse::dec5(i, 4, 0)
            } else {
                crate::pulse::dec6(i, 4, 0)
            };
            net(d, p) == net(s, p)
        }),
        0 <= packed_track(s) < up(1, track_width(s.len() as int)),
{
    let g = |q: int| exists|y: int| 0 <= y < s.len() && #[trigger] s[y] == q + 16;
    lemma_small(1);
    lemma_small(0);
    assert forall|x: int| 0 <= x < s.len() implies crate::pulse::placed(
        #[trigger] s[x],
        4,
        0,
        g,
    ) by {
        if g(s[x] % 16) {
            let y = choose|y: int| 0 <= y < s.len() && #[trigger] s[y] == s[x] % 16 + 16;
            assert(s[x] % 16 == s[y] % 16);
        }
        if s[x] >= 16 {
            assert(s[x] == s[x] % 16 + 16);
        }
    }
    let f = effect(p);
    crate::pulse::lemma_weight_of(s, f);
    if s.len() == 1 {
        crate::pulse::lemma_pack1_bound(s[0], 4, 0, g);
        crate::pulse::lemma_low_of(packed_track(s), 5);
        crate::pulse::lemma_dec1(packed_track(s), s[0], 4, 0, g);
        crate::pulse::lemma_weight_of(seq![s[0]], f);
    } else if s.len() == 2 {
        crate::pulse::lemma_pack2_bound(s[0], s[1], 4, 0, g);
        crate::pulse::lemma_low_of(packed_track(s), 9);
        crate::pulse::lemma_dec2(packed_track(s), s[0], s[1], 4, 0, g, f);
    } else if s.len() == 3 {
        crate::pulse::lemma_pack3_bound(s[0], s[1], s[2], 4, 0, g);
        crate::pulse::lemma_low_of(packed_track(s), 13);
        crate::pulse::lemma_dec3(packed_track(s), s[0], s[1], s[2], 4, 0, g, f);
    } else if s.len() == 4 {
        crate::pulse::lemma_pack4_bound(s, 4, 0, g);
        crate::pulse::lemma_low_of(packed_track(s), 16);
        crate::pulse::lemma_dec4(packed_track(s), s, 4, 0, g, f);
    } else if s.len() == 5 {
        crate::pulse::lemma_five(s, 4, 0, g, f);
        crate::pulse::lemma_low_of(packed_track(s), 20);
        crate::pulse::lemma_dec5(packed_track(s), s, 4, 0, g, f);
    } else {
        crate::pulse::lemma_pack6_bound(s, g);
        crate::pulse::lemma_low_of(packed_track(s), 22);
        crate::pulse::lemma_dec6(packed_track(s), s, g, f);
    }
}

/// The width of transmitted index `k`: of a track's only index, or of the high
/// or the low half of a long one.
pub open spec fn field_width(budget: PulseBudget, k: int) -> int {
    if budget.bits() <= 52 {
        track_width(budget.pulses_on(k))
    } else if k < 4 {
        track_width(budget.pulses_on(k)) - second_field(budget, k)
    } else {
        second_field(budget, k - 4)
    }
}

/// Every transmitted index fits its width.
pub proof fn law_packed_indices_fit(budget: PulseBudget, slots: Seq<i16>, k: int)
    requires
        slots_filled(budget, slots),
        forall|t: int| 0 <= t < 4 ==> signs_agree(#[trigger] slots_on(budget, slots, t)),
        0 <= k < if budget.bits() <= 52 {
            4int
        } else {
            8
        },
    ensures
        packed_indices(budget, slots)[k] < vstd::arithmetic::power2::pow2(
            field_width(budget, k) as nat,
        ),
{
    let t = k % 4;
    let here = slots_on(budget, slots, t);
    let i = packed_track(here);
    assert(signs_agree(here));
    assert forall|x: int| 0 <= x < here.len() implies 0 <= #[trigger] here[x] < 32 by {
        assert(here[x] == slots[6 * t + x]);
    }
    lemma_track_round_trip(here, 0);
    lemma_widths();
    let w = second_field(budget, t);
    lemma_fields_fit(i, w);
    reveal(down);
    reveal(low);
    vstd::arithmetic::power2::lemma2_to64();
    assert(vstd::arithmetic::power2::pow2(9) == 512 && vstd::arithmetic::power2::pow2(13) == 8192);
    assert(here.len() == budget.pulses_on(t));
    if k >= 4 {
        assert(packed_indices(budget, slots)[k] == low(i, w) as u16);
    } else {
        assert(packed_indices(budget, slots)[k] == down(i, w) as u16);
        match budget {
            PulseBudget::B64 => {
                assert(i / 16384 < 4);
            },
            PulseBudget::B72 => {
                if t < 2 {
                    assert(i / 1024 < 1024);
                } else {
                    assert(i / 16384 < 4);
                }
            },
            PulseBudget::B88 => {
                assert(i / 2048 < 2048);
            },
            _ => {
                assert(down(i, 0) == i);
            },
        }
    }
}

/// The innovation that a pulse table stands for.
pub open spec fn slots_code(budget: PulseBudget, slots: Seq<i16>) -> Seq<i16> {
    Seq::new(64, |s: int| (512 * net(slots_on(budget, slots, s % 4), s / 4)) as i16)
}

/// What the packer writes the decoder reads back: a table of pulses in which
/// equal positions have equal signs decodes, at the same budget, into exactly
/// its own innovation.
pub proof fn law_packed_indices_decode(budget: PulseBudget, slots: Seq<i16>)
    requires
        slots_filled(budget, slots),
        forall|t: int| 0 <= t < 4 ==> signs_agree(#[trigger] slots_on(budget, slots, t)),
    ensures
        decodable(8, budget.bits() as int),
        four_track_code(packed_indices(budget, slots), budget.bits() as int) == slots_code(
            budget,
            slots,
        ),
{
    let indices = packed_indices(budget, slots);
    let bits = budget.bits() as int;
    assert forall|s: int| 0 <= s < 64 implies four_track_code(indices, bits)[s] == slots_code(
        budget,
        slots,
    )[s] by {
        let t = s % 4;
        let here = slots_on(budget, slots, t);
        assert forall|x: int| 0 <= x < here.len() implies 0 <= #[trigger] here[x] < 32 by {
            assert(here[x] == slots[6 * t + x]);
        }
        lemma_track_round_trip(here, s / 4);
        lemma_transmitted(budget, slots, t);
    }
    assert(four_track_code(indices, bits) =~= slots_code(budget, slots));
}

/// The transmitted fields of a track hold its index.
proof fn lemma_transmitted(budget: PulseBudget, slots: Seq<i16>, t: int)
    requires
        0 <= t < 4,
        slots_filled(budget, slots),
        signs_agree(slots_on(budget, slots, t)),
    ensures
        ({
            let indices = packed_indices(budget, slots);
            let i = packed_track(slots_on(budget, slots, t));
            if budget.bits() <= 52 {
                indices[t] == i
            } else {
                joined(indices, t, second_field(budget, t)) == i
            }
        }),
{
    let here = slots_on(budget, slots, t);
    let i = packed_track(here);
    let w = second_field(budget, t);
    assert forall|x: int| 0 <= x < here.len() implies 0 <= #[trigger] here[x] < 32 by {
        assert(here[x] == slots[6 * t + x]);
    }
    lemma_track_round_trip(here, 0);
    lemma_widths();
    lemma_fields_fit(i, w);
    lemma_small(i);
    assert(joined(packed_indices(budget, slots), t, w) == up(down(i, w), w) + low(i, w) || w == 0);
    assert(w != 0 ==> up(down(i, w), w) + low(i, w) == i) by {
        reveal(up);
        reveal(down);
        reveal(low);
        vstd::arithmetic::power2::lemma_pow2_pos(w as nat);
        let p = vstd::arithmetic::power2::pow2(w as nat) as int;
        assert((i / p) * p + i % p == i) by (nonlinear_arith)
            requires
                p > 0,
        ;
    }
}

} // verus!
