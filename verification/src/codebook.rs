//! Decoding of the algebraic codebook: pulse indices to an innovation vector.

use vstd::prelude::*;
use crate::pulse::{
    bit, bit_at, dec1, dec2, dec3, dec4, dec4_odd, dec5, dec6, high_bits, lemma_small, low_bits,
    power, up, weight,
};

verus! {

/// Samples in a subframe.
pub const L_SUBFR: usize = 64;

/// Pulse amplitude, 1.0 in Q9.
pub const PULSE: i16 = 512;

/// The numbers in an array of machine words.
pub open spec fn ints(s: Seq<u32>) -> Seq<int> {
    Seq::new(s.len(), |i: int| s[i] as int)
}

/// What pulse `v` adds at position `p` of its track.
pub open spec fn effect(p: int) -> spec_fn(int) -> int {
    |v: int|
        if v % 16 == p {
            if v < 16 {
                1int
            } else {
                -1int
            }
        } else {
            0int
        }
}

/// The signed number of pulses at position `p`.
pub open spec fn net(s: Seq<int>, p: int) -> int {
    weight(s, effect(p))
}

// ---------------------------------------------------------------------------
// The two-pulse codebook
// ---------------------------------------------------------------------------

/// Sample of the even-track pulse in a 12-bit index.
pub open spec fn even_position(index: int) -> int {
    2 * (index / 64 % 32)
}

/// Sample of the odd-track pulse in a 12-bit index.
pub open spec fn odd_position(index: int) -> int {
    2 * (index % 32) + 1
}

/// The two-pulse innovation of a 12-bit index.
pub open spec fn two_pulse_code(index: int) -> Seq<i16> {
    Seq::new(
        64,
        |i: int|
            if i == even_position(index) {
                if index / 2048 % 2 == 0 {
                    512i16
                } else {
                    -512i16
                }
            } else if i == odd_position(index) {
                if index / 32 % 2 == 0 {
                    512i16
                } else {
                    -512i16
                }
            } else {
                0i16
            },
    )
}

/// Decode the two-pulse codebook used at 6.60 kbit/s.
///
/// Twelve bits: two tracks of 32 positions, one pulse each, with a sign.
#[must_use]
pub fn decode_2t64(index: u16) -> (code: [i16; L_SUBFR])
    ensures
        code@ == two_pulse_code(index as int),
{
    let mut code: [i16; L_SUBFR] = [0; L_SUBFR];
    let i0: usize = 2 * ((index / 64) % 32) as usize;
    let i1: usize = 2 * (index % 32) as usize + 1;
    code[i0] = if (index / 2048) % 2 == 0 {
        PULSE
    } else {
        -PULSE
    };
    code[i1] = if (index / 32) % 2 == 0 {
        PULSE
    } else {
        -PULSE
    };
    assert(code@ =~= two_pulse_code(index as int));
    code
}

// ---------------------------------------------------------------------------
// One track
// ---------------------------------------------------------------------------

/// One pulse in `n + 1` bits: `n` for the position, one for the sign.
pub fn dec_1p_n1(index: u32, n: u32, offset: u32) -> (p: u32)
    requires
        1 <= n <= 4,
        offset + up(1, n as int) <= 16,
    ensures
        p == dec1(index as int, n as int, offset as int),
        p < 32,
{
    let place: u32 = low_bits(index, n) + offset;
    place + 16 * bit_at(index, n)
}

/// Two pulses in `2n + 1` bits.
///
/// The pair is unordered: the order in which the positions are written carries
/// whether the two signs agree.
pub fn dec_2p_2n1(index: u32, n: u32, offset: u32) -> (p: [u32; 2])
    requires
        1 <= n <= 4,
        offset + up(1, n as int) <= 16,
    ensures
        ints(p@) == dec2(index as int, n as int, offset as int),
        forall|x: int| 0 <= x < 2 ==> p[x] < 32,
{
    let first: u32 = low_bits(high_bits(index, n), n) + offset;
    let second: u32 = low_bits(index, n) + offset;
    let sign: u32 = bit_at(index, 2 * n);
    let p: [u32; 2] = if second < first {
        [first + 16 * sign, second + 16 * (1 - sign)]
    } else {
        [first + 16 * sign, second + 16 * sign]
    };
    assert(ints(p@) =~= dec2(index as int, n as int, offset as int));
    p
}

/// Where the half that bit `2n - 1` names starts.
fn half_offset(index: u32, n: u32, offset: u32) -> (j: u32)
    requires
        2 <= n <= 4,
        offset + up(1, n as int) <= 16,
    ensures
        j == offset + up(bit(index as int, 2 * n - 1), n - 1),
        j + up(1, n - 1) <= 16,
{
    proof {
        lemma_small(1);
        lemma_small(0);
    }
    if bit_at(index, 2 * n - 1) != 0 {
        offset + power(n - 1)
    } else {
        offset
    }
}

/// Three pulses in `3n + 1` bits: a pair on one half, and one more.
pub fn dec_3p_3n1(index: u32, n: u32, offset: u32) -> (p: [u32; 3])
    requires
        2 <= n <= 4,
        offset + up(1, n as int) <= 16,
    ensures
        ints(p@) == dec3(index as int, n as int, offset as int),
        forall|x: int| 0 <= x < 3 ==> p[x] < 32,
{
    let j: u32 = half_offset(index, n, offset);
    let pair = dec_2p_2n1(low_bits(index, 2 * n - 1), n - 1, j);
    let last: u32 = dec_1p_n1(low_bits(high_bits(index, 2 * n), n + 1), n, offset);
    let p: [u32; 3] = [pair[0], pair[1], last];
    assert(ints(p@) =~= ints(pair@).push(last as int));
    p
}

/// Four pulses in `4n + 1` bits: a pair on one half, and another pair.
pub fn dec_4p_4n1(index: u32, n: u32, offset: u32) -> (p: [u32; 4])
    requires
        2 <= n <= 4,
        offset + up(1, n as int) <= 16,
    ensures
        ints(p@) == dec4_odd(index as int, n as int, offset as int),
        forall|x: int| 0 <= x < 4 ==> p[x] < 32,
{
    let j: u32 = half_offset(index, n, offset);
    let a = dec_2p_2n1(low_bits(index, 2 * n - 1), n - 1, j);
    let b = dec_2p_2n1(low_bits(high_bits(index, 2 * n), 2 * n + 1), n, offset);
    let p: [u32; 4] = [a[0], a[1], b[0], b[1]];
    assert(ints(p@) =~= ints(a@) + ints(b@));
    p
}

/// Four pulses in `4n` bits: two leading bits say how the pulses split
/// between the two halves.
pub fn dec_4p_4n(index: u32, n: u32, offset: u32) -> (p: [u32; 4])
    requires
        3 <= n <= 4,
        offset + up(1, n as int) <= 16,
    ensures
        ints(p@) == dec4(index as int, n as int, offset as int),
        forall|x: int| 0 <= x < 4 ==> p[x] < 32,
{
    proof {
        lemma_small(1);
    }
    let n1: u32 = n - 1;
    let j: u32 = offset + power(n1);
    let class: u32 = low_bits(high_bits(index, 4 * n - 2), 2);
    if class == 0 {
        if bit_at(index, 4 * n1 + 1) == 0 {
            dec_4p_4n1(index, n1, offset)
        } else {
            dec_4p_4n1(index, n1, j)
        }
    } else if class == 1 {
        let a: u32 = dec_1p_n1(high_bits(index, 3 * n1 + 1), n1, offset);
        let b = dec_3p_3n1(index, n1, j);
        let p: [u32; 4] = [a, b[0], b[1], b[2]];
        assert(ints(p@) =~= seq![a as int] + ints(b@));
        p
    } else if class == 2 {
        let a = dec_2p_2n1(high_bits(index, 2 * n1 + 1), n1, offset);
        let b = dec_2p_2n1(index, n1, j);
        let p: [u32; 4] = [a[0], a[1], b[0], b[1]];
        assert(ints(p@) =~= ints(a@) + ints(b@));
        p
    } else {
        let a = dec_3p_3n1(high_bits(index, n1 + 1), n1, offset);
        let b: u32 = dec_1p_n1(index, n1, j);
        let p: [u32; 4] = [a[0], a[1], a[2], b];
        assert(ints(p@) =~= ints(a@).push(b as int));
        p
    }
}

/// Five pulses in `5n` bits: three on the half that the top bit names, and a
/// pair anywhere.
pub fn dec_5p_5n(index: u32, n: u32, offset: u32) -> (p: [u32; 5])
    requires
        3 <= n <= 4,
        offset + up(1, n as int) <= 16,
    ensures
        ints(p@) == dec5(index as int, n as int, offset as int),
        forall|x: int| 0 <= x < 5 ==> p[x] < 32,
{
    proof {
        lemma_small(1);
    }
    let n1: u32 = n - 1;
    let side: u32 = if bit_at(index, 5 * n - 1) == 0 {
        offset
    } else {
        offset + power(n1)
    };
    let a = dec_3p_3n1(high_bits(index, 2 * n + 1), n1, side);
    let b = dec_2p_2n1(index, n, offset);
    let p: [u32; 5] = [a[0], a[1], a[2], b[0], b[1]];
    assert(ints(p@) =~= ints(a@) + ints(b@));
    p
}

/// Six pulses in `6n - 2` bits, the widest codebook.
pub fn dec_6p_6n_2(index: u32, n: u32, offset: u32) -> (p: [u32; 6])
    requires
        n == 4,
        offset + up(1, n as int) <= 16,
    ensures
        ints(p@) == dec6(index as int, n as int, offset as int),
        forall|x: int| 0 <= x < 6 ==> p[x] < 32,
{
    proof {
        lemma_small(1);
    }
    let n1: u32 = n - 1;
    let j: u32 = offset + power(n1);
    let swapped: bool = bit_at(index, 6 * n - 5) != 0;
    let full: u32 = if swapped {
        j
    } else {
        offset
    };
    let rest: u32 = if swapped {
        offset
    } else {
        j
    };
    let class: u32 = low_bits(high_bits(index, 6 * n - 4), 2);
    if class == 0 || class == 1 {
        let a = dec_5p_5n(high_bits(index, n), n1, full);
        let b: u32 = dec_1p_n1(
            index,
            n1,
            if class == 0 {
                full
            } else {
                rest
            },
        );
        let p: [u32; 6] = [a[0], a[1], a[2], a[3], a[4], b];
        assert(ints(p@) =~= ints(a@).push(b as int));
        p
    } else if class == 2 {
        let a = dec_4p_4n(high_bits(index, 2 * n1 + 1), n1, full);
        let b = dec_2p_2n1(index, n1, rest);
        let p: [u32; 6] = [a[0], a[1], a[2], a[3], b[0], b[1]];
        assert(ints(p@) =~= ints(a@) + ints(b@));
        p
    } else {
        let a = dec_3p_3n1(high_bits(index, 3 * n1 + 1), n1, offset);
        let b = dec_3p_3n1(index, n1, j);
        let p: [u32; 6] = [a[0], a[1], a[2], b[0], b[1], b[2]];
        assert(ints(p@) =~= ints(a@) + ints(b@));
        p
    }
}

// ---------------------------------------------------------------------------
// Four tracks
// ---------------------------------------------------------------------------

/// An index sent in two fields, `w` bits in the second.
pub open spec fn joined(indices: Seq<u16>, t: int, w: int) -> int {
    up(indices[t] as int, w) + indices[t + 4]
}

/// The pulses that `indices` puts on track `t`.
pub open spec fn pulses_of(indices: Seq<u16>, bits: int, t: int) -> Seq<int> {
    if bits == 20 {
        seq![dec1(indices[t] as int, 4, 0)]
    } else if bits == 36 || (bits == 44 && t >= 2) {
        dec2(indices[t] as int, 4, 0)
    } else if bits == 44 || bits == 52 {
        dec3(indices[t] as int, 4, 0)
    } else if bits == 64 || (bits == 72 && t >= 2) {
        dec4(joined(indices, t, 14), 4, 0)
    } else if bits == 72 {
        dec5(joined(indices, t, 10), 4, 0)
    } else {
        dec6(joined(indices, t, 11), 4, 0)
    }
}

/// How many tracks `len` indices fill. A codebook with one index per track
/// decodes the tracks it has indices for.
pub open spec fn tracks_of(len: int, bits: int) -> int {
    if (bits == 20 || bits == 36 || bits == 52) && len < 4 {
        len
    } else {
        4
    }
}

/// Whether `bits` is a codebook width and `len` indices are enough for it.
pub open spec fn decodable(len: int, bits: int) -> bool {
    ||| bits == 20 || bits == 36 || bits == 52
    ||| bits == 44 && len >= 4
    ||| (bits == 64 || bits == 72 || bits == 88) && len >= 8
}

/// The four-track innovation: at each sample, the pulses that landed there.
pub open spec fn four_track_code(indices: Seq<u16>, bits: int) -> Seq<i16> {
    Seq::new(
        64,
        |s: int|
            if s % 4 < tracks_of(indices.len() as int, bits) {
                (512 * net(pulses_of(indices, bits, s % 4), s / 4)) as i16
            } else {
                0i16
            },
    )
}

/// The decoder reads no more indices than are sent.
pub proof fn lemma_code_reads_a_prefix(indices: Seq<u16>, n: int, bits: int)
    requires
        indices.len() == 8,
        n == 8 || n == 4 && bits <= 52,
        bits == 20 || bits == 36 || bits == 44 || bits == 52 || bits == 64 || bits == 72 || bits
            == 88,
    ensures
        four_track_code(indices.take(n), bits) == four_track_code(indices, bits),
{
    let short = indices.take(n);
    assert forall|s: int| 0 <= s < 64 implies four_track_code(short, bits)[s] == four_track_code(
        indices,
        bits,
    )[s] by {
        let t = s % 4;
        assert(short[t] == indices[t]);
        if n == 8 {
            assert(short =~= indices);
        }
    }
    assert(four_track_code(short, bits) =~= four_track_code(indices, bits));
}

/// The net count cannot exceed the number of pulses.
pub proof fn lemma_net_bound(s: Seq<int>, p: int)
    ensures
        -s.len() <= net(s, p) <= s.len(),
    decreases s.len(),
{
    if s.len() > 0 {
        lemma_net_bound(s.drop_last(), p);
    }
}

/// Place decoded pulses into their track's samples.
///
/// A position carries its sign in bit 4. Pulses can land on the same sample
/// and accumulate.
pub fn add_pulses(pos: &[u32], track: usize, code: &mut [i16; L_SUBFR])
    requires
        track < 4,
        pos.len() <= 6,
        forall|x: int| 0 <= x < pos@.len() ==> pos@[x] < 32,
        forall|s: int| 0 <= s < 64 && s % 4 == track ==> old(code)@[s] == 0,
    ensures
        forall|s: int|
            0 <= s < 64 ==> #[trigger] final(code)@[s] == if s % 4 == track {
                512 * net(ints(pos@), s / 4)
            } else {
                old(code)@[s] as int
            },
{
    let ghost all = ints(pos@);
    for k in 0..pos.len()
        invariant
            track < 4,
            pos.len() <= 6,
            all == ints(pos@),
            forall|x: int| 0 <= x < pos@.len() ==> pos@[x] < 32,
            forall|s: int|
                0 <= s < 64 ==> #[trigger] code@[s] == if s % 4 == track {
                    512 * net(all.take(k as int), s / 4)
                } else {
                    old(code)@[s] as int
                },
    {
        let p: u32 = pos[k];
        let sample: usize = 4 * (p % 16) as usize + track;
        let ghost before = all.take(k as int);
        let ghost after = all.take(k + 1);
        proof {
            assert(after.drop_last() =~= before);
            assert(after.last() == p as int);
            lemma_net_bound(before, sample as int / 4);
            assert(sample as int / 4 == p % 16 && sample as int % 4 == track);
            assert forall|s: int| 0 <= s < 64 implies #[trigger] code@[s] == if s % 4 == track {
                512 * (net(after, s / 4) - effect(s / 4)(p as int))
            } else {
                old(code)@[s] as int
            } by {}
        }
        if p < 16 {
            code[sample] = code[sample] + PULSE;
        } else {
            code[sample] = code[sample] - PULSE;
        }
    }
    proof {
        assert(all.take(pos@.len() as int) =~= all);
    }
}

/// One index that was sent in two fields.
fn join(indices: &[u16], track: usize, w: u32) -> (index: u32)
    requires
        track + 4 < indices.len(),
        w <= 14,
    ensures
        index == joined(indices@, track as int, w as int),
{
    let p: u32 = power(w);
    let first: u16 = indices[track];
    proof {
        reveal(up);
        vstd::arithmetic::power2::lemma2_to64();
        if w < 14 {
            vstd::arithmetic::power2::lemma_pow2_strictly_increases(w as nat, 14);
        }
        assert(0 <= first * p <= 65535 * 16384) by (nonlinear_arith)
            requires
                0 <= first <= 65535,
                1 <= p <= 16384,
        ;
    }
    first as u32 * p + indices[track + 4] as u32
}

/// Decode the four-track codebook, at whichever width the mode uses.
///
/// `bits` is the total spent on pulses in one subframe: 20, 36, 44, 52, 64, 72
/// or 88. Returns `None` for any other width, and where an index is missing
/// from a layout of unequal or two-field tracks.
#[must_use]
pub fn decode_4t64(indices: &[u16], bits: usize) -> (r: Option<[i16; L_SUBFR]>)
    ensures
        r is Some <==> decodable(indices@.len() as int, bits as int),
        r is Some ==> r->0@ == four_track_code(indices@, bits as int),
{
    let tracks: usize = if bits == 20 || bits == 36 || bits == 52 {
        if indices.len() < 4 {
            indices.len()
        } else {
            4
        }
    } else if bits == 44 {
        if indices.len() < 4 {
            return None;
        }
        4
    } else if bits == 64 || bits == 72 || bits == 88 {
        if indices.len() < 8 {
            return None;
        }
        4
    } else {
        return None;
    };
    proof {
        lemma_small(1);
    }
    let mut code: [i16; L_SUBFR] = [0; L_SUBFR];
    for track in 0..tracks
        invariant
            tracks <= 4,
            tracks <= indices.len(),
            tracks == tracks_of(indices@.len() as int, bits as int),
            decodable(indices@.len() as int, bits as int),
            up(1, 4) == 16,
            forall|s: int|
                0 <= s < 64 ==> #[trigger] code@[s] == if s % 4 < track {
                    512 * net(pulses_of(indices@, bits as int, s % 4), s / 4)
                } else {
                    0
                },
    {
        let ghost before = code@;
        if bits == 20 {
            let p: [u32; 1] = [dec_1p_n1(indices[track] as u32, 4, 0)];
            assert(ints(p@) =~= pulses_of(indices@, bits as int, track as int));
            add_pulses(&p, track, &mut code);
        } else if bits == 36 || (bits == 44 && track >= 2) {
            let p = dec_2p_2n1(indices[track] as u32, 4, 0);
            add_pulses(&p, track, &mut code);
        } else if bits == 44 || bits == 52 {
            let p = dec_3p_3n1(indices[track] as u32, 4, 0);
            add_pulses(&p, track, &mut code);
        } else if bits == 64 || (bits == 72 && track >= 2) {
            let p = dec_4p_4n(join(indices, track, 14), 4, 0);
            add_pulses(&p, track, &mut code);
        } else if bits == 72 {
            let p = dec_5p_5n(join(indices, track, 10), 4, 0);
            add_pulses(&p, track, &mut code);
        } else {
            let p = dec_6p_6n_2(join(indices, track, 11), 4, 0);
            add_pulses(&p, track, &mut code);
        }
    }
    assert(code@ =~= four_track_code(indices@, bits as int));
    Some(code)
}

/// How many bits a frame of `frame_bits` spends on pulses per subframe.
pub open spec fn spec_pulse_bits(frame_bits: usize) -> usize {
    if frame_bits == 132 {
        12
    } else if frame_bits == 177 {
        20
    } else if frame_bits == 253 {
        36
    } else if frame_bits == 285 {
        44
    } else if frame_bits == 317 {
        52
    } else if frame_bits == 365 {
        64
    } else if frame_bits == 397 {
        72
    } else {
        88
    }
}

/// How many bits a mode spends on pulses per subframe.
#[must_use]
#[verifier::when_used_as_spec(spec_pulse_bits)]
pub fn pulse_bits(frame_bits: usize) -> (bits: usize)
    ensures
        bits == spec_pulse_bits(frame_bits),
{
    match frame_bits {
        132 => 12,
        177 => 20,
        253 => 36,
        285 => 44,
        317 => 52,
        365 => 64,
        397 => 72,
        _ => 88,
    }
}

/// Decode a subframe's innovation vector from its pulse indices.
///
/// The frame width selects the codebook.
#[must_use]
pub fn decode(indices: &[u16], frame_bits: usize) -> (r: Option<[i16; L_SUBFR]>)
    ensures
        frame_bits == 132 ==> (r is Some <==> indices@.len() > 0),
        frame_bits == 132 && r is Some ==> r->0@ == two_pulse_code(indices@[0] as int),
        frame_bits != 132 ==> (r is Some <==> decodable(
            indices@.len() as int,
            pulse_bits(frame_bits) as int,
        )),
        frame_bits != 132 && r is Some ==> r->0@ == four_track_code(
            indices@,
            pulse_bits(frame_bits) as int,
        ),
{
    let bits: usize = pulse_bits(frame_bits);
    if bits == 12 {
        if indices.len() == 0 {
            None
        } else {
            Some(decode_2t64(indices[0]))
        }
    } else {
        decode_4t64(indices, bits)
    }
}

} // verus!
