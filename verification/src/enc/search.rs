//! The four-track codebook search: two pulses at a time, on adjacent tracks.

use vstd::prelude::*;
use crate::codebook::{decodable, effect, four_track_code, lemma_code_reads_a_prefix, net};
use crate::enc::budget::PulseBudget;
use crate::enc::codebook::{
    cross_lookup, cross_prefix, decide_signs, energy_at, energy_prefix, lemma_ratio_chain,
    lemma_ratio_test, lemma_square_word, rectified, signed_correlation, signed_cross, signs, tap,
    tap_at, L_SUBFR, NB_MAX, NB_POS, NB_TRACK,
};
use crate::enc::pack::{
    law_packed_indices_decode, pack_indices, packed_indices, signs_agree, slots_code, slots_filled,
    slots_on, MAX_PULSES,
};
use crate::fixed_point::{
    add_s, extract_h, l_add, l_deposit_h, l_mac, l_msu, l_mult, l_shl, l_shr, lemma_l_mac, mult,
    negate, round, shr, shr_r, sub_s, DspContext, Word16, Word32,
};
use crate::math::{accumulate, mac_run};
use vstd::arithmetic::power2::{lemma2_to64, pow2};

verus! {

// ---------------------------------------------------------------------------
// Ranking
// ---------------------------------------------------------------------------

/// The largest of the first `n` entries of track `t` that exceeds -1, and
/// where it is; the lowest sample wins among equals.
pub open spec fn best_position(ranks: Seq<Word16>, t: int, n: int, start: int) -> (Word16, int)
    decreases n,
{
    if n <= 0 {
        (Word16(-1i16), start)
    } else {
        let best = best_position(ranks, t, n - 1, start);
        let j = t + 4 * (n - 1);
        if ranks[j].0 > best.0.0 {
            (ranks[j], j)
        } else {
            best
        }
    }
}

/// The ranking after `k` selections, eight per track: the entries with
/// `rank - 8` written over the selected ones, the last selection, and each
/// track's peak.
pub open spec fn ranking(mixed: Seq<Word16>, k: int) -> (Seq<Word16>, int, Seq<int>)
    decreases k,
{
    if k <= 0 {
        (mixed, 0, seq![0, 0, 0, 0])
    } else {
        let (ranks, last, peak) = ranking(mixed, k - 1);
        let t = (k - 1) / 8;
        let r = (k - 1) % 8;
        let p = best_position(ranks, t, 16, last).1;
        (
            ranks.update(p, Word16((r - 8) as i16)),
            p,
            if r == 0 {
                peak.update(t, p)
            } else {
                peak
            },
        )
    }
}

/// How many of the first `n` entries of track `t` are negative.
spec fn negatives(ranks: Seq<Word16>, t: int, n: int) -> int
    decreases n,
{
    if n <= 0 {
        0
    } else {
        negatives(ranks, t, n - 1) + if ranks[t + 4 * (n - 1)].0 < 0 {
            1int
        } else {
            0
        }
    }
}

proof fn lemma_negatives_update(ranks: Seq<Word16>, p: int, v: Word16, t: int, n: int)
    requires
        ranks.len() == 64,
        0 <= p < 64,
        ranks[p].0 >= 0,
        v.0 < 0,
        0 <= t < 4,
        0 <= n <= 16,
    ensures
        negatives(ranks.update(p, v), t, n) == negatives(ranks, t, n) + if p % 4 == t && p / 4 < n {
            1int
        } else {
            0
        },
    decreases n,
{
    if n > 0 {
        lemma_negatives_update(ranks, p, v, t, n - 1);
    }
}

/// A track with fewer negatives than entries has an entry left to select.
proof fn lemma_unselected(ranks: Seq<Word16>, t: int, n: int) -> (m: int)
    requires
        negatives(ranks, t, n) < n,
        n > 0,
    ensures
        0 <= m < n,
        ranks[t + 4 * m].0 >= 0,
    decreases n,
{
    if ranks[t + 4 * (n - 1)].0 >= 0 {
        n - 1
    } else {
        lemma_unselected(ranks, t, n - 1)
    }
}

proof fn lemma_best_position(ranks: Seq<Word16>, t: int, n: int, start: int)
    requires
        0 <= t < 4,
        0 <= n <= 16,
    ensures
        ({
            let best = best_position(ranks, t, n, start);
            &&& best.0.0 >= -1
            &&& best.0.0 >= 0 ==> 0 <= best.1 < 64 && best.1 % 4 == t && ranks[best.1] == best.0
            &&& best.0.0 < 0 ==> best.1 == start
            &&& forall|m: int| 0 <= m < n ==> #[trigger] ranks[t + 4 * m].0 <= best.0.0
        }),
    decreases n,
{
    if n > 0 {
        lemma_best_position(ranks, t, n - 1, start);
    }
}

/// What holds after `k` selections: each was made on its own track.
proof fn lemma_ranking(mixed: Seq<Word16>, k: int)
    requires
        mixed.len() == 64,
        0 <= k <= 32,
        forall|i: int| 0 <= i < 64 ==> #[trigger] mixed[i].0 >= 0,
    ensures
        ({
            let (ranks, last, peak) = ranking(mixed, k);
            &&& ranks.len() == 64
            &&& peak.len() == 4
            &&& 0 <= last < 64
            &&& forall|t: int|
                0 <= t < 4 ==> #[trigger] negatives(ranks, t, 16) == if k <= 8 * t {
                    0
                } else if k <= 8 * t + 8 {
                    k - 8 * t
                } else {
                    8
                }
            &&& forall|t: int|
                0 <= t < 4 && 8 * t < k ==> 0 <= #[trigger] peak[t] < 64 && peak[t] % 4 == t
        }),
    decreases k,
{
    if k == 0 {
        assert forall|t: int| 0 <= t < 4 implies #[trigger] negatives(mixed, t, 16) == 0 by {
            lemma_no_negatives(mixed, t, 16);
        }
    } else {
        lemma_ranking(mixed, k - 1);
        let (ranks, last, peak) = ranking(mixed, k - 1);
        let t = (k - 1) / 8;
        let r = (k - 1) % 8;
        let p = best_position(ranks, t, 16, last).1;
        assert(negatives(ranks, t, 16) == r);
        let m = lemma_unselected(ranks, t, 16);
        lemma_best_position(ranks, t, 16, last);
        assert(ranks[t + 4 * m].0 <= best_position(ranks, t, 16, last).0.0);
        let v = Word16((r - 8) as i16);
        assert forall|u: int| 0 <= u < 4 implies #[trigger] negatives(ranks.update(p, v), u, 16)
            == negatives(ranks, u, 16) + if p % 4 == u {
            1int
        } else {
            0
        } by {
            lemma_negatives_update(ranks, p, v, u, 16);
        }
    }
}

proof fn lemma_no_negatives(mixed: Seq<Word16>, t: int, n: int)
    requires
        mixed.len() == 64,
        0 <= t < 4,
        0 <= n <= 16,
        forall|i: int| 0 <= i < 64 ==> #[trigger] mixed[i].0 >= 0,
    ensures
        negatives(mixed, t, n) == 0,
    decreases n,
{
    if n > 0 {
        lemma_no_negatives(mixed, t, n - 1);
    }
}

/// Rank the eight best positions of each track by the mixed correlation,
/// overwriting it with `rank - 8`; the best of each track is its peak.
pub fn rank_positions(mixed: &[Word16; L_SUBFR]) -> (r: ([Word16; L_SUBFR], [usize; 4]))
    requires
        forall|i: int| 0 <= i < 64 ==> #[trigger] mixed@[i].0 >= 0,
    ensures
        r.0@ == ranking(mixed@, 32).0,
        forall|t: int| 0 <= t < 4 ==> #[trigger] r.1@[t] == ranking(mixed@, 32).2[t],
        forall|t: int| 0 <= t < 4 ==> #[trigger] r.1@[t] < 64 && r.1@[t] % 4 == t,
{
    let mut ranks: [Word16; L_SUBFR] = *mixed;
    let mut peak: [usize; 4] = [0; 4];
    let mut pos: usize = 0;
    for t in 0..NB_TRACK
        invariant
            forall|i: int| 0 <= i < 64 ==> #[trigger] mixed@[i].0 >= 0,
            ranks@ == ranking(mixed@, 8 * t as int).0,
            pos == ranking(mixed@, 8 * t as int).1,
            forall|u: int| 0 <= u < 4 ==> #[trigger] peak@[u] == ranking(mixed@, 8 * t as int).2[u],
    {
        for rank in 0..8usize
            invariant
                t < 4,
                forall|i: int| 0 <= i < 64 ==> #[trigger] mixed@[i].0 >= 0,
                ranks@ == ranking(mixed@, 8 * t + rank).0,
                pos == ranking(mixed@, 8 * t + rank).1,
                forall|u: int|
                    0 <= u < 4 ==> #[trigger] peak@[u] == ranking(mixed@, 8 * t + rank).2[u],
        {
            let ghost start = pos as int;
            let mut best = Word16(-1);
            for n in 0..NB_POS
                invariant
                    t < 4,
                    (best, pos as int) == best_position(ranks@, t as int, n as int, start),
            {
                let j: usize = t + NB_TRACK * n;
                if ranks[j].0 > best.0 {
                    best = ranks[j];
                    pos = j;
                }
            }
            proof {
                let k = 8 * t + rank + 1;
                assert((k - 1) / 8 == t && (k - 1) % 8 == rank);
                lemma_ranking(mixed@, k - 1);
                lemma_ranking(mixed@, k);
            }
            ranks[pos] = Word16(rank as i16 - NB_MAX);
            if rank == 0 {
                peak[t] = pos;
            }
        }
    }
    proof {
        lemma_ranking(mixed@, 32);
    }
    (ranks, peak)
}

// ---------------------------------------------------------------------------
// What a stage reads and leaves
// ---------------------------------------------------------------------------

/// What every stage of one subframe's search reads.
pub struct SearchView {
    /// The signed target correlation.
    pub dn: Seq<Word16>,
    /// The sign of a pulse at each sample.
    pub sign: Seq<Word16>,
    /// The scaled impulse response.
    pub h: Seq<Word16>,
    /// `rank - 8` at each track's best positions.
    pub ranks: Seq<Word16>,
    /// Each track's best position.
    pub peak: Seq<int>,
}

/// What one stage hands to the next.
pub struct StageView {
    /// The filtered pulses placed so far.
    pub excitation: Seq<Word16>,
    /// The correlation that they gather.
    pub correlation: Word16,
    /// Their energy.
    pub energy: Word16,
    /// Where they are.
    pub placed: Seq<int>,
}

/// The track of pulse `k` in iteration `it`. Each row of four pulses takes the
/// four tracks in cyclic order and starts one track later than the row before
/// it; the odd pulses of 44 and 72 bits go to the first two.
pub open spec fn track_of(budget: PulseBudget, it: int, k: int) -> int {
    if budget == PulseBudget::B44 && k >= 8 {
        k - 8
    } else if budget == PulseBudget::B72 && k >= 16 {
        k - 16
    } else {
        (it + k / 4 + k % 4) % 4
    }
}

/// What a pulse at `p` adds to the energy of the pulses placed so far.
pub open spec fn energy_gain(v: SearchView, excitation: Seq<Word16>, p: int) -> Word16 {
    let acc = l_shl(mac_run(Word32(0), v.h, 0, excitation, p, 64 - p), 1);
    add_s(mult(round(acc), v.sign[p]), energy_at(v.h, Word32(0x8000), p))
}

/// The squared correlation and the energy of the pulse set with pulses at `x`
/// and `y` added.
#[verifier::opaque]
pub open spec fn pair_score(v: SearchView, st: StageView, x: int, y: int) -> (Word16, Word16) {
    let corr = add_s(add_s(st.correlation, v.dn[x]), v.dn[y]);
    let base = l_add(l_deposit_h(st.energy), Word32(0x8000));
    let with_x = l_mac(base, energy_gain(v, st.excitation, x), Word16(4096));
    let with_y = l_mac(with_x, energy_gain(v, st.excitation, y), Word16(4096));
    let energy = extract_h(l_mac(with_y, signed_cross(v.h, v.sign, x, y), Word16(8192)));
    (mult(corr, corr), energy)
}

/// The incumbent after a candidate: displaced only by a strictly larger ratio
/// of squared correlation to energy.
pub open spec fn improved(
    best: (Word16, Word16, int, int),
    score: (Word16, Word16),
    x: int,
    y: int,
) -> (Word16, Word16, int, int) {
    if l_msu(l_mult(best.1, score.0), best.0, score.1).0 > 0 {
        (score.0, score.1, x, y)
    } else {
        best
    }
}

/// The best pair among the first `k` of the 16 × 16 pairs on tracks `tx` and
/// `ty`: its squared correlation, its energy and its two samples. The first
/// pulse is tried only where its rank is below `width`.
pub open spec fn pair_pick(
    v: SearchView,
    st: StageView,
    tx: int,
    ty: int,
    width: i16,
    k: int,
) -> (Word16, Word16, int, int)
    decreases k,
{
    if k <= 0 {
        (Word16(-1i16), Word16(1), tx, ty)
    } else {
        let best = pair_pick(v, st, tx, ty, width, k - 1);
        let x = tx + 4 * ((k - 1) / 16);
        let y = ty + 4 * ((k - 1) % 16);
        if v.ranks[x].0 >= width - 8 {
            best
        } else {
            improved(best, pair_score(v, st, x, y), x, y)
        }
    }
}

/// The state after the best pair has been placed.
#[verifier::opaque]
pub open spec fn place_pair(
    v: SearchView,
    st: StageView,
    tx: int,
    ty: int,
    width: i16,
) -> StageView {
    let best = pair_pick(v, st, tx, ty, width, 256);
    let x = best.2;
    let y = best.3;
    StageView {
        excitation: Seq::new(
            64,
            |i: int|
                add_s(
                    st.excitation[i],
                    add_s(tap_at(v.h, v.sign[x], x, i), tap_at(v.h, v.sign[y], y, i)),
                ),
        ),
        correlation: add_s(st.correlation, add_s(v.dn[x], v.dn[y])),
        energy: best.1,
        placed: st.placed.push(x).push(y),
    }
}

/// The state after the pulses that the peaks fix.
#[verifier::opaque]
pub open spec fn first_stage(v: SearchView, budget: PulseBudget, it: int) -> StageView {
    let a = v.peak[track_of(budget, it, 0)];
    let b = v.peak[track_of(budget, it, 1)];
    let c = v.peak[track_of(budget, it, 2)];
    let d = v.peak[track_of(budget, it, 3)];
    let seed = Word32(0x8000);
    if budget.first_stage_pulses() == 0 {
        StageView {
            excitation: Seq::new(64, |i: int| Word16(0)),
            correlation: Word16(0),
            energy: Word16(0),
            placed: Seq::empty(),
        }
    } else if budget.first_stage_pulses() == 2 {
        let own = l_mac(
            l_mult(energy_at(v.h, seed, a), Word16(4096)),
            energy_at(v.h, seed, b),
            Word16(4096),
        );
        StageView {
            excitation: Seq::new(
                64,
                |i: int| add_s(tap_at(v.h, v.sign[a], a, i), tap_at(v.h, v.sign[b], b, i)),
            ),
            correlation: add_s(v.dn[a], v.dn[b]),
            energy: round(l_mac(own, signed_cross(v.h, v.sign, a, b), Word16(8192))),
            placed: seq![a, b],
        }
    } else {
        let excitation = Seq::new(
            64,
            |i: int|
                add_s(
                    add_s(
                        add_s(tap_at(v.h, v.sign[a], a, i), tap_at(v.h, v.sign[b], b, i)),
                        tap_at(v.h, v.sign[c], c, i),
                    ),
                    tap_at(v.h, v.sign[d], d, i),
                ),
        );
        StageView {
            excitation,
            correlation: add_s(add_s(add_s(v.dn[a], v.dn[b]), v.dn[c]), v.dn[d]),
            energy: round(l_shr(mac_run(Word32(0), excitation, 0, excitation, 0, 64), 3)),
            placed: seq![a, b, c, d],
        }
    }
}

/// The state of iteration `it` after `m` pairs.
pub open spec fn after_pairs(v: SearchView, budget: PulseBudget, it: int, m: int) -> StageView
    decreases m,
{
    if m <= 0 {
        first_stage(v, budget, it)
    } else {
        let st = after_pairs(v, budget, it, m - 1);
        let j = budget.first_stage_pulses() + 2 * (m - 1);
        place_pair(
            v,
            st,
            track_of(budget, it, j),
            track_of(budget, it, j + 1),
            budget.stage_width((m - 1) as usize),
        )
    }
}

/// How many pairs follow the first stage.
pub open spec fn pair_count(budget: PulseBudget) -> int {
    (budget.pulses() - budget.first_stage_pulses()) / 2
}

/// The outcome of the first `n` iterations: squared correlation and energy of
/// the incumbent, its samples and its filtered pulses.
pub open spec fn search_outcome(
    v: SearchView,
    budget: PulseBudget,
    filtered: Seq<Word16>,
    n: int,
) -> (Word16, Word16, Seq<int>, Seq<Word16>)
    decreases n,
{
    if n <= 0 {
        (Word16(-1i16), Word16(1), Seq::new(budget.pulses() as nat, |k: int| k), filtered)
    } else {
        let best = search_outcome(v, budget, filtered, n - 1);
        let st = after_pairs(v, budget, n - 1, pair_count(budget));
        let sq = mult(st.correlation, st.correlation);
        if l_msu(l_mult(best.1, sq), best.0, st.energy).0 > 0 {
            (sq, st.energy, st.placed, st.excitation)
        } else {
            best
        }
    }
}

// ---------------------------------------------------------------------------
// Executable stages
// ---------------------------------------------------------------------------

/// What every stage of one subframe's search reads, with its energy tables.
pub struct SearchTables {
    dn: [Word16; L_SUBFR],
    sign: [Word16; L_SUBFR],
    h: [Word16; L_SUBFR],
    ranks: [Word16; L_SUBFR],
    peak: [usize; 4],
    energy: [Word16; L_SUBFR],
    chains: [[Word16; L_SUBFR]; 32],
}

impl SearchTables {
    /// What the tables stand for.
    pub closed spec fn view(&self) -> SearchView {
        SearchView {
            dn: self.dn@,
            sign: self.sign@,
            h: self.h@,
            ranks: self.ranks@,
            peak: Seq::new(4, |t: int| self.peak@[t] as int),
        }
    }

    /// The energy tables belong to the impulse response, and each peak to its
    /// track.
    pub closed spec fn wf(&self) -> bool {
        &&& forall|p: int|
            0 <= p < 64 ==> #[trigger] self.energy@[63 - p] == energy_at(
                self.h@,
                Word32(0x8000),
                p,
            )
        &&& forall|c: int, n: int|
            0 <= c < 32 && 0 <= n < 63 - 2 * c ==> #[trigger] self.chains@[c]@[n] == extract_h(
                mac_run(Word32(0x8000), self.h@, 0, self.h@, 2 * c + 1, n + 1),
            )
        &&& forall|t: int| 0 <= t < 4 ==> #[trigger] self.peak@[t] < 64 && self.peak@[t] % 4 == t
    }

    /// The tables of one subframe, with one peak on each track.
    pub fn new(
        dn: [Word16; L_SUBFR],
        sign: [Word16; L_SUBFR],
        h: [Word16; L_SUBFR],
        ranks: [Word16; L_SUBFR],
        peak: [usize; 4],
    ) -> (t: Self)
        requires
            forall|k: int| 0 <= k < 4 ==> #[trigger] peak@[k] < 64 && peak@[k] % 4 == k,
        ensures
            t.wf(),
            t.view() == (SearchView {
                dn: dn@,
                sign: sign@,
                h: h@,
                ranks: ranks@,
                peak: Seq::new(4, |k: int| peak@[k] as int),
            }),
    {
        let energy = energy_prefix(&h, Word32(0x8000));
        let chains = cross_prefix(&h);
        SearchTables { dn, sign, h, ranks, peak, energy, chains }
    }
}

/// A stage's working state.
#[derive(Clone, Copy, Debug)]
pub struct Stage {
    /// The filtered pulses placed so far.
    pub excitation: [Word16; L_SUBFR],
    /// The correlation that they gather.
    pub correlation: Word16,
    /// Their energy.
    pub energy: Word16,
    /// Where they are; the first `count` entries.
    pub placed: [i16; 24],
    /// How many there are.
    pub count: usize,
}

impl Stage {
    /// The state as plain values.
    pub open spec fn view(&self) -> StageView {
        StageView {
            excitation: self.excitation@,
            correlation: self.correlation,
            energy: self.energy,
            placed: Seq::new(self.count as nat, |k: int| self.placed@[k] as int),
        }
    }
}

/// Correlate the impulse response with the excitation built so far, for every
/// position of one track, and add that track's own energies.
fn track_correlations(t: &SearchTables, excitation: &[Word16; L_SUBFR], track: usize) -> (out: [Word16;
    NB_POS])
    requires
        t.wf(),
        track < 4,
    ensures
        forall|n: int|
            0 <= n < 16 ==> #[trigger] out@[n] == energy_gain(
                t.view(),
                excitation@,
                track + 4 * n,
            ),
{
    let mut out: [Word16; NB_POS] = [Word16(0); NB_POS];
    for n in 0..NB_POS
        invariant
            t.wf(),
            track < 4,
            forall|m: int|
                0 <= m < n ==> #[trigger] out@[m] == energy_gain(
                    t.view(),
                    excitation@,
                    track + 4 * m,
                ),
    {
        let pos: usize = track + NB_TRACK * n;
        let acc = accumulate(Word32(0), &t.h, 0, excitation, pos, L_SUBFR - pos);
        let own = t.energy[63 - pos];
        assert(own == energy_at(t.h@, Word32(0x8000), pos as int));
        out[n] = add_s(mult(round(l_shl(acc, 1)), t.sign[pos]), own);
    }
    out
}

/// The best pair's samples are on its tracks.
proof fn lemma_pick_on_tracks(
    v: SearchView,
    st: StageView,
    tx: int,
    ty: int,
    width: i16,
    k: int,
)
    requires
        0 <= tx < 4,
        0 <= ty < 4,
        k <= 256,
    ensures
        ({
            let best = pair_pick(v, st, tx, ty, width, k);
            &&& 0 <= best.2 < 64 && best.2 % 4 == tx
            &&& 0 <= best.3 < 64 && best.3 % 4 == ty
        }),
    decreases k,
{
    if k > 0 {
        lemma_pick_on_tracks(v, st, tx, ty, width, k - 1);
        let nx = (k - 1) / 16;
        let ny = (k - 1) % 16;
        assert(0 <= nx < 16 && 0 <= ny < 16);
        let best = pair_pick(v, st, tx, ty, width, k - 1);
        let next = pair_pick(v, st, tx, ty, width, k);
        assert((next.2 == best.2 && next.3 == best.3) || (next.2 == tx + 4 * nx && next.3 == ty + 4
            * ny));
    }
}

/// Find the best position for two pulses on adjacent tracks.
///
/// The outer pulse is tried only at the `width` best-ranked positions of its
/// track; the inner one at all sixteen. Both are visited in ascending sample
/// order and the acceptance test is strict, so the earliest pair wins a tie.
///
/// Returns the pair, and the energy of the pulse set with it; where nothing
/// was accepted, the first positions and an energy of one.
fn best_pulse_pair(
    t: &SearchTables,
    st: &Stage,
    width: i16,
    track_x: usize,
    track_y: usize,
) -> (r: (usize, usize, Word16))
    requires
        t.wf(),
        track_x < 4,
        track_y == (track_x + 1) % 4,
        0 <= width <= 8,
    ensures
        ({
            let best = pair_pick(
                t.view(),
                st.view(),
                track_x as int,
                track_y as int,
                width,
                256,
            );
            r.0 == best.2 && r.1 == best.3 && r.2 == best.1
        }),
        r.0 < 64 && r.0 % 4 == track_x,
        r.1 < 64 && r.1 % 4 == track_y,
{
    let ghost v = t.view();
    let ghost s = st.view();
    let cor_x = track_correlations(t, &st.excitation, track_x);
    let cor_y = track_correlations(t, &st.excitation, track_y);
    let threshold: i16 = width - NB_MAX;
    let base = l_add(l_deposit_h(st.energy), Word32(0x8000));
    let mut best_sq = Word16(-1);
    let mut best_energy = Word16(1);
    let mut ix: usize = track_x;
    let mut iy: usize = track_y;
    for nx in 0..NB_POS
        invariant
            t.wf(),
            track_x < 4,
            track_y == (track_x + 1) % 4,
            v == t.view(),
            s == st.view(),
            threshold == width - 8,
            base == l_add(l_deposit_h(st.energy), Word32(0x8000)),
            forall|n: int|
                0 <= n < 16 ==> #[trigger] cor_x@[n] == energy_gain(
                    v,
                    s.excitation,
                    track_x + 4 * n,
                ),
            forall|n: int|
                0 <= n < 16 ==> #[trigger] cor_y@[n] == energy_gain(
                    v,
                    s.excitation,
                    track_y + 4 * n,
                ),
            (best_sq, best_energy, ix as int, iy as int) == pair_pick(
                v,
                s,
                track_x as int,
                track_y as int,
                width,
                16 * nx as int,
            ),
    {
        let x: usize = track_x + NB_TRACK * nx;
        let corr_x = add_s(st.correlation, t.dn[x]);
        let energy_x = l_mac(base, cor_x[nx], Word16(4096));
        let tried: bool = t.ranks[x].0 < threshold;
        for ny in 0..NB_POS
            invariant
                t.wf(),
                track_x < 4,
                track_y == (track_x + 1) % 4,
                nx < 16,
                x == track_x + 4 * nx,
                v == t.view(),
                s == st.view(),
                threshold == width - 8,
                base == l_add(l_deposit_h(st.energy), Word32(0x8000)),
                corr_x == add_s(st.correlation, v.dn[x as int]),
                energy_x == l_mac(base, energy_gain(v, s.excitation, x as int), Word16(4096)),
                tried == (v.ranks[x as int].0 < threshold),
                forall|n: int|
                    0 <= n < 16 ==> #[trigger] cor_y@[n] == energy_gain(
                        v,
                        s.excitation,
                        track_y + 4 * n,
                    ),
                (best_sq, best_energy, ix as int, iy as int) == pair_pick(
                    v,
                    s,
                    track_x as int,
                    track_y as int,
                    width,
                    16 * nx + ny,
                ),
        {
            proof {
                let k = 16 * nx + ny + 1;
                assert((k - 1) / 16 == nx && (k - 1) % 16 == ny);
            }
            if tried {
                let y: usize = track_y + NB_TRACK * ny;
                let corr = add_s(corr_x, t.dn[y]);
                let acc = l_mac(energy_x, cor_y[ny], Word16(4096));
                let cross = cross_lookup(&t.chains, &t.sign, Ghost(t.h@), x, y);
                let energy = extract_h(l_mac(acc, cross, Word16(8192)));
                let sq = mult(corr, corr);
                proof {
                    reveal(pair_score);
                }
                if l_msu(l_mult(best_energy, sq), best_sq, energy).0 > 0 {
                    best_sq = sq;
                    best_energy = energy;
                    ix = x;
                    iy = y;
                }
            }
        }
    }
    proof {
        lemma_pick_on_tracks(v, s, track_x as int, track_y as int, width, 256);
    }
    (ix, iy, best_energy)
}

/// The track of pulse `k` in iteration `it`.
pub fn track_at(budget: PulseBudget, it: usize, k: usize) -> (t: usize)
    requires
        it < 4,
        k < budget.pulses(),
    ensures
        t == track_of(budget, it as int, k as int),
        t < 4,
{
    if budget == PulseBudget::B44 && k >= 8 {
        k - 8
    } else if budget == PulseBudget::B72 && k >= 16 {
        k - 16
    } else {
        (it + k / 4 + k % 4) % 4
    }
}

/// Place the pulses that the tracks' peaks fix.
fn start_stage(t: &SearchTables, budget: PulseBudget, it: usize) -> (st: Stage)
    requires
        t.wf(),
        it < 4,
    ensures
        st.view() == first_stage(t.view(), budget, it as int),
        st.count == budget.first_stage_pulses(),
        forall|k: int|
            0 <= k < st.count ==> 0 <= #[trigger] st.placed@[k] < 64 && st.placed@[k] % 4 == track_of(
                budget,
                it as int,
                k,
            ),
{
    let ghost v = t.view();
    proof {
        reveal(first_stage);
    }
    let mut excitation: [Word16; L_SUBFR] = [Word16(0); L_SUBFR];
    let mut placed: [i16; 24] = [0; 24];
    let first: usize = budget.first_stage_pulses();
    if first == 0 {
        let st = Stage {
            excitation,
            correlation: Word16(0),
            energy: Word16(0),
            placed,
            count: 0,
        };
        assert(st.view().excitation =~= first_stage(v, budget, it as int).excitation);
        assert(st.view().placed =~= first_stage(v, budget, it as int).placed);
        return st;
    }
    let a: usize = t.peak[track_at(budget, it, 0)];
    let b: usize = t.peak[track_at(budget, it, 1)];
    placed[0] = a as i16;
    placed[1] = b as i16;
    if first == 2 {
        let correlation = add_s(t.dn[a], t.dn[b]);
        let own_a = t.energy[63 - a];
        let own_b = t.energy[63 - b];
        assert(own_a == energy_at(t.h@, Word32(0x8000), a as int));
        assert(own_b == energy_at(t.h@, Word32(0x8000), b as int));
        let own = l_mac(l_mult(own_a, Word16(4096)), own_b, Word16(4096));
        let cross = cross_lookup(&t.chains, &t.sign, Ghost(t.h@), a, b);
        let energy = round(l_mac(own, cross, Word16(8192)));
        for i in 0..L_SUBFR
            invariant
                a < 64,
                b < 64,
                forall|j: int|
                    0 <= j < i ==> #[trigger] excitation@[j] == add_s(
                        tap_at(t.h@, t.sign@[a as int], a as int, j),
                        tap_at(t.h@, t.sign@[b as int], b as int, j),
                    ),
        {
            excitation[i] = add_s(tap(&t.h, t.sign[a], a, i), tap(&t.h, t.sign[b], b, i));
        }
        let st = Stage { excitation, correlation, energy, placed, count: 2 };
        assert(st.view().excitation =~= first_stage(v, budget, it as int).excitation);
        assert(st.view().placed =~= first_stage(v, budget, it as int).placed);
        return st;
    }
    let c: usize = t.peak[track_at(budget, it, 2)];
    let d: usize = t.peak[track_at(budget, it, 3)];
    placed[2] = c as i16;
    placed[3] = d as i16;
    let correlation = add_s(add_s(add_s(t.dn[a], t.dn[b]), t.dn[c]), t.dn[d]);
    for i in 0..L_SUBFR
        invariant
            a < 64,
            b < 64,
            c < 64,
            d < 64,
            forall|j: int|
                0 <= j < i ==> #[trigger] excitation@[j] == add_s(
                    add_s(
                        add_s(
                            tap_at(t.h@, t.sign@[a as int], a as int, j),
                            tap_at(t.h@, t.sign@[b as int], b as int, j),
                        ),
                        tap_at(t.h@, t.sign@[c as int], c as int, j),
                    ),
                    tap_at(t.h@, t.sign@[d as int], d as int, j),
                ),
    {
        let two = add_s(tap(&t.h, t.sign[a], a, i), tap(&t.h, t.sign[b], b, i));
        let three = add_s(two, tap(&t.h, t.sign[c], c, i));
        excitation[i] = add_s(three, tap(&t.h, t.sign[d], d, i));
    }
    assert(excitation@ =~= first_stage(v, budget, it as int).excitation);
    let acc = accumulate(Word32(0), &excitation, 0, &excitation, 0, L_SUBFR);
    let energy = round(l_shr(acc, 3));
    let st = Stage { excitation, correlation, energy, placed, count: 4 };
    assert(st.view().placed =~= first_stage(v, budget, it as int).placed);
    st
}

/// Place the best pair on tracks `track_x` and `track_y`.
pub fn add_pair(t: &SearchTables, st: &Stage, width: i16, track_x: usize, track_y: usize) -> (r: Stage)
    requires
        t.wf(),
        track_x < 4,
        track_y == (track_x + 1) % 4,
        0 <= width <= 8,
        st.count <= 22,
    ensures
        r.view() == place_pair(t.view(), st.view(), track_x as int, track_y as int, width),
        r.count == st.count + 2,
        forall|k: int| 0 <= k < st.count ==> #[trigger] r.placed@[k] == st.placed@[k],
        0 <= r.placed@[st.count as int] < 64,
        r.placed@[st.count as int] % 4 == track_x,
        0 <= r.placed@[st.count + 1] < 64,
        r.placed@[st.count + 1] % 4 == track_y,
{
    proof {
        reveal(place_pair);
    }
    let ghost v = t.view();
    let ghost before = st.view();
    let (ix, iy, energy) = best_pulse_pair(t, st, width, track_x, track_y);
    let ghost after = place_pair(v, before, track_x as int, track_y as int, width);
    let pair_corr = add_s(t.dn[ix], t.dn[iy]);
    let mut excitation: [Word16; L_SUBFR] = st.excitation;
    for i in 0..L_SUBFR
        invariant
            ix < 64,
            iy < 64,
            v == t.view(),
            before.excitation == st.excitation@,
            forall|j: int|
                0 <= j < i ==> #[trigger] excitation@[j] == add_s(
                    before.excitation[j],
                    add_s(
                        tap_at(v.h, v.sign[ix as int], ix as int, j),
                        tap_at(v.h, v.sign[iy as int], iy as int, j),
                    ),
                ),
            forall|j: int| i <= j < 64 ==> #[trigger] excitation@[j] == before.excitation[j],
    {
        let pair = add_s(tap(&t.h, t.sign[ix], ix, i), tap(&t.h, t.sign[iy], iy, i));
        excitation[i] = add_s(excitation[i], pair);
    }
    let j: usize = st.count;
    let mut placed: [i16; 24] = st.placed;
    placed[j] = ix as i16;
    placed[j + 1] = iy as i16;
    let r = Stage {
        excitation,
        correlation: add_s(st.correlation, pair_corr),
        energy,
        placed,
        count: j + 2,
    };
    assert(r.view().excitation =~= after.excitation);
    assert(r.view().placed =~= after.placed);
    r
}

/// The tracks of a pair are adjacent, and no stage tries more than eight
/// positions.
proof fn lemma_stage(budget: PulseBudget, it: int, m: int)
    requires
        0 <= it < 4,
        0 <= m < pair_count(budget),
    ensures
        ({
            let j = budget.first_stage_pulses() + 2 * m;
            track_of(budget, it, j + 1) == (track_of(budget, it, j) + 1) % 4
        }),
        0 <= budget.stage_width(m as usize) <= 8,
{
}

/// One whole iteration: the first stage, then pair after pair.
fn run_iteration(t: &SearchTables, budget: PulseBudget, it: usize) -> (st: Stage)
    requires
        t.wf(),
        it < 4,
    ensures
        st.view() == after_pairs(t.view(), budget, it as int, pair_count(budget)),
        st.count == budget.pulses(),
        forall|k: int|
            0 <= k < st.count ==> 0 <= #[trigger] st.placed@[k] < 64 && st.placed@[k] % 4 == track_of(
                budget,
                it as int,
                k,
            ),
{
    let ghost v = t.view();
    let mut st = start_stage(t, budget, it);
    let pairs: usize = (budget.pulses() - budget.first_stage_pulses()) / 2;
    for m in 0..pairs
        invariant
            t.wf(),
            it < 4,
            v == t.view(),
            pairs == pair_count(budget),
            pairs <= 10,
            st.view() == after_pairs(v, budget, it as int, m as int),
            st.count == budget.first_stage_pulses() + 2 * m,
            budget.first_stage_pulses() + 2 * pairs == budget.pulses(),
            forall|k: int|
                0 <= k < st.count ==> 0 <= #[trigger] st.placed@[k] < 64 && st.placed@[k] % 4
                    == track_of(budget, it as int, k),
    {
        let j: usize = st.count;
        let track_x: usize = track_at(budget, it, j);
        let track_y: usize = track_at(budget, it, j + 1);
        proof {
            lemma_stage(budget, it as int, m as int);
        }
        let width: i16 = budget.stage_width(m);
        let next = add_pair(t, &st, width, track_x, track_y);
        assert(next.view() == after_pairs(v, budget, it as int, m + 1));
        st = next;
    }
    st
}

// ---------------------------------------------------------------------------
// The chosen pulses as codeword and slots
// ---------------------------------------------------------------------------

/// How many of the first `n` chosen pulses are on track `t`.
pub open spec fn on_track(chosen: Seq<int>, t: int, n: int) -> int
    decreases n,
{
    if n <= 0 {
        0
    } else {
        on_track(chosen, t, n - 1) + if chosen[n - 1] % 4 == t {
            1int
        } else {
            0
        }
    }
}

/// The pulse table after the first `n` chosen pulses: each goes to the first
/// free slot of its track, as position plus 16 when negative.
pub open spec fn filled_slots(sign: Seq<Word16>, chosen: Seq<int>, n: int) -> Seq<i16>
    decreases n,
{
    if n <= 0 {
        Seq::new(24, |k: int| -1i16)
    } else {
        let i = chosen[n - 1];
        filled_slots(sign, chosen, n - 1).update(
            6 * (i % 4) + on_track(chosen, i % 4, n - 1),
            (i / 4 + if sign[i].0 > 0 {
                0int
            } else {
                16
            }) as i16,
        )
    }
}

/// The codeword after the first `n` chosen pulses of the given amplitude.
pub open spec fn pulse_code(
    sign: Seq<Word16>,
    amplitude: Word16,
    chosen: Seq<int>,
    n: int,
) -> Seq<Word16>
    decreases n,
{
    if n <= 0 {
        Seq::new(64, |k: int| Word16(0))
    } else {
        let code = pulse_code(sign, amplitude, chosen, n - 1);
        let i = chosen[n - 1];
        code.update(
            i,
            if sign[i].0 > 0 {
                add_s(code[i], amplitude)
            } else {
                sub_s(code[i], amplitude)
            },
        )
    }
}

/// The track of chosen pulse `k`: that of iteration `it`, or, where no
/// iteration was accepted and `it` is -1, that of the sample numbered `k`.
#[verifier::opaque]
pub open spec fn chosen_track(budget: PulseBudget, it: int, k: int) -> int {
    if it < 0 {
        k % 4
    } else {
        track_of(budget, it, k)
    }
}

/// The chosen pulses follow the tracks of some iteration, or are the samples
/// that the search starts from.
pub open spec fn follows_tracks(budget: PulseBudget, it: int, chosen: Seq<int>) -> bool {
    &&& -1 <= it < 4
    &&& chosen.len() == budget.pulses()
    &&& forall|k: int|
        0 <= k < chosen.len() ==> 0 <= #[trigger] chosen[k] < 64 && chosen[k] % 4 == chosen_track(
            budget,
            it,
            k,
        )
}

/// Each four pulses in rotation put one on every track.
proof fn lemma_rotation(budget: PulseBudget, it: int, chosen: Seq<int>, t: int, q: int)
    requires
        follows_tracks(budget, it, chosen),
        0 <= t < 4,
        0 <= q,
        4 * q <= budget.pulses(),
    ensures
        on_track(chosen, t, 4 * q) == q,
    decreases q,
{
    if q > 0 {
        lemma_rotation(budget, it, chosen, t, q - 1);
        reveal(chosen_track);
        let n = 4 * q;
        let first = if it < 0 {
            0
        } else {
            it + q - 1
        };
        assert(chosen[n - 1] % 4 == (first + 3) % 4);
        assert(chosen[n - 2] % 4 == (first + 2) % 4);
        assert(chosen[n - 3] % 4 == (first + 1) % 4);
        assert(chosen[n - 4] % 4 == first % 4);
        let hit = |k: int|
            if chosen[k] % 4 == t {
                1int
            } else {
                0int
            };
        assert(on_track(chosen, t, n) == on_track(chosen, t, n - 1) + hit(n - 1));
        assert(on_track(chosen, t, n - 1) == on_track(chosen, t, n - 2) + hit(n - 2));
        assert(on_track(chosen, t, n - 2) == on_track(chosen, t, n - 3) + hit(n - 3));
        assert(on_track(chosen, t, n - 3) == on_track(chosen, t, n - 4) + hit(n - 4));
    }
}

/// A track never gets more pulses than it has slots for.
proof fn lemma_on_track_grows(chosen: Seq<int>, t: int, n: int, m: int)
    requires
        0 <= n <= m,
    ensures
        0 <= on_track(chosen, t, n) <= on_track(chosen, t, m),
    decreases m,
{
    if n < m {
        lemma_on_track_grows(chosen, t, n, m - 1);
    } else if n > 0 {
        lemma_on_track_grows(chosen, t, n - 1, n - 1);
    }
}

/// Each track gets the pulses that the budget gives it.
proof fn lemma_track_counts(budget: PulseBudget, it: int, chosen: Seq<int>, t: int)
    requires
        follows_tracks(budget, it, chosen),
        0 <= t < 4,
    ensures
        on_track(chosen, t, budget.pulses() as int) == budget.pulses_on(t),
{
    let n = budget.pulses() as int;
    lemma_rotation(budget, it, chosen, t, n / 4);
    if n % 4 != 0 {
        reveal(chosen_track);
        reveal_with_fuel(on_track, 3);
        assert(chosen[n - 1] % 4 == chosen_track(budget, it, n - 1));
        assert(chosen[n - 2] % 4 == chosen_track(budget, it, n - 2));
    }
}

/// The first `n` chosen samples as numbers.
pub open spec fn positions_of(chosen: Seq<i16>, n: int) -> Seq<int> {
    Seq::new(n as nat, |k: int| chosen[k] as int)
}

/// Which slots are taken after `n` pulses, and that they hold pulses.
spec fn slots_taken(sign: Seq<Word16>, chosen: Seq<int>, n: int) -> bool {
    let slots = filled_slots(sign, chosen, n);
    &&& slots.len() == 24
    &&& forall|t: int, x: int|
        0 <= t < 4 && 0 <= x < 6 ==> if x < on_track(chosen, t, n) {
            0 <= #[trigger] slots[6 * t + x] < 32 && (slots[6 * t + x] >= 16) == (sign[4 * (slots[
                6 * t + x] % 16) + t].0 <= 0)
        } else {
            slots[6 * t + x] == -1
        }
}

proof fn lemma_slots_taken(
    budget: PulseBudget,
    it: int,
    sign: Seq<Word16>,
    chosen: Seq<int>,
    n: int,
)
    requires
        follows_tracks(budget, it, chosen),
        0 <= n <= budget.pulses(),
    ensures
        slots_taken(sign, chosen, n),
        n < budget.pulses() ==> on_track(chosen, chosen[n] % 4, n) < 6,
    decreases n,
{
    if n < budget.pulses() {
        let t = chosen[n] % 4;
        lemma_track_counts(budget, it, chosen, t);
        lemma_on_track_grows(chosen, t, n + 1, budget.pulses() as int);
    }
    if n > 0 {
        lemma_slots_taken(budget, it, sign, chosen, n - 1);
        let i = chosen[n - 1];
        let old_slots = filled_slots(sign, chosen, n - 1);
        let slots = filled_slots(sign, chosen, n);
        lemma_on_track_grows(chosen, i % 4, n - 1, n - 1);
        assert forall|t: int, x: int| 0 <= t < 4 && 0 <= x < 6 implies if x < on_track(
            chosen,
            t,
            n,
        ) {
            0 <= #[trigger] slots[6 * t + x] < 32 && (slots[6 * t + x] >= 16) == (sign[4 * (slots[
                6 * t + x] % 16) + t].0 <= 0)
        } else {
            slots[6 * t + x] == -1
        } by {
            let same = 6 * t + x == 6 * (i % 4) + on_track(chosen, i % 4, n - 1);
            assert(old_slots[6 * t + x] == slots[6 * t + x] || same);
            if t == i % 4 {
            } else {
                assert(!same);
            }
        }
    }
}

/// How many of the first `n` chosen pulses are at sample `i`.
pub open spec fn count_at(chosen: Seq<int>, i: int, n: int) -> int
    decreases n,
{
    if n <= 0 {
        0
    } else {
        count_at(chosen, i, n - 1) + if chosen[n - 1] == i {
            1int
        } else {
            0
        }
    }
}

/// The number of pulses at a sample, with its sign.
pub open spec fn signed_count(sign: Seq<Word16>, chosen: Seq<int>, i: int, n: int) -> int {
    if sign[i].0 > 0 {
        count_at(chosen, i, n)
    } else {
        -count_at(chosen, i, n)
    }
}

proof fn lemma_count_bound(chosen: Seq<int>, i: int, n: int)
    requires
        n >= 0,
    ensures
        0 <= count_at(chosen, i, n) <= n,
    decreases n,
{
    if n > 0 {
        lemma_count_bound(chosen, i, n - 1);
    }
}

/// The codeword holds each sample's pulses times the amplitude.
proof fn lemma_pulse_code(
    sign: Seq<Word16>,
    amplitude: Word16,
    chosen: Seq<int>,
    n: int,
)
    requires
        0 <= n <= 24,
        n <= chosen.len(),
        0 < amplitude.0 <= 512,
        forall|k: int| 0 <= k < chosen.len() ==> 0 <= #[trigger] chosen[k] < 64,
    ensures
        pulse_code(sign, amplitude, chosen, n).len() == 64,
        forall|i: int|
            0 <= i < 64 ==> #[trigger] pulse_code(sign, amplitude, chosen, n)[i].0 == amplitude.0
                * signed_count(sign, chosen, i, n),
    decreases n,
{
    reveal(crate::fixed_point::spec_add_s);
    reveal(crate::fixed_point::spec_sub_s);
    let amp = amplitude.0 as int;
    if n > 0 {
        lemma_pulse_code(sign, amplitude, chosen, n - 1);
        let code = pulse_code(sign, amplitude, chosen, n - 1);
        let p = chosen[n - 1];
        let c = signed_count(sign, chosen, p, n - 1);
        lemma_count_bound(chosen, p, n - 1);
        assert(code[p].0 == amp * c);
        assert(-12288 + 512 <= amp * c <= 12288 - 512 && amp * (c + 1) == amp * c + amp && amp * (c
            - 1) == amp * c - amp) by (nonlinear_arith)
            requires
                0 < amp <= 512,
                -23 <= c <= 23,
        ;
        assert forall|i: int| 0 <= i < 64 implies #[trigger] pulse_code(
            sign,
            amplitude,
            chosen,
            n,
        )[i].0 == amp * signed_count(sign, chosen, i, n) by {
            if i != p {
                assert(pulse_code(sign, amplitude, chosen, n)[i] == code[i]);
                assert(signed_count(sign, chosen, i, n) == signed_count(sign, chosen, i, n - 1));
            }
        }
    } else {
        assert(amp * 0 == 0);
    }
}

/// The pulses in track `t`'s slots after `n` pulses.
spec fn track_slots(sign: Seq<Word16>, chosen: Seq<int>, t: int, n: int) -> Seq<int> {
    Seq::new(
        on_track(chosen, t, n) as nat,
        |x: int| filled_slots(sign, chosen, n)[6 * t + x] as int,
    )
}

/// The slots hold each sample's pulses.
proof fn lemma_slots_net(
    budget: PulseBudget,
    it: int,
    sign: Seq<Word16>,
    chosen: Seq<int>,
    n: int,
    t: int,
    p: int,
)
    requires
        follows_tracks(budget, it, chosen),
        0 <= n <= budget.pulses(),
        0 <= t < 4,
        0 <= p < 16,
    ensures
        net(track_slots(sign, chosen, t, n), p) == signed_count(sign, chosen, 4 * p + t, n),
    decreases n,
{
    if n > 0 {
        lemma_slots_net(budget, it, sign, chosen, n - 1, t, p);
        lemma_slots_taken(budget, it, sign, chosen, n - 1);
        lemma_on_track_grows(chosen, t, n - 1, n - 1);
        let i = chosen[n - 1];
        let before = track_slots(sign, chosen, t, n - 1);
        let after = track_slots(sign, chosen, t, n);
        if i % 4 == t {
            let v = i / 4 + if sign[i].0 > 0 {
                0int
            } else {
                16
            };
            assert(after =~= before.push(v));
            assert(after.drop_last() =~= before);
            assert(net(after, p) == net(before, p) + effect(p)(v));
        } else {
            lemma_on_track_grows(chosen, i % 4, n - 1, n - 1);
            lemma_track_counts(budget, it, chosen, t);
            lemma_on_track_grows(chosen, t, n - 1, budget.pulses() as int);
            assert(after =~= before);
        }
    } else {
        assert(track_slots(sign, chosen, t, n) =~= Seq::<int>::empty());
    }
}

/// The filled slots hold pulses, and pulses that share a position one sign.
proof fn lemma_slots_valid(budget: PulseBudget, it: int, sign: Seq<Word16>, chosen: Seq<int>)
    requires
        follows_tracks(budget, it, chosen),
    ensures
        slots_filled(budget, filled_slots(sign, chosen, budget.pulses() as int)),
        forall|t: int|
            0 <= t < 4 ==> signs_agree(
                #[trigger] slots_on(
                    budget,
                    filled_slots(sign, chosen, budget.pulses() as int),
                    t,
                ),
            ),
{
    let n = budget.pulses() as int;
    let slots = filled_slots(sign, chosen, n);
    lemma_slots_taken(budget, it, sign, chosen, n);
    lemma_track_counts(budget, it, chosen, 0);
    lemma_track_counts(budget, it, chosen, 1);
    lemma_track_counts(budget, it, chosen, 2);
    lemma_track_counts(budget, it, chosen, 3);
    assert forall|t: int| 0 <= t < 4 implies signs_agree(#[trigger] slots_on(budget, slots, t)) by {
        let here = slots_on(budget, slots, t);
        assert forall|x: int, y: int|
            0 <= x < here.len() && 0 <= y < here.len() && #[trigger] here[x] % 16
                == #[trigger] here[y] % 16 implies here[x] == here[y] by {
            assert(here[x] == slots[6 * t + x] && here[y] == slots[6 * t + y]);
        }
    }
}

/// The slots stand for each sample's pulses.
proof fn lemma_slots_code(
    budget: PulseBudget,
    it: int,
    sign: Seq<Word16>,
    chosen: Seq<int>,
    i: int,
)
    requires
        follows_tracks(budget, it, chosen),
        0 <= i < 64,
    ensures
        slots_code(budget, filled_slots(sign, chosen, budget.pulses() as int))[i] == 512
            * signed_count(sign, chosen, i, budget.pulses() as int),
{
    let n = budget.pulses() as int;
    let slots = filled_slots(sign, chosen, n);
    let t = i % 4;
    let p = i / 4;
    lemma_track_counts(budget, it, chosen, t);
    lemma_slots_net(budget, it, sign, chosen, n, t, p);
    assert(track_slots(sign, chosen, t, n) =~= slots_on(budget, slots, t));
    lemma_count_bound(chosen, i, n);
}

/// The best pair lies on its tracks.
proof fn lemma_pair_tracks(
    v: SearchView,
    st: StageView,
    tx: int,
    ty: int,
    width: i16,
    k: int,
)
    requires
        0 <= tx < 4,
        0 <= ty < 4,
        k <= 256,
    ensures
        ({
            let best = pair_pick(v, st, tx, ty, width, k);
            &&& 0 <= best.2 < 64 && best.2 % 4 == tx
            &&& 0 <= best.3 < 64 && best.3 % 4 == ty
        }),
    decreases k,
{
    if k > 0 {
        lemma_pair_tracks(v, st, tx, ty, width, k - 1);
    }
}

/// Stage after stage, the pulses lie on the tracks of their iteration.
proof fn lemma_stage_tracks(v: SearchView, budget: PulseBudget, it: int, m: int)
    requires
        0 <= it < 4,
        0 <= m <= pair_count(budget),
        v.peak.len() == 4,
        forall|t: int| 0 <= t < 4 ==> 0 <= #[trigger] v.peak[t] < 64 && v.peak[t] % 4 == t,
    ensures
        ({
            let placed = after_pairs(v, budget, it, m).placed;
            &&& placed.len() == budget.first_stage_pulses() + 2 * m
            &&& forall|k: int|
                0 <= k < placed.len() ==> 0 <= #[trigger] placed[k] < 64 && placed[k] % 4
                    == track_of(budget, it, k)
        }),
    decreases m,
{
    if m <= 0 {
        reveal(first_stage);
        let placed = first_stage(v, budget, it).placed;
        assert forall|k: int| 0 <= k < placed.len() implies 0 <= #[trigger] placed[k] < 64
            && placed[k] % 4 == track_of(budget, it, k) by {
            assert(placed[k] == v.peak[track_of(budget, it, k)]);
        }
    } else {
        lemma_stage_tracks(v, budget, it, m - 1);
        lemma_stage(budget, it, m - 1);
        reveal(place_pair);
        let st = after_pairs(v, budget, it, m - 1);
        let j = budget.first_stage_pulses() + 2 * (m - 1);
        let width = budget.stage_width((m - 1) as usize);
        lemma_pair_tracks(v, st, track_of(budget, it, j), track_of(budget, it, j + 1), width, 256);
        let placed = after_pairs(v, budget, it, m).placed;
        assert forall|k: int| 0 <= k < placed.len() implies 0 <= #[trigger] placed[k] < 64
            && placed[k] % 4 == track_of(budget, it, k) by {
            if k < st.placed.len() {
                assert(placed[k] == st.placed[k]);
            }
        }
    }
}

/// Whatever is searched, the outcome follows the tracks of some iteration.
pub proof fn lemma_outcome_tracks(
    dn: Seq<Word16>,
    cn: Seq<Word16>,
    impulse: Seq<Word16>,
    budget: PulseBudget,
    filtered: Seq<Word16>,
    n: int,
) -> (it: int)
    requires
        0 <= n <= 4,
    ensures
        follows_tracks(
            budget,
            it,
            search_outcome(search_view(dn, cn, impulse, budget), budget, filtered, n).2,
        ),
    decreases n,
{
    let v = search_view(dn, cn, impulse, budget);
    if n <= 0 {
        let first = search_outcome(v, budget, filtered, 0).2;
        assert forall|k: int| 0 <= k < first.len() implies 0 <= #[trigger] first[k] < 64 && first[k]
            % 4 == chosen_track(budget, -1, k) by {
            reveal(chosen_track);
            assert(first[k] == k);
        }
        -1
    } else {
        let before = lemma_outcome_tracks(dn, cn, impulse, budget, filtered, n - 1);
        let weight = budget.mix_weight();
        lemma_rectified(dn, cn, weight);
        lemma_ranking(rectified(dn, cn, weight), 32);
        lemma_stage_tracks(v, budget, n - 1, pair_count(budget));
        let best = search_outcome(v, budget, filtered, n - 1);
        let st = after_pairs(v, budget, n - 1, pair_count(budget));
        let sq = mult(st.correlation, st.correlation);
        if l_msu(l_mult(best.1, sq), best.0, st.energy).0 > 0 {
            reveal(chosen_track);
            n - 1
        } else {
            before
        }
    }
}

/// The searched pulses survive transmission: their packed indices decode, at
/// the same budget, into the codeword up to its amplitude.
pub proof fn law_searched_pulses_decode(
    budget: PulseBudget,
    it: int,
    sign: Seq<Word16>,
    amplitude: Word16,
    chosen: Seq<int>,
)
    requires
        follows_tracks(budget, it, chosen),
        0 < amplitude.0 <= 512,
    ensures
        ({
            let slots = filled_slots(sign, chosen, budget.pulses() as int);
            let code = pulse_code(sign, amplitude, chosen, budget.pulses() as int);
            let decoded = four_track_code(packed_indices(budget, slots), budget.bits() as int);
            &&& slots_filled(budget, slots)
            &&& forall|t: int| 0 <= t < 4 ==> signs_agree(#[trigger] slots_on(budget, slots, t))
            &&& decodable(8, budget.bits() as int)
            &&& forall|i: int|
                0 <= i < 64 ==> #[trigger] decoded[i] * amplitude.0 == 512 * code[i].0
        }),
{
    let n = budget.pulses() as int;
    let slots = filled_slots(sign, chosen, n);
    let amp = amplitude.0 as int;
    lemma_slots_valid(budget, it, sign, chosen);
    law_packed_indices_decode(budget, slots);
    lemma_pulse_code(sign, amplitude, chosen, n);
    let decoded = four_track_code(packed_indices(budget, slots), budget.bits() as int);
    let code = pulse_code(sign, amplitude, chosen, n);
    assert forall|i: int| 0 <= i < 64 implies #[trigger] decoded[i] * amp == 512 * code[i].0 by {
        lemma_slots_code(budget, it, sign, chosen, i);
        let c = signed_count(sign, chosen, i, n);
        assert((512 * c) * amp == 512 * (amp * c)) by (nonlinear_arith);
    }
}

// ---------------------------------------------------------------------------
// The search
// ---------------------------------------------------------------------------

/// One subframe's algebraic excitation, as chosen by the four-track search.
#[derive(Clone, Debug, PartialEq, Eq)]
pub struct Innovation {
    /// Algebraic excitation. Nominally Q9 with pulses of ±512, but scaled down
    /// by `2^-impulse_shift`: the gain quantiser absorbs the difference.
    pub code: [Word16; L_SUBFR],
    /// Packed per-track indices; only the first
    /// [`PulseBudget::index_count`] entries are meaningful.
    pub indices: [u16; 8],
    /// Chosen pulse positions as sample indices, in the order the search
    /// produced them. Two pulses may share a sample.
    pub pulses: [i16; MAX_PULSES],
    /// Per-track pulse slots, six per track: `position + 16` when the pulse is
    /// negative, plain `position` when positive, `-1` for an unused slot. This
    /// is what the packers consume.
    pub slots: [i16; MAX_PULSES],
    /// Right shift applied to the impulse response before the search, 0, 1 or 2.
    pub impulse_shift: i16,
}

/// How far the impulse response is scaled down: by two bits where its energy
/// is very large, by one where many pulses meet a large one.
pub open spec fn impulse_scaling(impulse: Seq<Word16>, budget: PulseBudget) -> i16 {
    let energy = extract_h(mac_run(Word32(0), impulse, 0, impulse, 0, 64));
    if energy.0 > 0x6000 {
        2
    } else if budget.pulses() >= 12 && energy.0 > 1024 {
        1
    } else {
        0
    }
}

/// The scaled impulse response.
pub open spec fn scaled_impulse(impulse: Seq<Word16>, budget: PulseBudget) -> Seq<Word16> {
    Seq::new(64, |i: int| shr(impulse[i], impulse_scaling(impulse, budget)))
}

/// A filtered codeword brought from Q12 to Q9.
pub open spec fn q9_response(x: Seq<Word16>) -> Seq<Word16> {
    Seq::new(64, |i: int| shr_r(x[i], 3))
}

/// What the search reads, from the subframe's signals.
pub open spec fn search_view(
    dn: Seq<Word16>,
    cn: Seq<Word16>,
    impulse: Seq<Word16>,
    budget: PulseBudget,
) -> SearchView {
    let weight = budget.mix_weight();
    let ranked = ranking(rectified(dn, cn, weight), 32);
    SearchView {
        dn: signed_correlation(dn, cn, weight),
        sign: signs(dn, cn, weight),
        h: scaled_impulse(impulse, budget),
        ranks: ranked.0,
        peak: ranked.2,
    }
}

/// The amplitude of a pulse shrinks with the impulse response.
pub proof fn lemma_amplitude(impulse: Seq<Word16>, budget: PulseBudget)
    ensures
        ({
            let shift = impulse_scaling(impulse, budget);
            let amplitude = shr(Word16(512), shift);
            &&& 0 <= shift <= 2
            &&& 0 < amplitude.0 <= 512
            &&& amplitude.0 * pow2(shift as nat) == 512
        }),
{
    let shift = impulse_scaling(impulse, budget);
    reveal(crate::fixed_point::spec_shr);
    lemma2_to64();
    if shift == 0 {
        assert(shr(Word16(512), shift).0 == 512int / 1);
    } else if shift == 1 {
        assert(shr(Word16(512), shift).0 == 512int / 2);
    } else {
        assert(shr(Word16(512), shift).0 == 512int / 4);
    }
}

/// How many indices a budget sends.
pub open spec fn sent_count(budget: PulseBudget) -> int {
    if budget.bits() <= 52 {
        4
    } else {
        8
    }
}

/// What holds of every codeword and its indices: the sent indices decode, at
/// the same budget, into the codeword brought back up by the impulse shift,
/// the rest are zero, and each sample is as large as the pulses on it.
pub open spec fn survives(
    budget: PulseBudget,
    shift: i16,
    chosen: Seq<int>,
    code: Seq<Word16>,
    indices: Seq<u16>,
) -> bool {
    let n = sent_count(budget);
    let bits = budget.bits() as int;
    let amplitude = shr(Word16(512), shift).0 as int;
    &&& 0 <= shift <= 2
    &&& amplitude * pow2(shift as nat) == 512
    &&& code.len() == 64
    &&& indices.len() == 8
    &&& decodable(n, bits)
    &&& forall|i: int|
        0 <= i < 64 ==> four_track_code(indices.take(n), bits)[i] == #[trigger] code[i].0 * pow2(
            shift as nat,
        )
    &&& forall|k: int| n <= k < 8 ==> #[trigger] indices[k] == 0
    &&& forall|i: int|
        0 <= i < 64 ==> (#[trigger] code[i].0 == amplitude * count_at(
            chosen,
            i,
            budget.pulses() as int,
        ) || code[i].0 == -(amplitude * count_at(chosen, i, budget.pulses() as int)))
}

/// Whatever is searched, the codeword survives transmission, and the search
/// leaves each target correlation or its negation.
pub proof fn law_search_survives_transmission(
    dn: Seq<Word16>,
    cn: Seq<Word16>,
    impulse: Seq<Word16>,
    filtered: Seq<Word16>,
    budget: PulseBudget,
    rounds: int,
)
    requires
        0 <= rounds <= 4,
    ensures
        ({
            let v = search_view(dn, cn, impulse, budget);
            let n = budget.pulses() as int;
            let chosen = search_outcome(v, budget, filtered, rounds).2;
            let shift = impulse_scaling(impulse, budget);
            let code = pulse_code(v.sign, shr(Word16(512), shift), chosen, n);
            let indices = packed_indices(budget, filled_slots(v.sign, chosen, n));
            &&& survives(budget, shift, chosen, code, indices)
            &&& forall|i: int|
                0 <= i < 64 ==> (#[trigger] v.dn[i] == dn[i] || v.dn[i] == negate(
                    dn[i],
                ))
        }),
{
    let v = search_view(dn, cn, impulse, budget);
    let n = budget.pulses() as int;
    let chosen = search_outcome(v, budget, filtered, rounds).2;
    let it = lemma_outcome_tracks(dn, cn, impulse, budget, filtered, rounds);
    let shift = impulse_scaling(impulse, budget);
    let amplitude = shr(Word16(512), shift);
    lemma_amplitude(impulse, budget);
    law_searched_pulses_decode(budget, it, v.sign, amplitude, chosen);
    lemma_pulse_code(v.sign, amplitude, chosen, n);
    let code = pulse_code(v.sign, amplitude, chosen, n);
    let indices = packed_indices(budget, filled_slots(v.sign, chosen, n));
    let bits = budget.bits() as int;
    lemma_code_reads_a_prefix(indices, sent_count(budget), bits);
    let decoded = four_track_code(indices, bits);
    let amp = amplitude.0 as int;
    let p = pow2(shift as nat) as int;
    assert forall|i: int| 0 <= i < 64 implies four_track_code(
        indices.take(sent_count(budget)),
        bits,
    )[i] == #[trigger] code[i].0 * pow2(shift as nat) by {
        let d = decoded[i] as int;
        let c = code[i].0 as int;
        assert(decoded[i] * amplitude.0 == 512 * code[i].0);
        assert(d == c * p) by (nonlinear_arith)
            requires
                d * amp == 512 * c,
                amp * p == 512,
                0 < amp,
        ;
    }
    assert forall|i: int| 0 <= i < 64 implies (#[trigger] code[i].0 == amp * count_at(chosen, i, n)
        || code[i].0 == -(amp * count_at(chosen, i, n))) by {
        let c = count_at(chosen, i, n);
        assert(amp * (-c) == -(amp * c)) by (nonlinear_arith);
        assert(pulse_code(v.sign, amplitude, chosen, n)[i].0 == amp * signed_count(
            v.sign,
            chosen,
            i,
            n,
        ));
    }
}

/// The magnitude of the mix is not negative.
proof fn lemma_rectified(dn: Seq<Word16>, cn: Seq<Word16>, weight: Word16)
    ensures
        forall|i: int| 0 <= i < 64 ==> #[trigger] rectified(dn, cn, weight)[i].0 >= 0,
{
    reveal(crate::fixed_point::spec_negate);
}

/// Build the tables of one subframe's search.
fn search_tables(
    dn: &mut [Word16; L_SUBFR],
    cn: &[Word16; L_SUBFR],
    impulse: &[Word16; L_SUBFR],
    budget: PulseBudget,
) -> (t: SearchTables)
    ensures
        t.wf(),
        t.view() == search_view(old(dn)@, cn@, impulse@, budget),
        final(dn)@ == t.view().dn,
        t.sign@ == t.view().sign,
{
    let ghost dn0 = dn@;
    let (sign, mixed) = decide_signs(dn, cn, budget.mix_weight());
    proof {
        lemma_rectified(dn0, cn@, budget.mix_weight());
    }
    let (ranks, peak) = rank_positions(&mixed);
    let shift: i16 = impulse_shift(impulse, budget);
    let mut h: [Word16; L_SUBFR] = [Word16(0); L_SUBFR];
    for i in 0..L_SUBFR
        invariant
            shift == impulse_scaling(impulse@, budget),
            forall|j: int| 0 <= j < i ==> #[trigger] h@[j] == shr(impulse@[j], shift),
    {
        h[i] = shr(impulse[i], shift);
    }
    assert(h@ =~= scaled_impulse(impulse@, budget));
    proof {
        lemma_ranking(mixed@, 32);
    }
    let t = SearchTables::new(*dn, sign, h, ranks, peak);
    proof {
        assert(t.view().peak =~= ranking(mixed@, 32).2);
    }
    t
}

/// How far the impulse response must be scaled down.
fn impulse_shift(impulse: &[Word16; L_SUBFR], budget: PulseBudget) -> (shift: i16)
    ensures
        shift == impulse_scaling(impulse@, budget),
        0 <= shift <= 2,
{
    let energy = extract_h(accumulate(Word32(0), impulse, 0, impulse, 0, L_SUBFR));
    if energy.0 > 0x6000 {
        2
    } else if budget.pulses() >= 12 && energy.0 > 1024 {
        1
    } else {
        0
    }
}

/// Put the chosen pulses into the codeword and the slots of their tracks.
fn place_pulses(
    budget: PulseBudget,
    sign: &[Word16; L_SUBFR],
    amplitude: Word16,
    chosen: &[i16; MAX_PULSES],
    Ghost(it): Ghost<int>,
) -> (r: ([Word16; L_SUBFR], [i16; MAX_PULSES]))
    requires
        follows_tracks(budget, it, positions_of(chosen@, budget.pulses() as int)),
    ensures
        ({
            let positions = positions_of(chosen@, budget.pulses() as int);
            let n = budget.pulses() as int;
            &&& r.0@ == pulse_code(sign@, amplitude, positions, n)
            &&& r.1@ == filled_slots(sign@, positions, n)
            &&& slots_filled(budget, r.1@)
        }),
{
    let ghost positions = positions_of(chosen@, budget.pulses() as int);
    let mut code: [Word16; L_SUBFR] = [Word16(0); L_SUBFR];
    let mut slots: [i16; MAX_PULSES] = [-1; MAX_PULSES];
    assert(code@ =~= pulse_code(sign@, amplitude, positions, 0));
    assert(slots@ =~= filled_slots(sign@, positions, 0));
    let count: usize = budget.pulses();
    for k in 0..count
        invariant
            count == budget.pulses(),
            count <= 24,
            positions == positions_of(chosen@, budget.pulses() as int),
            follows_tracks(budget, it, positions),
            code@ == pulse_code(sign@, amplitude, positions, k as int),
            slots@ == filled_slots(sign@, positions, k as int),
    {
        assert(positions[k as int] == chosen@[k as int]);
        let i: usize = chosen[k] as usize;
        let track: usize = i % 4;
        let mut index: i16 = (i / 4) as i16;
        if sign[i].0 > 0 {
            code[i] = add_s(code[i], amplitude);
        } else {
            code[i] = sub_s(code[i], amplitude);
            index = index + 16;
        }
        proof {
            lemma_slots_taken(budget, it, sign@, positions, k as int);
            lemma_on_track_grows(positions, track as int, k as int, k as int);
        }
        let ghost free = on_track(positions, track as int, k as int);
        let mut slot: usize = 0;
        while slots[6 * track + slot] >= 0
            invariant
                track < 4,
                slot <= free < 6,
                forall|x: int|
                    0 <= x < 6 ==> if x < free {
                        #[trigger] slots@[6 * track + x] >= 0
                    } else {
                        slots@[6 * track + x] == -1
                    },
            ensures
                slot == free,
            decreases free - slot,
        {
            slot = slot + 1;
        }
        slots[6 * track + slot] = index;
    }
    proof {
        lemma_slots_taken(budget, it, sign@, positions, count as int);
        assert forall|t: int, x: int| 0 <= t < 4 && 0 <= x < budget.pulses_on(t) implies 0
            <= #[trigger] slots@[6 * t + x] < 32 by {
            lemma_track_counts(budget, it, positions, t);
        }
    }
    (code, slots)
}

/// Search the four-track algebraic codebook at any of its seven pulse budgets.
///
/// `dn` is the target correlation from
/// [`correlate_target`](crate::enc::codebook::correlate_target) and is
/// **modified in place** by the sign decision. `cn` is the LTP residual,
/// `impulse` the Q12 weighted synthesis impulse response, and `frame_bits` the
/// mode's frame size, which only matters at 88 bits, where it chooses one
/// iteration or two.
///
/// `filtered` is only overwritten when some iteration is accepted. If none is,
/// the caller's incoming vector survives, is rescaled by the final shift, and
/// is what the gain quantiser sees.
#[must_use]
pub fn search_multi_pulse(
    _ctx: &mut DspContext,
    dn: &mut [Word16; L_SUBFR],
    cn: &[Word16; L_SUBFR],
    impulse: &[Word16; L_SUBFR],
    filtered: &mut [Word16; L_SUBFR],
    budget: PulseBudget,
    frame_bits: usize,
) -> (r: Innovation)
    ensures
        ({
            let v = search_view(old(dn)@, cn@, impulse@, budget);
            let n = budget.pulses() as int;
            let best = search_outcome(
                v,
                budget,
                old(filtered)@,
                budget.iterations(frame_bits) as int,
            );
            let amplitude = shr(Word16(512), r.impulse_shift);
            &&& final(dn)@ == v.dn
            &&& final(filtered)@ == q9_response(best.3)
            &&& r.impulse_shift == impulse_scaling(impulse@, budget)
            &&& positions_of(r.pulses@, n) == best.2
            &&& forall|k: int| n <= k < 24 ==> #[trigger] r.pulses@[k] == 0
            &&& r.code@ == pulse_code(v.sign, amplitude, best.2, n)
            &&& r.slots@ == filled_slots(v.sign, best.2, n)
            &&& r.indices@ == packed_indices(budget, r.slots@)
            &&& exists|it: int| #[trigger] follows_tracks(budget, it, best.2)
            &&& survives(budget, r.impulse_shift, best.2, r.code@, r.indices@)
        }),
        forall|i: int|
            0 <= i < 64 ==> (#[trigger] final(dn)@[i] == old(dn)@[i] || final(dn)@[i]
                == negate(old(dn)@[i])),
{
    let ghost v = search_view(dn@, cn@, impulse@, budget);
    let ghost filtered0 = filtered@;
    let ghost dn0 = dn@;
    let tables = search_tables(dn, cn, impulse, budget);
    let count: usize = budget.pulses();
    let mut chosen: [i16; MAX_PULSES] = [0; MAX_PULSES];
    for k in 0..count
        invariant
            count <= 24,
            forall|j: int| 0 <= j < k ==> #[trigger] chosen@[j] == j,
            forall|j: int| k <= j < 24 ==> #[trigger] chosen@[j] == 0,
    {
        chosen[k] = k as i16;
    }
    let mut best_sq = Word16(-1);
    let mut best_energy = Word16(1);
    let mut response: [Word16; L_SUBFR] = *filtered;
    let ghost mut it: int = -1;
    let rounds: usize = budget.iterations(frame_bits);
    proof {
        let first = positions_of(chosen@, count as int);
        assert(first =~= search_outcome(v, budget, filtered0, 0).2);
        assert forall|k: int| 0 <= k < first.len() implies 0 <= #[trigger] first[k] < 64 && first[k]
            % 4 == chosen_track(budget, -1, k) by {
            reveal(chosen_track);
            assert(first[k] == k);
        }
    }
    for n in 0..rounds
        invariant
            rounds <= 4,
            count == budget.pulses(),
            count <= 24,
            tables.wf(),
            tables.view() == v,
            (
                best_sq,
                best_energy,
                positions_of(chosen@, count as int),
                response@,
            ) == search_outcome(v, budget, filtered0, n as int),
            forall|j: int| count <= j < 24 ==> #[trigger] chosen@[j] == 0,
            follows_tracks(budget, it, positions_of(chosen@, count as int)),
    {
        let st = run_iteration(&tables, budget, n);
        let sq = mult(st.correlation, st.correlation);
        if l_msu(l_mult(best_energy, sq), best_sq, st.energy).0 > 0 {
            best_sq = sq;
            best_energy = st.energy;
            for k in 0..count
                invariant
                    count <= 24,
                    forall|j: int| 0 <= j < k ==> #[trigger] chosen@[j] == st.placed@[j],
                    forall|j: int| count <= j < 24 ==> #[trigger] chosen@[j] == 0,
            {
                chosen[k] = st.placed[k];
            }
            response = st.excitation;
            proof {
                it = n as int;
                let now = positions_of(chosen@, count as int);
                assert(now =~= st.view().placed);
                assert forall|k: int| 0 <= k < now.len() implies 0 <= #[trigger] now[k] < 64
                    && now[k] % 4 == chosen_track(budget, it, k) by {
                    reveal(chosen_track);
                    assert(now[k] == st.placed@[k]);
                }
            }
        }
    }
    for i in 0..L_SUBFR
        invariant
            forall|j: int| 0 <= j < i ==> #[trigger] filtered@[j] == shr_r(response@[j], 3),
    {
        filtered[i] = shr_r(response[i], 3);
    }
    let shift: i16 = impulse_shift(impulse, budget);
    let amplitude = shr(Word16(512), shift);
    let (code, slots) = place_pulses(budget, &tables.sign, amplitude, &chosen, Ghost(it));
    let indices = pack_indices(budget, &slots);
    assert(filtered@ =~= q9_response(response@));
    let r = Innovation { code, indices, pulses: chosen, slots, impulse_shift: shift };
    proof {
        let best = search_outcome(v, budget, filtered0, rounds as int);
        assert(best.3 == response@);
        assert(best.2 == positions_of(r.pulses@, count as int));
        assert(follows_tracks(budget, it, best.2));
        assert(dn@ == v.dn);
        assert(filtered@ == q9_response(best.3));
        assert(r.code@ == pulse_code(v.sign, amplitude, best.2, count as int));
        assert(r.slots@ == filled_slots(v.sign, best.2, count as int));
        assert(r.indices@ == packed_indices(budget, r.slots@));
        law_search_survives_transmission(dn0, cn@, impulse@, filtered0, budget, rounds as int);
    }
    r
}

// ---------------------------------------------------------------------------
// What the search is for
// ---------------------------------------------------------------------------

/// The score of candidate `j` of the 16 by 16 pairs of two tracks.
pub open spec fn candidate(v: SearchView, st: StageView, tx: int, ty: int, j: int) -> (
    Word16,
    Word16,
) {
    pair_score(v, st, tx + 4 * (j / 16), ty + 4 * (j % 16))
}

/// A candidate's squared correlation is not negative.
proof fn lemma_candidate_square(v: SearchView, st: StageView, x: int, y: int)
    ensures
        pair_score(v, st, x, y).0.0 >= 0,
{
    reveal(pair_score);
    lemma_square_word(add_s(add_s(st.correlation, v.dn[x]), v.dn[y]));
}

/// A stage places the pair that matches best: among the pairs it tries none has
/// a larger ratio of squared correlation to energy.
pub proof fn law_stage_places_the_best_pair(
    v: SearchView,
    st: StageView,
    tx: int,
    ty: int,
    width: i16,
    k: int,
    c: int,
)
    requires
        k <= 256,
        forall|j: int| 0 <= j < k ==> (#[trigger] candidate(v, st, tx, ty, j)).1.0 > 0,
    ensures
        ({
            let best = pair_pick(v, st, tx, ty, width, k);
            let score = candidate(v, st, tx, ty, c);
            &&& best.0.0 >= -1
            &&& best.1.0 > 0
            &&& 0 <= c < k && v.ranks[tx + 4 * (c / 16)].0 < width - 8 ==> best.0.0 * score.1.0
                >= score.0.0 * best.1.0
        }),
    decreases k,
{
    if k > 0 {
        let other = if c < k - 1 {
            c
        } else {
            -1
        };
        law_stage_places_the_best_pair(v, st, tx, ty, width, k - 1, other);
        let x = tx + 4 * ((k - 1) / 16);
        let y = ty + 4 * ((k - 1) % 16);
        let score = candidate(v, st, tx, ty, k - 1);
        let before = pair_pick(v, st, tx, ty, width, k - 1);
        let best = pair_pick(v, st, tx, ty, width, k);
        lemma_candidate_square(v, st, x, y);
        lemma_ratio_test((before.0, before.1), score);
        if v.ranks[x].0 < width - 8 && score.0.0 * before.1.0 > before.0.0 * score.1.0 {
            assert(best.0 == score.0 && best.1 == score.1);
            if 0 <= c < k - 1 && v.ranks[tx + 4 * (c / 16)].0 < width - 8 {
                let old = candidate(v, st, tx, ty, c);
                lemma_ratio_chain(
                    before.0.0 as int,
                    before.1.0 as int,
                    old.0.0 as int,
                    old.1.0 as int,
                    score.0.0 as int,
                    score.1.0 as int,
                );
            }
        } else {
            assert(best == before);
        }
        if c == k - 1 {
            assert(best.0 == score.0 && best.1 == score.1 ==> best.0.0 * score.1.0 >= score.0.0
                * best.1.0) by (nonlinear_arith);
        }
    }
}

/// The search keeps the iteration that matches best, and the earliest of equal
/// ones: none has a larger ratio of squared correlation to energy.
pub proof fn law_search_keeps_the_best_iteration(
    v: SearchView,
    budget: PulseBudget,
    filtered: Seq<Word16>,
    n: int,
    it: int,
)
    requires
        n <= 4,
        forall|j: int|
            0 <= j < n ==> (#[trigger] after_pairs(v, budget, j, pair_count(budget))).energy.0 > 0,
    ensures
        ({
            let best = search_outcome(v, budget, filtered, n);
            let st = after_pairs(v, budget, it, pair_count(budget));
            let square = mult(st.correlation, st.correlation);
            &&& best.0.0 >= -1
            &&& best.1.0 > 0
            &&& 0 <= it < n ==> best.0.0 * st.energy.0 >= square.0 * best.1.0
            &&& n == 1 ==> best.2 == after_pairs(v, budget, 0, pair_count(budget)).placed && best.3
                == after_pairs(v, budget, 0, pair_count(budget)).excitation
        }),
    decreases n,
{
    if n > 0 {
        let other = if it < n - 1 {
            it
        } else {
            -1
        };
        law_search_keeps_the_best_iteration(v, budget, filtered, n - 1, other);
        let now = after_pairs(v, budget, n - 1, pair_count(budget));
        let square = mult(now.correlation, now.correlation);
        let before = search_outcome(v, budget, filtered, n - 1);
        let best = search_outcome(v, budget, filtered, n);
        lemma_square_word(now.correlation);
        lemma_ratio_test((before.0, before.1), (square, now.energy));
        if square.0 * before.1.0 > before.0.0 * now.energy.0 {
            assert(best.0 == square && best.1 == now.energy);
            if 0 <= it < n - 1 {
                let st = after_pairs(v, budget, it, pair_count(budget));
                let old = mult(st.correlation, st.correlation);
                lemma_ratio_chain(
                    before.0.0 as int,
                    before.1.0 as int,
                    old.0 as int,
                    st.energy.0 as int,
                    square.0 as int,
                    now.energy.0 as int,
                );
            }
        } else {
            assert(best == before);
        }
        if it == n - 1 {
            assert(best.0 == square && best.1 == now.energy ==> best.0.0 * now.energy.0 >= square.0
                * best.1.0) by (nonlinear_arith);
        }
        if n == 1 {
            assert(before.0 == Word16(-1i16) && before.1 == Word16(1));
            assert(square.0 * 1 > -1 * now.energy.0);
        }
    }
}

/// What a pair is scored by: the square of the correlation that all pulses
/// gather, and the energy of them all, in which the two new pulses' own terms
/// count an eighth each and their cross term a quarter.
pub proof fn law_pairs_are_scored_together(v: SearchView, st: StageView, x: int, y: int)
    requires
        -32768 <= st.correlation.0 + v.dn[x].0 <= 32767,
        -32767 <= st.correlation.0 + v.dn[x].0 + v.dn[y].0 <= 32767,
        0 <= st.energy.0 < 16384,
    ensures
        ({
            let gathered = st.correlation.0 + v.dn[x].0 + v.dn[y].0;
            let own = energy_gain(v, st.excitation, x).0 + energy_gain(v, st.excitation, y).0;
            let cross = signed_cross(v.h, v.sign, x, y).0;
            let score = pair_score(v, st, x, y);
            &&& score.0.0 == (gathered * gathered) / 32768
            &&& score.1.0 == (65536 * st.energy.0 + 32768 + 8192 * own + 16384 * cross) / 65536
        }),
{
    reveal(pair_score);
    reveal(crate::fixed_point::spec_add_s);
    reveal(crate::fixed_point::spec_mult);
    reveal(crate::fixed_point::spec_extract_h);
    reveal(crate::fixed_point::spec_l_deposit_h);
    reveal(crate::fixed_point::spec_l_add);
    let g = st.correlation.0 + v.dn[x].0 + v.dn[y].0;
    assert(0 <= g * g <= 32767 * 32767) by (nonlinear_arith)
        requires
            -32767 <= g <= 32767,
    ;
    let base = l_add(l_deposit_h(st.energy), Word32(0x8000));
    let gx = energy_gain(v, st.excitation, x);
    let gy = energy_gain(v, st.excitation, y);
    let cross = signed_cross(v.h, v.sign, x, y);
    lemma_l_mac(base, gx, Word16(4096));
    let with_x = l_mac(base, gx, Word16(4096));
    lemma_l_mac(with_x, gy, Word16(4096));
    let with_y = l_mac(with_x, gy, Word16(4096));
    lemma_l_mac(with_y, cross, Word16(8192));
}

/// Selections on earlier tracks leave a track as it is.
proof fn lemma_track_untouched(mixed: Seq<Word16>, k: int, t: int)
    requires
        mixed.len() == 64,
        0 <= k <= 8 * t,
        t < 4,
        forall|i: int| 0 <= i < 64 ==> #[trigger] mixed[i].0 >= 0,
    ensures
        ranking(mixed, k).0.len() == 64,
        forall|m: int| 0 <= m < 16 ==> ranking(mixed, k).0[t + 4 * m] == #[trigger] mixed[t + 4 * m],
    decreases k,
{
    if k > 0 {
        lemma_track_untouched(mixed, k - 1, t);
        lemma_ranking(mixed, k - 1);
        let (ranks, last, peak) = ranking(mixed, k - 1);
        let u = (k - 1) / 8;
        assert(negatives(ranks, u, 16) == (k - 1) % 8);
        let m = lemma_unselected(ranks, u, 16);
        lemma_best_position(ranks, u, 16, last);
        assert(ranks[u + 4 * m].0 <= best_position(ranks, u, 16, last).0.0);
        let p = best_position(ranks, u, 16, last).1;
        assert(p % 4 == u && u < t);
    }
}

/// The best position is the first of the largest.
proof fn lemma_first_of_the_largest(ranks: Seq<Word16>, t: int, n: int, start: int, m: int)
    requires
        0 <= t < 4,
        0 <= m < n <= 16,
        forall|j: int| 0 <= j < 16 ==> (#[trigger] ranks[t + 4 * j]).0 >= 0,
    ensures
        ({
            let best = best_position(ranks, t, n, start);
            &&& ranks[t + 4 * m].0 <= best.0.0
            &&& t + 4 * m < best.1 ==> ranks[t + 4 * m].0 < best.0.0
            &&& ranks[best.1] == best.0
            &&& t <= best.1 < t + 4 * n
        }),
    decreases n,
{
    let before = best_position(ranks, t, n - 1, start);
    assert(ranks[t + 4 * (n - 1)].0 >= 0);
    if n > 1 {
        lemma_first_of_the_largest(
            ranks,
            t,
            n - 1,
            start,
            if m < n - 1 {
                m
            } else {
                0
            },
        );
    }
}

/// Each track starts from its strongest sample: no other of the track has a
/// larger magnitude of the mix, and none before it as large a one.
pub proof fn law_peaks_are_the_strongest(mixed: Seq<Word16>, k: int, t: int, m: int)
    requires
        mixed.len() == 64,
        0 <= t < 4,
        8 * t < k <= 32,
        0 <= m < 16,
        forall|i: int| 0 <= i < 64 ==> #[trigger] mixed[i].0 >= 0,
    ensures
        ({
            let peak = ranking(mixed, k).2[t];
            &&& peak % 4 == t
            &&& 0 <= peak < 64
            &&& mixed[t + 4 * m].0 <= mixed[peak].0
            &&& t + 4 * m < peak ==> mixed[t + 4 * m].0 < mixed[peak].0
        }),
    decreases k,
{
    lemma_ranking(mixed, k);
    if k == 8 * t + 1 {
        lemma_track_untouched(mixed, 8 * t, t);
        lemma_ranking(mixed, 8 * t);
        let (ranks, last, peak) = ranking(mixed, 8 * t);
        assert forall|j: int| 0 <= j < 16 implies (#[trigger] ranks[t + 4 * j]).0 >= 0 by {
            assert(mixed[t + 4 * j].0 >= 0);
        }
        lemma_first_of_the_largest(ranks, t, 16, last, m);
        let p = best_position(ranks, t, 16, last).1;
        lemma_best_position(ranks, t, 16, last);
        assert(ranking(mixed, k).2[t] == p);
        let j = (p - t) / 4;
        assert(p == t + 4 * j);
        assert(ranks[t + 4 * j] == mixed[t + 4 * j]);
        assert(ranks[t + 4 * m] == mixed[t + 4 * m]);
    } else {
        law_peaks_are_the_strongest(mixed, k - 1, t, m);
        lemma_ranking(mixed, k - 1);
    }
}

/// What a pulse at `p` makes of sample `i`: the impulse response from its place
/// on, with its sign.
pub open spec fn pulse_response(v: SearchView, p: int, i: int) -> int {
    if i < p {
        0
    } else if v.sign[p].0 < 0 {
        -v.h[i - p].0
    } else {
        v.h[i - p].0 as int
    }
}

/// The responses of the first `n` placed pulses at sample `i`, added up.
pub open spec fn summed_response(v: SearchView, placed: Seq<int>, i: int, n: int) -> int
    decreases n,
{
    if n <= 0 {
        0
    } else {
        summed_response(v, placed, i, n - 1) + pulse_response(v, placed[n - 1], i)
    }
}

/// The correlations of the first `n` placed pulses, added up.
pub open spec fn summed_correlation(v: SearchView, placed: Seq<int>, n: int) -> int
    decreases n,
{
    if n <= 0 {
        0
    } else {
        summed_correlation(v, placed, n - 1) + v.dn[placed[n - 1]].0
    }
}

/// Whether the signals leave room for the sum of every pulse.
pub open spec fn leaves_room(v: SearchView) -> bool {
    &&& forall|j: int| 0 <= j < 64 ==> -1000 <= (#[trigger] v.h[j]).0 <= 1000
    &&& forall|j: int| 0 <= j < 64 ==> -1000 <= (#[trigger] v.dn[j]).0 <= 1000
}

proof fn lemma_pulse_response(v: SearchView, p: int, i: int)
    requires
        leaves_room(v),
        0 <= p < 64,
        0 <= i < 64,
    ensures
        tap_at(v.h, v.sign[p], p, i).0 == pulse_response(v, p, i),
        -1000 <= pulse_response(v, p, i) <= 1000,
        -1000 <= v.dn[p].0 <= 1000,
{
    reveal(crate::fixed_point::spec_negate);
    if i >= p {
        assert(-1000 <= v.h[i - p].0 <= 1000);
    }
}

proof fn lemma_sums_of_prefix(v: SearchView, a: Seq<int>, b: Seq<int>, i: int, n: int)
    requires
        0 <= n <= a.len(),
        n <= b.len(),
        forall|k: int| 0 <= k < n ==> #[trigger] a[k] == b[k],
    ensures
        summed_response(v, a, i, n) == summed_response(v, b, i, n),
        summed_correlation(v, a, n) == summed_correlation(v, b, n),
    decreases n,
{
    if n > 0 {
        lemma_sums_of_prefix(v, a, b, i, n - 1);
        assert(a[n - 1] == b[n - 1]);
    }
}

proof fn lemma_sums_bounded(v: SearchView, placed: Seq<int>, i: int, n: int)
    requires
        leaves_room(v),
        0 <= i < 64,
        0 <= n <= placed.len(),
        forall|k: int| 0 <= k < placed.len() ==> 0 <= #[trigger] placed[k] < 64,
    ensures
        -1000 * n <= summed_response(v, placed, i, n) <= 1000 * n,
        -1000 * n <= summed_correlation(v, placed, n) <= 1000 * n,
    decreases n,
{
    if n > 0 {
        lemma_sums_bounded(v, placed, i, n - 1);
        assert(0 <= placed[n - 1] < 64);
        lemma_pulse_response(v, placed[n - 1], i);
    }
}

/// Whether a stage holds the sums of its pulses.
pub open spec fn adds_up(v: SearchView, st: StageView, i: int) -> bool {
    let n = st.placed.len() as int;
    &&& st.excitation[i].0 == summed_response(v, st.placed, i, n)
    &&& st.correlation.0 == summed_correlation(v, st.placed, n)
}

proof fn lemma_pair_adds_up(
    v: SearchView,
    st: StageView,
    tx: int,
    ty: int,
    width: i16,
    i: int,
)
    requires
        leaves_room(v),
        0 <= i < 64,
        0 <= tx < 4,
        0 <= ty < 4,
        st.placed.len() <= 24,
        forall|k: int| 0 <= k < st.placed.len() ==> 0 <= #[trigger] st.placed[k] < 64,
        adds_up(v, st, i),
    ensures
        adds_up(v, place_pair(v, st, tx, ty, width), i),
{
    reveal(place_pair);
    reveal(crate::fixed_point::spec_add_s);
    lemma_pair_tracks(v, st, tx, ty, width, 256);
    let next = place_pair(v, st, tx, ty, width);
    let n = st.placed.len() as int;
    let best = pair_pick(v, st, tx, ty, width, 256);
    let x = best.2;
    let y = best.3;
    lemma_pulse_response(v, x, i);
    lemma_pulse_response(v, y, i);
    lemma_sums_bounded(v, st.placed, i, n);
    lemma_sums_of_prefix(v, st.placed, next.placed, i, n);
    assert(next.placed[n] == x && next.placed[n + 1] == y);
    assert(summed_response(v, next.placed, i, n + 1) == summed_response(v, next.placed, i, n)
        + pulse_response(v, x, i));
    assert(summed_correlation(v, next.placed, n + 1) == summed_correlation(v, next.placed, n)
        + v.dn[x].0);
}

proof fn lemma_first_adds_up(v: SearchView, budget: PulseBudget, it: int, i: int)
    requires
        leaves_room(v),
        0 <= it < 4,
        0 <= i < 64,
        v.peak.len() == 4,
        forall|t: int| 0 <= t < 4 ==> 0 <= #[trigger] v.peak[t] < 64 && v.peak[t] % 4 == t,
    ensures
        adds_up(v, first_stage(v, budget, it), i),
{
    reveal(first_stage);
    reveal(crate::fixed_point::spec_add_s);
    let st = first_stage(v, budget, it);
    let t0 = track_of(budget, it, 0);
    let t1 = track_of(budget, it, 1);
    let t2 = track_of(budget, it, 2);
    let t3 = track_of(budget, it, 3);
    assert(0 <= t0 < 4 && 0 <= t1 < 4 && 0 <= t2 < 4 && 0 <= t3 < 4);
    let (a, b, c, d) = (v.peak[t0], v.peak[t1], v.peak[t2], v.peak[t3]);
    lemma_pulse_response(v, a, i);
    lemma_pulse_response(v, b, i);
    lemma_pulse_response(v, c, i);
    lemma_pulse_response(v, d, i);
    let s = st.placed;
    assert(summed_response(v, s, i, 0) == 0 && summed_correlation(v, s, 0) == 0);
    if s.len() >= 2 {
        assert(summed_response(v, s, i, 1) == pulse_response(v, a, i));
        assert(summed_response(v, s, i, 2) == pulse_response(v, a, i) + pulse_response(v, b, i));
        assert(summed_correlation(v, s, 1) == v.dn[a].0);
        assert(summed_correlation(v, s, 2) == v.dn[a].0 + v.dn[b].0);
    }
    if s.len() >= 4 {
        assert(summed_response(v, s, i, 3) == summed_response(v, s, i, 2) + pulse_response(v, c, i));
        assert(summed_correlation(v, s, 3) == summed_correlation(v, s, 2) + v.dn[c].0);
    }
}

/// At every stage the filtered codeword is the sum of the responses of the
/// pulses placed so far, and the correlation the sum of theirs, on signals
/// small enough to leave room for all of them.
pub proof fn law_pulses_add_up(v: SearchView, budget: PulseBudget, it: int, m: int, i: int)
    requires
        leaves_room(v),
        0 <= it < 4,
        0 <= m <= pair_count(budget),
        0 <= i < 64,
        v.peak.len() == 4,
        forall|t: int| 0 <= t < 4 ==> 0 <= #[trigger] v.peak[t] < 64 && v.peak[t] % 4 == t,
    ensures
        ({
            let st = after_pairs(v, budget, it, m);
            let n = st.placed.len() as int;
            &&& st.excitation[i].0 == summed_response(v, st.placed, i, n)
            &&& st.correlation.0 == summed_correlation(v, st.placed, n)
        }),
    decreases m,
{
    if m > 0 {
        law_pulses_add_up(v, budget, it, m - 1, i);
        lemma_stage_tracks(v, budget, it, m - 1);
        let j = budget.first_stage_pulses() + 2 * (m - 1);
        lemma_pair_adds_up(
            v,
            after_pairs(v, budget, it, m - 1),
            track_of(budget, it, j),
            track_of(budget, it, j + 1),
            budget.stage_width((m - 1) as usize),
            i,
        );
    } else {
        lemma_first_adds_up(v, budget, it, i);
    }
}

} // verus!
