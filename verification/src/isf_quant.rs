//! The speech spectrum quantiser: a predicted, two-stage split codebook at 36
//! or 46 bits, and its decoder with the concealment of a lost spectrum.

use vstd::prelude::*;
use crate::dtx::ISF_INIT;
use crate::fixed_point::{
    add_s, l_add, l_mac, l_mult, lemma_l_mac, lemma_round, mult, round, shr, sub_s, Word16, Word32,
};
use crate::isf_noise::{spaced_at, spacing_floor, ISF_GAP, LP_ORDER};
use crate::vq::{distance_to, lemma_entry, nearest, search, split_distance};

verus! {

/// How much of the previous residual is predicted, 1/3 in Q15.
pub const MU: i16 = 10923;

/// Weight of the previous spectrum in a concealed one, 0.9 in Q15.
pub const ALPHA: i16 = 29491;

/// Weight of the long-term mean in a concealed spectrum, 0.1 in Q15.
pub const ONE_ALPHA: i16 = 3277;

/// Survivors of the first stage.
pub const SURVIVORS: usize = 4;

/// Which quantiser a frame's rate can afford.
#[derive(Debug, Clone, Copy, PartialEq, Eq, Structural)]
pub enum IsfQuantizer {
    /// Five indices, 36 bits.
    Bits36,
    /// Seven indices, 46 bits.
    Bits46,
}

/// The codebooks of both quantisers and the mean that they are taken around.
pub struct IsfCodebooks {
    /// The mean spectrum.
    pub mean: [i16; LP_ORDER],
    /// First stage, 256 vectors of the first nine coefficients.
    pub first_low: [i16; 2304],
    /// First stage, 256 vectors of the last seven.
    pub first_high: [i16; 1792],
    /// Second stage at 46 bits: 64 of three, 128 of three, 128 of three, 32 of
    /// three, 32 of four.
    pub wide0: [i16; 192],
    pub wide1: [i16; 384],
    pub wide2: [i16; 384],
    pub wide3: [i16; 96],
    pub wide4: [i16; 128],
    /// Second stage at 36 bits: 128 of five, 128 of four, 64 of seven.
    pub narrow0: [i16; 640],
    pub narrow1: [i16; 512],
    pub narrow2: [i16; 448],
}

// ---------------------------------------------------------------------------
// Search
// ---------------------------------------------------------------------------

/// One codebook of a second stage.
pub struct Split<'a> {
    pub book: &'a [i16],
    pub size: usize,
    pub count: usize,
}

/// A second-stage codebook as plain values.
pub struct SplitView {
    pub book: Seq<i16>,
    pub size: int,
    pub count: int,
}

/// A list of second-stage codebooks as plain values.
pub open spec fn views(splits: Seq<Split>) -> Seq<SplitView> {
    Seq::new(
        splits.len(),
        |k: int|
            SplitView {
                book: splits[k].book@,
                size: splits[k].size as int,
                count: splits[k].count as int,
            },
    )
}

/// The shape that a list of splits has to have.
pub open spec fn splits_ok(splits: Seq<SplitView>) -> bool {
    &&& 1 <= splits.len() <= 3
    &&& forall|k: int|
        0 <= k < splits.len() ==> {
            let s = #[trigger] splits[k];
            &&& 1 <= s.size <= 9
            &&& 1 <= s.count <= 256
            &&& s.book.len() == s.count * s.size
        }
}

/// The coefficient at which split `k` starts.
pub open spec fn split_at(splits: Seq<SplitView>, k: int) -> int
    decreases k,
{
    if k <= 0 {
        0
    } else {
        split_at(splits, k - 1) + splits[k - 1].size
    }
}

/// The index of split `k` for a residual.
pub open spec fn split_choice(r: Seq<Word16>, splits: Seq<SplitView>, k: int) -> (Word32, int) {
    nearest(
        r,
        split_at(splits, k),
        splits[k].book,
        splits[k].size,
        splits[k].count,
    )
}

/// The summed error of the first `n` splits.
pub open spec fn split_error(r: Seq<Word16>, splits: Seq<SplitView>, n: int) -> Word32
    decreases n,
{
    if n <= 0 {
        Word32(0)
    } else {
        l_add(split_error(r, splits, n - 1), split_choice(r, splits, n - 1).0)
    }
}

/// Where a distance enters a list of four: before the first larger one.
pub open spec fn rank_of(list: Seq<(Word32, int)>, d: Word32, k: int) -> int
    decreases 4 - k,
{
    if k >= 4 || d.0 < list[k].0.0 {
        k
    } else {
        rank_of(list, d, k + 1)
    }
}

/// The list with a vector entered.
pub open spec fn entered(list: Seq<(Word32, int)>, d: Word32, v: int) -> Seq<(Word32, int)> {
    let k = rank_of(list, d, 0);
    Seq::new(
        4,
        |i: int|
            if i < k {
                list[i]
            } else if i == k {
                (d, v)
            } else {
                list[i - 1]
            },
    )
}

/// The four nearest of the first `n` vectors.
pub open spec fn survivors(x: Seq<Word16>, book: Seq<i16>, dim: int, n: int) -> Seq<(Word32, int)>
    decreases n,
{
    if n <= 0 {
        Seq::new(4, |i: int| (Word32(0x7fff_ffff), i))
    } else {
        entered(
            survivors(x, book, dim, n - 1),
            split_distance(x, 0, book, n - 1, dim, dim),
            n - 1,
        )
    }
}

/// What a first-stage vector leaves over.
pub open spec fn leftover(x: Seq<Word16>, book: Seq<i16>, dim: int, v: int) -> Seq<Word16> {
    Seq::new(dim as nat, |i: int| sub_s(x[i], Word16(book[v * dim + i])))
}

/// The survivor whose second stage has the least error among the first `n`;
/// an earlier one wins a tie.
pub open spec fn best_survivor(
    x: Seq<Word16>,
    book: Seq<i16>,
    dim: int,
    splits: Seq<SplitView>,
    n: int,
) -> (Word32, int)
    decreases n,
{
    if n <= 0 {
        (Word32(0x7fff_ffff), 0)
    } else {
        let best = best_survivor(x, book, dim, splits, n - 1);
        let v = survivors(x, book, dim, 256)[n - 1].1;
        let error = split_error(leftover(x, book, dim, v), splits, splits.len() as int);
        if error.0 < best.0.0 {
            (error, v)
        } else {
            best
        }
    }
}

/// The first index of a half.
pub open spec fn half_first(
    x: Seq<Word16>,
    book: Seq<i16>,
    dim: int,
    splits: Seq<SplitView>,
) -> int {
    best_survivor(x, book, dim, splits, 4).1
}

/// Second index `k` of a half.
pub open spec fn half_second(
    x: Seq<Word16>,
    book: Seq<i16>,
    dim: int,
    splits: Seq<SplitView>,
    k: int,
) -> int {
    split_choice(leftover(x, book, dim, half_first(x, book, dim, splits)), splits, k).1
}

/// Rank a distance from the top of a list.
fn rank(distances: &[Word32; SURVIVORS], d: Word32, Ghost(list): Ghost<Seq<(Word32, int)>>) -> (k:
    usize)
    requires
        list.len() == 4,
        forall|i: int| 0 <= i < 4 ==> #[trigger] list[i].0 == distances@[i],
    ensures
        k <= 4,
        k == rank_of(list, d, 0),
{
    let mut k: usize = 0;
    while k < SURVIVORS && d.0 >= distances[k].0
        invariant
            k <= 4,
            list.len() == 4,
            forall|i: int| 0 <= i < 4 ==> #[trigger] list[i].0 == distances@[i],
            rank_of(list, d, 0) == rank_of(list, d, k as int),
        decreases 4 - k,
    {
        assert(list[k as int].0 == distances@[k as int]);
        k += 1;
    }
    if k < SURVIVORS {
        assert(list[k as int].0 == distances@[k as int]);
    }
    k
}

/// The four nearest first-stage vectors.
fn stage_one(x: &[Word16], book: &[i16], dim: usize) -> (index: [usize; SURVIVORS])
    requires
        1 <= dim <= 9,
        x.len() == dim,
        book.len() == 256 * dim,
    ensures
        forall|i: int|
            0 <= i < 4 ==> #[trigger] index@[i] == survivors(x@, book@, dim as int, 256)[i].1,
        forall|i: int| 0 <= i < 4 ==> #[trigger] index@[i] < 256,
{
    let mut distances: [Word32; SURVIVORS] = [Word32(0x7fff_ffff); SURVIVORS];
    let mut index: [usize; SURVIVORS] = [0, 1, 2, 3];
    for v in 0..256usize
        invariant
            1 <= dim <= 9,
            x.len() == dim,
            book.len() == 256 * dim,
            survivors(x@, book@, dim as int, v as int).len() == 4,
            forall|i: int|
                0 <= i < 4 ==> (#[trigger] distances@[i], index@[i] as int) == survivors(
                    x@,
                    book@,
                    dim as int,
                    v as int,
                )[i],
            forall|i: int| 0 <= i < 4 ==> #[trigger] index@[i] < 256,
    {
        let ghost list = survivors(x@, book@, dim as int, v as int);
        let d = distance_to(x, 0, book, v, dim, 256);
        assert forall|i: int| 0 <= i < 4 implies #[trigger] list[i].0 == distances@[i] by {
            assert((distances@[i], index@[i] as int) == list[i]);
        }
        let k: usize = rank(&distances, d, Ghost(list));
        let ghost before = distances@;
        let ghost index_before = index@;
        if k < SURVIVORS {
            let mut l: usize = SURVIVORS - 1;
            while l > k
                invariant
                    k <= l < 4,
                    before.len() == 4,
                    index_before.len() == 4,
                    forall|i: int| 0 <= i <= l ==> #[trigger] distances@[i] == before[i],
                    forall|i: int| 0 <= i <= l ==> #[trigger] index@[i] == index_before[i],
                    forall|i: int| l < i < 4 ==> #[trigger] distances@[i] == before[i - 1],
                    forall|i: int| l < i < 4 ==> #[trigger] index@[i] == index_before[i - 1],
                decreases l,
            {
                distances[l] = distances[l - 1];
                index[l] = index[l - 1];
                l -= 1;
            }
            distances[k] = d;
            index[k] = v;
        }
        assert forall|i: int| 0 <= i < 4 implies (#[trigger] distances@[i], index@[i] as int)
            == entered(list, d, v as int)[i] by {
            assert((before[i], index_before[i] as int) == list[i]);
            if i > 0 {
                assert((before[i - 1], index_before[i - 1] as int) == list[i - 1]);
            }
            assert(index@[i] == if i < k {
                index_before[i]
            } else if i == k {
                v
            } else {
                index_before[i - 1]
            });
        }
    }
    assert forall|i: int| 0 <= i < 4 implies #[trigger] index@[i] == survivors(
        x@,
        book@,
        dim as int,
        256,
    )[i].1 by {
        assert((distances@[i], index@[i] as int) == survivors(x@, book@, dim as int, 256)[i]);
    }
    index
}

/// Splits start where the sizes before them end.
proof fn lemma_split_at(splits: Seq<SplitView>, k: int, n: int)
    requires
        splits_ok(splits),
        0 <= k <= n <= splits.len(),
    ensures
        0 <= split_at(splits, k) <= split_at(splits, n),
        k < n ==> split_at(splits, k) + splits[k].size <= split_at(splits, n),
    decreases n,
{
    if k < n {
        lemma_split_at(splits, k, n - 1);
    } else if k > 0 {
        lemma_split_at(splits, k - 1, k - 1);
    }
}

/// The error of the second stage, and its indices.
fn stage_two(r: &[Word16; 9], dim: usize, splits: &[Split]) -> (out: (Word32, [u16; 3]))
    requires
        splits_ok(views(splits@)),
        1 <= dim <= 9,
        split_at(views(splits@), splits@.len() as int) == dim,
    ensures
        out.0 == split_error(r@.take(dim as int), views(splits@), splits@.len() as int),
        forall|k: int|
            0 <= k < splits@.len() ==> #[trigger] out.1@[k] == split_choice(
                r@.take(dim as int),
                views(splits@),
                k,
            ).1 && out.1@[k] < splits@[k].count,
{
    let n: usize = splits.len();
    let x = vstd::slice::slice_subrange(r, 0, dim);
    assert(x@ =~= r@.take(dim as int));
    let mut total = Word32(0);
    let mut indices: [u16; 3] = [0u16; 3];
    let mut at: usize = 0;
    for k in 0..n
        invariant
            n == splits@.len(),
            splits_ok(views(splits@)),
            1 <= dim <= 9,
            x@ == r@.take(dim as int),
            x.len() == dim,
            split_at(views(splits@), n as int) == dim,
            at == split_at(views(splits@), k as int),
            total == split_error(x@, views(splits@), k as int),
            forall|j: int|
                0 <= j < k ==> #[trigger] indices@[j] == split_choice(x@, views(splits@), j).1
                    && indices@[j] < splits@[j].count,
    {
        proof {
            lemma_split_at(views(splits@), k as int, n as int);
            assert(views(splits@)[k as int].size <= 9);
        }
        let split = &splits[k];
        let (error, index) = search(x, at, split.book, split.size, split.count);
        total = l_add(total, error);
        indices[k] = index;
        at += split.size;
    }
    (total, indices)
}

/// Search one half of a spectrum.
fn half_search(x: &[Word16], book: &[i16], dim: usize, splits: &[Split]) -> (out: (u16, [u16; 3]))
    requires
        1 <= dim <= 9,
        x.len() == dim,
        book.len() == 256 * dim,
        splits_ok(views(splits@)),
        split_at(views(splits@), splits@.len() as int) == dim,
    ensures
        out.0 == half_first(x@, book@, dim as int, views(splits@)),
        out.0 < 256,
        forall|k: int|
            0 <= k < splits@.len() ==> #[trigger] out.1@[k] == half_second(
                x@,
                book@,
                dim as int,
                views(splits@),
                k,
            ) && out.1@[k] < splits@[k].count,
{
    let index = stage_one(x, book, dim);
    let mut smallest = Word32(0x7fff_ffff);
    let mut first: usize = 0;
    for n in 0..SURVIVORS
        invariant
            1 <= dim <= 9,
            x.len() == dim,
            book.len() == 256 * dim,
            splits_ok(views(splits@)),
            split_at(views(splits@), splits@.len() as int) == dim,
            first < 256,
            forall|i: int|
                0 <= i < 4 ==> #[trigger] index@[i] == survivors(x@, book@, dim as int, 256)[i].1,
            forall|i: int| 0 <= i < 4 ==> #[trigger] index@[i] < 256,
            (smallest, first as int) == best_survivor(x@, book@, dim as int, views(splits@), n as int),
    {
        let v: usize = index[n];
        let r = left_over(x, book, dim, v);
        let (error, _) = stage_two(&r, dim, splits);
        if error.0 < smallest.0 {
            smallest = error;
            first = v;
        }
    }
    let r = left_over(x, book, dim, first);
    let (_, second) = stage_two(&r, dim, splits);
    (first as u16, second)
}

/// What a first-stage vector leaves over.
fn left_over(x: &[Word16], book: &[i16], dim: usize, v: usize) -> (r: [Word16; 9])
    requires
        1 <= dim <= 9,
        x.len() == dim,
        book.len() == 256 * dim,
        v < 256,
    ensures
        r@.take(dim as int) == leftover(x@, book@, dim as int, v as int),
{
    let mut r: [Word16; 9] = [Word16(0); 9];
    for i in 0..dim
        invariant
            1 <= dim <= 9,
            x.len() == dim,
            book.len() == 256 * dim,
            v < 256,
            forall|j: int|
                0 <= j < i ==> #[trigger] r@[j] == leftover(x@, book@, dim as int, v as int)[j],
    {
        proof {
            lemma_entry(v as int, 256, dim as int, i as int);
        }
        r[i] = sub_s(x[i], Word16(book[v * dim + i]));
    }
    assert(r@.take(dim as int) =~= leftover(x@, book@, dim as int, v as int));
    r
}

// ---------------------------------------------------------------------------
// Decoding
// ---------------------------------------------------------------------------

/// How many indices a quantiser has.
pub open spec fn index_count(q: IsfQuantizer) -> int {
    match q {
        IsfQuantizer::Bits36 => 5,
        IsfQuantizer::Bits46 => 7,
    }
}

/// Whether indices name vectors of their codebooks.
pub open spec fn isf_indices_fit(q: IsfQuantizer, i: Seq<u16>) -> bool {
    &&& i.len() >= index_count(q)
    &&& i[0] < 256 && i[1] < 256
    &&& match q {
        IsfQuantizer::Bits36 => i[2] < 128 && i[3] < 128 && i[4] < 64,
        IsfQuantizer::Bits46 => i[2] < 64 && i[3] < 128 && i[4] < 128 && i[5] < 32 && i[6] < 32,
    }
}

/// The second stage's share of coefficient `j`.
pub open spec fn second_share(books: IsfCodebooks, q: IsfQuantizer, i: Seq<u16>, j: int) -> i16 {
    match q {
        IsfQuantizer::Bits36 => if j < 5 {
            books.narrow0@[i[2] * 5 + j]
        } else if j < 9 {
            books.narrow1@[i[3] * 4 + j - 5]
        } else {
            books.narrow2@[i[4] * 7 + j - 9]
        },
        IsfQuantizer::Bits46 => if j < 3 {
            books.wide0@[i[2] * 3 + j]
        } else if j < 6 {
            books.wide1@[i[3] * 3 + j - 3]
        } else if j < 9 {
            books.wide2@[i[4] * 3 + j - 6]
        } else if j < 12 {
            books.wide3@[i[5] * 3 + j - 9]
        } else {
            books.wide4@[i[6] * 4 + j - 12]
        },
    }
}

/// Coefficient `j` of the coded residual.
pub open spec fn coded_residual(
    books: IsfCodebooks,
    q: IsfQuantizer,
    i: Seq<u16>,
    j: int,
) -> Word16 {
    let first = if j < 9 {
        books.first_low@[i[0] * 9 + j]
    } else {
        books.first_high@[i[1] * 7 + j - 9]
    };
    add_s(Word16(first), Word16(second_share(books, q, i, j)))
}

/// The residual that a frame's indices name.
#[verifier::opaque]
pub open spec fn residual_of(books: IsfCodebooks, q: IsfQuantizer, i: Seq<u16>) -> Seq<Word16> {
    Seq::new(16, |j: int| coded_residual(books, q, i, j))
}

/// A spectrum with neighbours kept apart; the last coefficient is exempt.
pub open spec fn spaced(x: Seq<Word16>) -> Seq<Word16> {
    Seq::new(
        16,
        |j: int|
            if j < 15 {
                spaced_at(x, j)
            } else {
                x[j]
            },
    )
}

/// A residual put back on its mean and prediction.
pub open spec fn predicted_spectrum(
    books: IsfCodebooks,
    residual: Seq<Word16>,
    past: Seq<Word16>,
) -> Seq<Word16> {
    Seq::new(
        16,
        |j: int|
            add_s(
                add_s(residual[j], Word16(books.mean@[j])),
                mult(Word16(MU), past[j]),
            ),
    )
}

/// The spectrum that a frame's indices name.
#[verifier::opaque]
pub open spec fn decoded_isf(
    books: IsfCodebooks,
    q: IsfQuantizer,
    i: Seq<u16>,
    past: Seq<Word16>,
) -> Seq<Word16> {
    spaced(predicted_spectrum(books, residual_of(books, q, i), past))
}

/// Keep neighbours apart.
fn space(isf: &mut [Word16; LP_ORDER])
    ensures
        final(isf)@ == spaced(old(isf)@),
{
    let ghost x = isf@;
    let mut floor = Word16(ISF_GAP);
    for i in 0..15usize
        invariant
            x.len() == 16,
            floor == spacing_floor(x, i as int),
            forall|j: int| 0 <= j < i ==> #[trigger] isf@[j] == spaced_at(x, j),
            forall|j: int| i <= j < 16 ==> #[trigger] isf@[j] == x[j],
    {
        if isf[i].0 < floor.0 {
            isf[i] = floor;
        }
        floor = add_s(isf[i], Word16(ISF_GAP));
    }
    assert(isf@ =~= spaced(x));
}

impl IsfCodebooks {
    /// The residual that indices name.
    fn residual(&self, q: IsfQuantizer, i: &[u16; 7]) -> (r: [Word16; LP_ORDER])
        requires
            isf_indices_fit(q, i@),
        ensures
            r@ == residual_of(*self, q, i@),
    {
        proof {
            reveal(residual_of);
        }
        let mut r: [Word16; LP_ORDER] = [Word16(0); LP_ORDER];
        for j in 0..LP_ORDER
            invariant
                isf_indices_fit(q, i@),
                forall|k: int| 0 <= k < j ==> #[trigger] r@[k] == coded_residual(*self, q, i@, k),
        {
            let first: i16 = if j < 9 {
                self.first_low[i[0] as usize * 9 + j]
            } else {
                self.first_high[i[1] as usize * 7 + j - 9]
            };
            let second: i16 = match q {
                IsfQuantizer::Bits36 => if j < 5 {
                    self.narrow0[i[2] as usize * 5 + j]
                } else if j < 9 {
                    self.narrow1[i[3] as usize * 4 + j - 5]
                } else {
                    self.narrow2[i[4] as usize * 7 + j - 9]
                },
                IsfQuantizer::Bits46 => if j < 3 {
                    self.wide0[i[2] as usize * 3 + j]
                } else if j < 6 {
                    self.wide1[i[3] as usize * 3 + j - 3]
                } else if j < 9 {
                    self.wide2[i[4] as usize * 3 + j - 6]
                } else if j < 12 {
                    self.wide3[i[5] as usize * 3 + j - 9]
                } else {
                    self.wide4[i[6] as usize * 4 + j - 12]
                },
            };
            r[j] = add_s(Word16(first), Word16(second));
        }
        assert(r@ =~= residual_of(*self, q, i@));
        r
    }

    /// The spectrum of indices on a prediction.
    fn spectrum(&self, residual: &[Word16; LP_ORDER], past: &[Word16; LP_ORDER]) -> (isf: [Word16;
        LP_ORDER])
        ensures
            isf@ == spaced(predicted_spectrum(*self, residual@, past@)),
    {
        let mut isf: [Word16; LP_ORDER] = [Word16(0); LP_ORDER];
        for j in 0..LP_ORDER
            invariant
                forall|k: int|
                    0 <= k < j ==> #[trigger] isf@[k] == predicted_spectrum(
                        *self,
                        residual@,
                        past@,
                    )[k],
        {
            isf[j] = add_s(
                add_s(residual[j], Word16(self.mean[j])),
                mult(Word16(MU), past[j]),
            );
        }
        assert(isf@ =~= predicted_spectrum(*self, residual@, past@));
        space(&mut isf);
        isf
    }
}

// ---------------------------------------------------------------------------
// Encoder
// ---------------------------------------------------------------------------

/// What the codebooks are searched for: the spectrum without its mean and
/// prediction.
#[verifier::opaque]
pub open spec fn search_target(
    books: IsfCodebooks,
    isf: Seq<Word16>,
    past: Seq<Word16>,
) -> Seq<Word16> {
    Seq::new(
        16,
        |j: int| sub_s(sub_s(isf[j], Word16(books.mean@[j])), mult(Word16(MU), past[j])),
    )
}

/// A quantised spectrum.
#[derive(Debug, Clone, Copy)]
pub struct QuantisedIsf {
    /// The indices; the 36-bit quantiser uses the first five.
    pub indices: [u16; 7],
    /// The spectrum they name.
    pub isf: [Word16; LP_ORDER],
}

/// The second-stage codebooks of the low half.
pub open spec fn low_splits(books: IsfCodebooks, q: IsfQuantizer) -> Seq<SplitView> {
    match q {
        IsfQuantizer::Bits36 => seq![
            SplitView { book: books.narrow0@, size: 5, count: 128 },
            SplitView { book: books.narrow1@, size: 4, count: 128 },
        ],
        IsfQuantizer::Bits46 => seq![
            SplitView { book: books.wide0@, size: 3, count: 64 },
            SplitView { book: books.wide1@, size: 3, count: 128 },
            SplitView { book: books.wide2@, size: 3, count: 128 },
        ],
    }
}

/// The second-stage codebooks of the high half.
pub open spec fn high_splits(books: IsfCodebooks, q: IsfQuantizer) -> Seq<SplitView> {
    match q {
        IsfQuantizer::Bits36 => seq![SplitView { book: books.narrow2@, size: 7, count: 64 }],
        IsfQuantizer::Bits46 => seq![
            SplitView { book: books.wide3@, size: 3, count: 32 },
            SplitView { book: books.wide4@, size: 4, count: 32 },
        ],
    }
}

/// Index `k` of a frame: the first stage of each half, then the second stages
/// of the low half and of the high one.
pub open spec fn chosen_index(
    books: IsfCodebooks,
    q: IsfQuantizer,
    target: Seq<Word16>,
    k: int,
) -> int {
    let low = low_splits(books, q);
    let high = high_splits(books, q);
    if k == 0 {
        half_first(target.take(9), books.first_low@, 9, low)
    } else if k == 1 {
        half_first(target.skip(9), books.first_high@, 7, high)
    } else if k - 2 < low.len() {
        half_second(target.take(9), books.first_low@, 9, low, k - 2)
    } else {
        half_second(target.skip(9), books.first_high@, 7, high, k - 2 - low.len())
    }
}

/// The indices of a frame; the 36-bit quantiser leaves the last two at zero.
#[verifier::opaque]
pub open spec fn chosen_indices(
    books: IsfCodebooks,
    q: IsfQuantizer,
    target: Seq<Word16>,
) -> Seq<u16> {
    Seq::new(
        7,
        |k: int|
            if k < index_count(q) {
                chosen_index(books, q, target, k) as u16
            } else {
                0u16
            },
    )
}

/// The encoder's quantiser: the residual it predicts from.
#[derive(Debug, Clone, Copy)]
pub struct IsfEncoder {
    /// The last frame's coded residual.
    pub past: [Word16; LP_ORDER],
}

impl IsfEncoder {
    /// A quantiser with nothing to predict from.
    #[must_use]
    pub fn new() -> (e: Self)
        ensures
            e.past@ == Seq::new(16, |i: int| Word16(0)),
    {
        let e = IsfEncoder { past: [Word16(0); LP_ORDER] };
        assert(e.past@ =~= Seq::new(16, |i: int| Word16(0)));
        e
    }

    /// Forget the prediction.
    pub fn reset(&mut self)
        ensures
            final(self).past@ == Seq::new(16, |i: int| Word16(0)),
    {
        self.past = [Word16(0); LP_ORDER];
        assert(self.past@ =~= Seq::new(16, |i: int| Word16(0)));
    }

    /// Quantise a spectrum.
    pub fn quantize(&mut self, books: &IsfCodebooks, isf: &[Word16; LP_ORDER], q: IsfQuantizer) -> (r:
        QuantisedIsf)
        ensures
            isf_indices_fit(q, r.indices@),
            r.indices@ == chosen_indices(
                *books,
                q,
                search_target(*books, isf@, old(self).past@),
            ),
            r.isf@ == decoded_isf(*books, q, r.indices@, old(self).past@),
            final(self).past@ == residual_of(*books, q, r.indices@),
    {
        proof {
            reveal(search_target);
            reveal(chosen_indices);
            reveal(decoded_isf);
        }
        let ghost target = search_target(*books, isf@, self.past@);
        let mut x: [Word16; LP_ORDER] = [Word16(0); LP_ORDER];
        for j in 0..LP_ORDER
            invariant
                self.past@ == old(self).past@,
                forall|k: int|
                    0 <= k < j ==> #[trigger] x@[k] == search_target(*books, isf@, self.past@)[k],
        {
            proof {
                reveal(search_target);
            }
            x[j] = sub_s(
                sub_s(isf[j], Word16(books.mean[j])),
                mult(Word16(MU), self.past[j]),
            );
        }
        assert(x@ =~= target);
        let low = vstd::slice::slice_subrange(&x, 0, 9);
        let high = vstd::slice::slice_subrange(&x, 9, 16);
        assert(low@ =~= target.take(9));
        assert(high@ =~= target.skip(9));
        let indices: [u16; 7] = match q {
            IsfQuantizer::Bits36 => {
                let lows = [
                    Split { book: &books.narrow0, size: 5, count: 128 },
                    Split { book: &books.narrow1, size: 4, count: 128 },
                ];
                let highs = [Split { book: &books.narrow2, size: 7, count: 64 }];
                proof {
                    reveal_with_fuel(split_at, 4);
                    assert(128 * 5 == 640 && 128 * 4 == 512 && 64 * 7 == 448);
                    assert(views(lows@) =~= low_splits(*books, q));
                    assert(views(highs@) =~= high_splits(*books, q));
                }
                let (a0, a) = half_search(low, &books.first_low, 9, &lows);
                let (b0, b) = half_search(high, &books.first_high, 7, &highs);
                let i: [u16; 7] = [a0, b0, a[0], a[1], b[0], 0, 0];
                i
            },
            IsfQuantizer::Bits46 => {
                let lows = [
                    Split { book: &books.wide0, size: 3, count: 64 },
                    Split { book: &books.wide1, size: 3, count: 128 },
                    Split { book: &books.wide2, size: 3, count: 128 },
                ];
                let highs = [
                    Split { book: &books.wide3, size: 3, count: 32 },
                    Split { book: &books.wide4, size: 4, count: 32 },
                ];
                proof {
                    reveal_with_fuel(split_at, 4);
                    assert(64 * 3 == 192 && 128 * 3 == 384 && 32 * 3 == 96 && 32 * 4 == 128);
                    assert(views(lows@) =~= low_splits(*books, q));
                    assert(views(highs@) =~= high_splits(*books, q));
                }
                let (a0, a) = half_search(low, &books.first_low, 9, &lows);
                let (b0, b) = half_search(high, &books.first_high, 7, &highs);
                let i: [u16; 7] = [a0, b0, a[0], a[1], a[2], b[0], b[1]];
                i
            },
        };
        assert(indices@ =~= chosen_indices(*books, q, target));
        let residual = books.residual(q, &indices);
        let spectrum = books.spectrum(&residual, &self.past);
        self.past = residual;
        QuantisedIsf { indices, isf: spectrum }
    }
}

// ---------------------------------------------------------------------------
// Decoder
// ---------------------------------------------------------------------------

/// The decoder's state: the residual it predicts from, the last spectrum, and
/// the last three good ones.
#[derive(Debug, Clone, Copy)]
pub struct IsfDecoder {
    pub past: [Word16; LP_ORDER],
    pub previous: [Word16; LP_ORDER],
    pub recent: [Word16; 48],
}

/// The decoder's state as plain values.
pub struct IsfView {
    pub past: Seq<Word16>,
    pub previous: Seq<Word16>,
    pub recent: Seq<Word16>,
}

/// The mean of the long-term mean and the last three good spectra.
pub open spec fn reference_isf(books: IsfCodebooks, recent: Seq<Word16>, j: int) -> Word16 {
    let sum = l_mac(l_mult(Word16(books.mean@[j]), Word16(8192)), recent[j], Word16(8192));
    round(l_mac(l_mac(sum, recent[16 + j], Word16(8192)), recent[32 + j], Word16(8192)))
}

/// A lost spectrum before spacing: the last one, drawn towards the reference.
pub open spec fn drawn_in(books: IsfCodebooks, previous: Seq<Word16>, recent: Seq<Word16>) -> Seq<
    Word16,
> {
    Seq::new(
        16,
        |j: int|
            add_s(
                mult(Word16(ALPHA), previous[j]),
                mult(Word16(ONE_ALPHA), reference_isf(books, recent, j)),
            ),
    )
}

/// The spectrum of a frame.
pub open spec fn frame_isf(
    d: IsfView,
    books: IsfCodebooks,
    q: IsfQuantizer,
    i: Seq<u16>,
    bad: bool,
) -> Seq<Word16> {
    if bad {
        spaced(drawn_in(books, d.previous, d.recent))
    } else {
        decoded_isf(books, q, i, d.past)
    }
}

/// The residual that the next frame is predicted from.
pub open spec fn next_past(
    d: IsfView,
    books: IsfCodebooks,
    q: IsfQuantizer,
    i: Seq<u16>,
    bad: bool,
) -> Seq<Word16> {
    if bad {
        let isf = drawn_in(books, d.previous, d.recent);
        Seq::new(
            16,
            |j: int|
                shr(
                    sub_s(
                        isf[j],
                        add_s(reference_isf(books, d.recent, j), mult(d.past[j], Word16(MU))),
                    ),
                    1,
                ),
        )
    } else {
        residual_of(books, q, i)
    }
}

/// The last three good spectra, before spacing.
pub open spec fn next_recent(
    d: IsfView,
    books: IsfCodebooks,
    q: IsfQuantizer,
    i: Seq<u16>,
    bad: bool,
) -> Seq<Word16> {
    if bad {
        d.recent
    } else {
        predicted_spectrum(books, residual_of(books, q, i), d.past) + d.recent.take(32)
    }
}

/// The state after a frame.
pub open spec fn isf_after(
    d: IsfView,
    books: IsfCodebooks,
    q: IsfQuantizer,
    i: Seq<u16>,
    bad: bool,
) -> IsfView {
    IsfView {
        past: next_past(d, books, q, i, bad),
        previous: frame_isf(d, books, q, i, bad),
        recent: next_recent(d, books, q, i, bad),
    }
}

/// The state before anything was decoded.
pub open spec fn isf_reset() -> IsfView {
    IsfView {
        past: Seq::new(16, |i: int| Word16(0)),
        previous: Seq::new(16, |i: int| Word16(ISF_INIT@[i])),
        recent: Seq::new(48, |i: int| Word16(ISF_INIT@[i % 16])),
    }
}

impl IsfDecoder {
    /// The state as plain values.
    pub open spec fn view(&self) -> IsfView {
        IsfView { past: self.past@, previous: self.previous@, recent: self.recent@ }
    }

    /// A decoder in its reset state.
    #[must_use]
    pub fn new() -> (d: Self)
        ensures
            d@ == isf_reset(),
    {
        let mut previous: [Word16; LP_ORDER] = [Word16(0); LP_ORDER];
        let mut recent: [Word16; 48] = [Word16(0); 48];
        for i in 0..48usize
            invariant
                forall|j: int| 0 <= j < i ==> #[trigger] recent@[j] == Word16(ISF_INIT@[j % 16]),
                forall|j: int|
                    0 <= j < i && j < 16 ==> #[trigger] previous@[j] == Word16(ISF_INIT@[j]),
        {
            recent[i] = Word16(ISF_INIT[i % 16]);
            if i < LP_ORDER {
                previous[i] = Word16(ISF_INIT[i]);
            }
        }
        let d = IsfDecoder { past: [Word16(0); LP_ORDER], previous, recent };
        assert(d.past@ =~= Seq::new(16, |i: int| Word16(0)));
        assert(d.previous@ =~= Seq::new(16, |i: int| Word16(ISF_INIT@[i])));
        assert(d.recent@ =~= Seq::new(48, |i: int| Word16(ISF_INIT@[i % 16])));
        d
    }

    /// The spectrum of a frame; the indices of a bad one are not read.
    pub fn decode(&mut self, books: &IsfCodebooks, q: IsfQuantizer, indices: &[u16; 7], bad: bool) -> (isf:
        [Word16; LP_ORDER])
        requires
            !bad ==> isf_indices_fit(q, indices@),
        ensures
            isf@ == frame_isf(old(self)@, *books, q, indices@, bad),
            final(self)@ == isf_after(old(self)@, *books, q, indices@, bad),
    {
        proof {
            reveal(decoded_isf);
        }
        let ghost d = *self;
        let mut isf: [Word16; LP_ORDER] = [Word16(0); LP_ORDER];
        if bad {
            for j in 0..LP_ORDER
                invariant
                    self.previous == d.previous,
                    self.recent == d.recent,
                    forall|k: int|
                        0 <= k < j ==> #[trigger] isf@[k] == drawn_in(
                            *books,
                            d.previous@,
                            d.recent@,
                        )[k],
                    forall|k: int|
                        0 <= k < j ==> #[trigger] self.past@[k] == next_past(
                            d@,
                            *books,
                            q,
                            indices@,
                            true,
                        )[k],
                    forall|k: int| j <= k < 16 ==> #[trigger] self.past@[k] == d.past@[k],
            {
                let sum = l_mac(
                    l_mult(Word16(books.mean[j]), Word16(8192)),
                    self.recent[j],
                    Word16(8192),
                );
                let reference = round(
                    l_mac(
                        l_mac(sum, self.recent[16 + j], Word16(8192)),
                        self.recent[32 + j],
                        Word16(8192),
                    ),
                );
                isf[j] = add_s(
                    mult(Word16(ALPHA), self.previous[j]),
                    mult(Word16(ONE_ALPHA), reference),
                );
                let expected = add_s(reference, mult(self.past[j], Word16(MU)));
                self.past[j] = shr(sub_s(isf[j], expected), 1);
            }
            assert(isf@ =~= drawn_in(*books, d.previous@, d.recent@));
            assert(self.past@ =~= next_past(d@, *books, q, indices@, bad));
        } else {
            let residual = books.residual(q, indices);
            for j in 0..LP_ORDER
                invariant
                    self.past == d.past,
                    self.recent == d.recent,
                    residual@ == residual_of(*books, q, indices@),
                    forall|k: int|
                        0 <= k < j ==> #[trigger] isf@[k] == predicted_spectrum(
                            *books,
                            residual@,
                            d.past@,
                        )[k],
            {
                isf[j] = add_s(
                    add_s(residual[j], Word16(books.mean[j])),
                    mult(Word16(MU), self.past[j]),
                );
            }
            assert(isf@ =~= predicted_spectrum(*books, residual@, d.past@));
            self.past = residual;
            let older = self.recent;
            for j in 0..48usize
                invariant
                    older == d.recent,
                    self.past@ == residual@,
                    forall|k: int|
                        0 <= k < j ==> #[trigger] self.recent@[k] == if k < 16 {
                            isf@[k]
                        } else {
                            older@[k - 16]
                        },
            {
                self.recent[j] = if j < LP_ORDER {
                    isf[j]
                } else {
                    older[j - LP_ORDER]
                };
            }
            assert(self.recent@ =~= next_recent(d@, *books, q, indices@, bad));
        }
        space(&mut isf);
        self.previous = isf;
        isf
    }
}

/// The decoder follows the encoder: from the same prediction, the indices that
/// the encoder sends give the spectrum and the prediction that it has.
pub proof fn law_decoder_follows_the_encoder(
    d: IsfView,
    books: IsfCodebooks,
    q: IsfQuantizer,
    i: Seq<u16>,
    past: Seq<Word16>,
)
    requires
        d.past == past,
    ensures
        frame_isf(d, books, q, i, false) == decoded_isf(books, q, i, past),
        next_past(d, books, q, i, false) == residual_of(books, q, i),
{
}

/// A lost spectrum moves towards the mean and leaves the good ones alone.
pub proof fn law_lost_spectrum_reads_no_indices(
    d: IsfView,
    books: IsfCodebooks,
    q: IsfQuantizer,
    i: Seq<u16>,
    j: Seq<u16>,
)
    ensures
        frame_isf(d, books, q, i, true) == frame_isf(d, books, q, j, true),
        next_past(d, books, q, i, true) == next_past(d, books, q, j, true),
        next_recent(d, books, q, i, true) == d.recent,
{
}

/// A rank is a place in the list, or just behind it.
proof fn lemma_rank_range(list: Seq<(Word32, int)>, d: Word32, k: int)
    requires
        0 <= k <= 4,
    ensures
        k <= rank_of(list, d, k) <= 4,
    decreases 4 - k,
{
    if k < 4 && d.0 >= list[k].0.0 {
        lemma_rank_range(list, d, k + 1);
    }
}

/// The survivors are vectors of the codebook.
proof fn lemma_survivors_range(x: Seq<Word16>, book: Seq<i16>, dim: int, n: int)
    requires
        n <= 256,
    ensures
        survivors(x, book, dim, n).len() == 4,
        forall|i: int| 0 <= i < 4 ==> 0 <= (#[trigger] survivors(x, book, dim, n)[i]).1 < 256,
    decreases n,
{
    if n > 0 {
        lemma_survivors_range(x, book, dim, n - 1);
        let list = survivors(x, book, dim, n - 1);
        let d = split_distance(x, 0, book, n - 1, dim, dim);
        lemma_rank_range(list, d, 0);
        assert forall|i: int| 0 <= i < 4 implies 0 <= (#[trigger] survivors(x, book, dim, n)[i]).1
            < 256 by {
            let k = rank_of(list, d, 0);
            if i < k {
                assert(survivors(x, book, dim, n)[i] == list[i]);
            } else if i > k {
                assert(survivors(x, book, dim, n)[i] == list[i - 1]);
            }
        }
    }
}

/// The best survivor is a vector of the codebook.
proof fn lemma_best_survivor_range(
    x: Seq<Word16>,
    book: Seq<i16>,
    dim: int,
    splits: Seq<SplitView>,
    n: int,
)
    requires
        n <= 4,
    ensures
        0 <= best_survivor(x, book, dim, splits, n).1 < 256,
    decreases n,
{
    if n > 0 {
        lemma_best_survivor_range(x, book, dim, splits, n - 1);
        lemma_survivors_range(x, book, dim, 256);
        assert(0 <= survivors(x, book, dim, 256)[n - 1].1 < 256);
    }
}

/// Whatever is quantised, every index fits the width it is sent in.
pub proof fn law_chosen_indices_fit(books: IsfCodebooks, q: IsfQuantizer, target: Seq<Word16>)
    ensures
        isf_indices_fit(q, chosen_indices(books, q, target)),
        chosen_indices(books, q, target).len() == 7,
        q == IsfQuantizer::Bits36 ==> chosen_indices(books, q, target)[5] == 0
            && chosen_indices(books, q, target)[6] == 0,
{
    reveal(chosen_indices);
    let low = low_splits(books, q);
    let high = high_splits(books, q);
    lemma_best_survivor_range(target.take(9), books.first_low@, 9, low, 4);
    lemma_best_survivor_range(target.skip(9), books.first_high@, 7, high, 4);
    let left = leftover(
        target.take(9),
        books.first_low@,
        9,
        half_first(target.take(9), books.first_low@, 9, low),
    );
    let right = leftover(
        target.skip(9),
        books.first_high@,
        7,
        half_first(target.skip(9), books.first_high@, 7, high),
    );
    assert forall|k: int| 0 <= k < low.len() implies 0 <= #[trigger] split_choice(left, low, k).1
        < low[k].count by {
        crate::vq::lemma_nearest_range(
            left,
            split_at(low, k),
            low[k].book,
            low[k].size,
            low[k].count,
        );
    }
    assert forall|k: int| 0 <= k < high.len() implies 0 <= #[trigger] split_choice(right, high, k).1
        < high[k].count by {
        crate::vq::lemma_nearest_range(
            right,
            split_at(high, k),
            high[k].book,
            high[k].size,
            high[k].count,
        );
    }
    assert(0 <= split_choice(left, low, 0).1 < low[0].count);
    assert(0 <= split_choice(left, low, 1).1 < low[1].count);
    assert(0 <= split_choice(right, high, 0).1 < high[0].count);
    if q == IsfQuantizer::Bits46 {
        assert(0 <= split_choice(left, low, 2).1 < low[2].count);
        assert(0 <= split_choice(right, high, 1).1 < high[1].count);
    }
}

/// What is searched for is what the decoder will put back: the spectrum less
/// its mean and a third of the last residual, so that a residual that is met
/// gives the spectrum again.
pub proof fn law_target_is_what_the_decoder_adds(
    books: IsfCodebooks,
    isf: Seq<Word16>,
    past: Seq<Word16>,
    j: int,
)
    requires
        0 <= j < 16,
        -8192 <= isf[j].0 <= 16383,
        -8192 <= books.mean@[j] <= 16383,
        -8192 <= past[j].0 <= 8191,
    ensures
        search_target(books, isf, past)[j].0 == isf[j].0 - books.mean@[j] - (10923 * past[j].0)
            / 32768,
        predicted_spectrum(books, search_target(books, isf, past), past)[j] == isf[j],
{
    reveal(search_target);
    reveal(crate::fixed_point::spec_add_s);
    reveal(crate::fixed_point::spec_sub_s);
    reveal(crate::fixed_point::spec_mult);
    assert(mult(Word16(MU), past[j]).0 == (10923 * past[j].0) / 32768);
}

/// A lost spectrum is nine tenths of the last one and a tenth of the mean of
/// the last three good ones and the long-term mean, to within two units.
pub proof fn law_lost_spectrum_is_drawn_in(
    books: IsfCodebooks,
    previous: Seq<Word16>,
    recent: Seq<Word16>,
    j: int,
)
    requires
        0 <= j < 16,
        recent.len() == 48,
        0 <= previous[j].0 <= 16384,
        0 <= books.mean@[j] <= 16384,
        0 <= recent[j].0 <= 16384,
        0 <= recent[16 + j].0 <= 16384,
        0 <= recent[32 + j].0 <= 16384,
    ensures
        ({
            let reference = reference_isf(books, recent, j).0;
            let sum = books.mean@[j] + recent[j].0 + recent[16 + j].0 + recent[32 + j].0;
            let way = ALPHA * previous[j].0 + ONE_ALPHA * reference;
            &&& -2 <= 4 * reference - sum <= 2
            &&& 0 <= way - 32768 * drawn_in(books, previous, recent)[j].0 < 65536
            &&& ALPHA + ONE_ALPHA == 32768
            &&& ALPHA == 29491
        }),
{
    reveal(crate::fixed_point::spec_add_s);
    reveal(crate::fixed_point::spec_mult);
    let m = Word16(books.mean@[j]);
    let k = Word16(8192);
    lemma_l_mac(Word32(0), m, k);
    let s0 = l_mult(m, k);
    lemma_l_mac(s0, recent[j], k);
    let s1 = l_mac(s0, recent[j], k);
    lemma_l_mac(s1, recent[16 + j], k);
    let s2 = l_mac(s1, recent[16 + j], k);
    lemma_l_mac(s2, recent[32 + j], k);
    lemma_round(l_mac(s2, recent[32 + j], k));
    let p = previous[j].0 as int;
    let r = reference_isf(books, recent, j).0 as int;
    assert(mult(Word16(ALPHA), previous[j]).0 == (29491 * p) / 32768);
    assert(mult(Word16(ONE_ALPHA), reference_isf(books, recent, j)).0 == (3277 * r) / 32768);
}

/// Only a good spectrum joins the last three, as the newest, and the oldest
/// leaves.
pub proof fn law_good_spectra_are_remembered(
    d: IsfView,
    books: IsfCodebooks,
    q: IsfQuantizer,
    i: Seq<u16>,
)
    requires
        d.recent.len() == 48,
    ensures
        ({
            let after = isf_after(d, books, q, i, false).recent;
            &&& after.len() == 48
            &&& after.subrange(16, 48) == d.recent.subrange(0, 32)
        }),
        isf_after(d, books, q, i, true).recent == d.recent,
        isf_after(d, books, q, i, false).previous == frame_isf(d, books, q, i, false),
{
    let after = isf_after(d, books, q, i, false).recent;
    assert(after.subrange(16, 48) =~= d.recent.subrange(0, 32));
}

/// The list of survivors rises.
pub open spec fn in_order(list: Seq<(Word32, int)>) -> bool {
    list[0].0.0 <= list[1].0.0 <= list[2].0.0 <= list[3].0.0
}

/// Where a distance ranks: everything before it is no larger, the one there is.
proof fn lemma_rank(list: Seq<(Word32, int)>, d: Word32, k: int)
    requires
        0 <= k <= 4,
        forall|i: int| 0 <= i < k ==> (#[trigger] list[i]).0.0 <= d.0,
    ensures
        ({
            let r = rank_of(list, d, k);
            &&& k <= r <= 4
            &&& forall|i: int| 0 <= i < r ==> (#[trigger] list[i]).0.0 <= d.0
            &&& r < 4 ==> d.0 < list[r].0.0
        }),
    decreases 4 - k,
{
    if k < 4 && d.0 >= list[k].0.0 {
        lemma_rank(list, d, k + 1);
    }
}

/// The survivors are the four nearest: they stand in order, and a vector that
/// is not among them is no nearer than the last of them.
pub proof fn law_survivors_are_the_nearest(x: Seq<Word16>, book: Seq<i16>, dim: int, n: int, c: int)
    requires
        0 <= c < n <= 256,
    ensures
        ({
            let list = survivors(x, book, dim, n);
            let d = split_distance(x, 0, book, c, dim, dim);
            &&& in_order(list)
            &&& list[3].0.0 <= d.0 || exists|i: int| 0 <= i < 4 && #[trigger] list[i] == (d, c)
        }),
    decreases n,
{
    let before = survivors(x, book, dim, n - 1);
    let list = survivors(x, book, dim, n);
    let d = split_distance(x, 0, book, n - 1, dim, dim);
    if n > 1 {
        law_survivors_are_the_nearest(
            x,
            book,
            dim,
            n - 1,
            if c < n - 1 {
                c
            } else {
                0
            },
        );
    }
    assert(in_order(before));
    lemma_rank(before, d, 0);
    let r = rank_of(before, d, 0);
    assert forall|i: int| 0 <= i < 4 implies #[trigger] list[i] == if i < r {
        before[i]
    } else if i == r {
        (d, n - 1)
    } else {
        before[i - 1]
    } by {}
    assert(list[0].0.0 <= list[1].0.0 && list[1].0.0 <= list[2].0.0 && list[2].0.0 <= list[3].0.0);
    if c == n - 1 {
        if r < 4 {
            assert(list[r] == (d, c));
        } else {
            assert(before[3].0.0 <= d.0);
        }
    } else {
        let e = split_distance(x, 0, book, c, dim, dim);
        if before[3].0.0 <= e.0 {
            assert(list[3].0.0 <= before[3].0.0);
        } else {
            let i = choose|i: int| 0 <= i < 4 && #[trigger] before[i] == (e, c);
            if i < r {
                assert(list[i] == (e, c));
            } else if i < 3 {
                assert(list[i + 1] == (e, c));
            }
        }
    }
}

/// Of the surviving first-stage vectors the one is taken whose second stage
/// comes nearest.
pub proof fn law_best_survivor_has_the_least_error(
    x: Seq<Word16>,
    book: Seq<i16>,
    dim: int,
    splits: Seq<SplitView>,
    n: int,
    i: int,
)
    requires
        0 <= i < n <= 4,
    ensures
        ({
            let tried = survivors(x, book, dim, 256)[i].1;
            let best = best_survivor(x, book, dim, splits, n);
            &&& best.0.0 <= split_error(leftover(x, book, dim, tried), splits, splits.len() as int).0
            &&& best.0.0 < 0x7fff_ffff ==> best.0 == split_error(
                leftover(x, book, dim, best.1),
                splits,
                splits.len() as int,
            )
        }),
    decreases n,
{
    if i < n - 1 {
        law_best_survivor_has_the_least_error(x, book, dim, splits, n - 1, i);
    } else if n > 1 {
        law_best_survivor_has_the_least_error(x, book, dim, splits, n - 1, 0);
    }
}

} // verus!
