//! The comfort-noise spectrum quantiser: five split codebooks around a mean.

use vstd::prelude::*;
use crate::fixed_point::{add_s, sub_s, Word16};
use crate::vq::{nearest, search};

verus! {

/// LP order.
pub const LP_ORDER: usize = 16;

/// Smallest gap between neighbouring dequantised ISFs.
pub const ISF_GAP: i16 = 128;

/// Bits of the five indices.
pub const SPLIT_BITS: [u8; 5] = [6, 6, 6, 5, 5];

/// Five split codebooks and the mean that they are taken around.
pub struct NoiseCodebooks {
    /// The mean spectrum.
    pub mean: [i16; LP_ORDER],
    /// 64 vectors of the first two coefficients.
    pub book0: [i16; 128],
    /// 64 vectors of the next three.
    pub book1: [i16; 192],
    /// 64 vectors of the next three.
    pub book2: [i16; 192],
    /// 32 vectors of the next four.
    pub book3: [i16; 128],
    /// 32 vectors of the last four.
    pub book4: [i16; 128],
}

/// The codebook of split `k`.
pub open spec fn book_of(books: NoiseCodebooks, k: int) -> Seq<i16> {
    if k == 0 {
        books.book0@
    } else if k == 1 {
        books.book1@
    } else if k == 2 {
        books.book2@
    } else if k == 3 {
        books.book3@
    } else {
        books.book4@
    }
}

/// The first coefficient of split `k`.
pub open spec fn split_start(k: int) -> int {
    if k == 0 {
        0
    } else if k == 1 {
        2
    } else if k == 2 {
        5
    } else if k == 3 {
        8
    } else {
        12
    }
}

/// How many coefficients split `k` has.
pub open spec fn split_size(k: int) -> int {
    if k == 0 {
        2
    } else if k <= 2 {
        3
    } else {
        4
    }
}

/// How many vectors split `k` has.
pub open spec fn split_count(k: int) -> int {
    if k <= 2 {
        64
    } else {
        32
    }
}

/// The split that holds coefficient `i`.
pub open spec fn split_of(i: int) -> int {
    if i < 2 {
        0
    } else if i < 5 {
        1
    } else if i < 8 {
        2
    } else if i < 12 {
        3
    } else {
        4
    }
}

/// Every index names a vector of its codebook.
pub open spec fn indices_fit(indices: Seq<u16>) -> bool {
    &&& indices.len() == 5
    &&& indices[0] < 64 && indices[1] < 64 && indices[2] < 64
    &&& indices[3] < 32 && indices[4] < 32
}

/// Coefficient `i` before spacing: its codebook entry around the mean.
pub open spec fn unspaced(books: NoiseCodebooks, indices: Seq<u16>, i: int) -> Word16 {
    let k = split_of(i);
    let entry = book_of(books, k)[indices[k] * split_size(k) + i - split_start(k)];
    add_s(Word16(entry), Word16(books.mean@[i]))
}

/// The floor under coefficient `i` after the ones before it were spaced.
pub open spec fn spacing_floor(x: Seq<Word16>, i: int) -> Word16 {
    if i <= 0 {
        Word16(ISF_GAP)
    } else {
        add_s(spaced_at(x, i - 1), Word16(ISF_GAP))
    }
}

/// Coefficient `i` lifted onto its floor.
pub open spec fn spaced_at(x: Seq<Word16>, i: int) -> Word16
    decreases i,
{
    let floor = if i <= 0 {
        Word16(ISF_GAP)
    } else {
        add_s(spaced_at(x, i - 1), Word16(ISF_GAP))
    };
    if x[i].0 < floor.0 {
        floor
    } else {
        x[i]
    }
}

/// The spectrum that five indices name: spaced, but for the last coefficient.
#[verifier::opaque]
pub open spec fn dequantised(books: NoiseCodebooks, indices: Seq<u16>) -> Seq<Word16> {
    let x = Seq::new(16, |i: int| unspaced(books, indices, i));
    Seq::new(
        16,
        |i: int|
            if i < 15 {
                spaced_at(x, i)
            } else {
                x[i]
            },
    )
}

/// A spectrum with the mean taken out.
pub open spec fn centred(books: NoiseCodebooks, isf: Seq<Word16>) -> Seq<Word16> {
    Seq::new(16, |i: int| sub_s(isf[i], Word16(books.mean@[i])))
}

/// The index of split `k`.
#[verifier::opaque]
pub open spec fn quantised_index(books: NoiseCodebooks, isf: Seq<Word16>, k: int) -> int {
    nearest(
        centred(books, isf),
        split_start(k),
        book_of(books, k),
        split_size(k),
        split_count(k),
    ).1
}

impl NoiseCodebooks {
    /// The five indices of a spectrum.
    pub fn quantise(&self, isf: &[Word16; LP_ORDER]) -> (indices: [u16; 5])
        ensures
            indices_fit(indices@),
            forall|k: int|
                0 <= k < 5 ==> #[trigger] indices@[k] == quantised_index(*self, isf@, k),
    {
        proof {
            reveal(quantised_index);
        }
        let mut x: [Word16; LP_ORDER] = [Word16(0); LP_ORDER];
        for i in 0..LP_ORDER
            invariant
                forall|j: int| 0 <= j < i ==> #[trigger] x@[j] == centred(*self, isf@)[j],
        {
            x[i] = sub_s(isf[i], Word16(self.mean[i]));
        }
        assert(x@ =~= centred(*self, isf@));
        assert(64 * 2 == 128 && 64 * 3 == 192 && 32 * 4 == 128);
        let i0: u16 = search(&x, 0, &self.book0, 2, 64).1;
        let i1: u16 = search(&x, 2, &self.book1, 3, 64).1;
        let i2: u16 = search(&x, 5, &self.book2, 3, 64).1;
        let i3: u16 = search(&x, 8, &self.book3, 4, 32).1;
        let i4: u16 = search(&x, 12, &self.book4, 4, 32).1;
        [i0, i1, i2, i3, i4]
    }

    /// The spectrum that five indices name.
    pub fn dequantise(&self, indices: &[u16; 5]) -> (isf: [Word16; LP_ORDER])
        requires
            indices_fit(indices@),
        ensures
            isf@ == dequantised(*self, indices@),
    {
        proof {
            reveal(dequantised);
        }
        let ghost x = Seq::new(16, |i: int| unspaced(*self, indices@, i));
        let mut isf: [Word16; LP_ORDER] = [Word16(0); LP_ORDER];
        for i in 0..LP_ORDER
            invariant
                indices_fit(indices@),
                x == Seq::new(16, |i: int| unspaced(*self, indices@, i)),
                forall|j: int| 0 <= j < i ==> #[trigger] isf@[j] == x[j],
        {
            let entry: i16 = if i < 2 {
                self.book0[2 * indices[0] as usize + i]
            } else if i < 5 {
                self.book1[3 * indices[1] as usize + i - 2]
            } else if i < 8 {
                self.book2[3 * indices[2] as usize + i - 5]
            } else if i < 12 {
                self.book3[4 * indices[3] as usize + i - 8]
            } else {
                self.book4[4 * indices[4] as usize + i - 12]
            };
            isf[i] = add_s(Word16(entry), Word16(self.mean[i]));
        }
        let mut floor = Word16(ISF_GAP);
        for i in 0..15usize
            invariant
                x.len() == 16,
                floor == spacing_floor(x, i as int),
                forall|j: int| 0 <= j < i ==> #[trigger] isf@[j] == spaced_at(x, j),
                forall|j: int| i <= j < 16 ==> #[trigger] isf@[j] == x[j],
        {
            if isf[i].0 < floor.0 {
                isf[i] = floor;
            }
            floor = add_s(isf[i], Word16(ISF_GAP));
        }
        assert(isf@ =~= dequantised(*self, indices@));
        isf
    }
}

/// Spacing keeps neighbours apart, never lowers a coefficient, and leaves one
/// alone that is far enough already.
pub proof fn law_spacing_keeps_neighbours_apart(x: Seq<Word16>, i: int)
    requires
        1 <= i < x.len(),
        spaced_at(x, i - 1).0 <= 32767 - ISF_GAP,
    ensures
        spaced_at(x, i).0 - spaced_at(x, i - 1).0 >= ISF_GAP,
        spaced_at(x, i).0 >= x[i].0,
        x[i].0 - spaced_at(x, i - 1).0 >= ISF_GAP ==> spaced_at(x, i) == x[i],
        spaced_at(x, 0).0 >= ISF_GAP,
{
    reveal(crate::fixed_point::spec_add_s);
}

/// A spectrum is sent as what is left of it without the mean, and read back
/// around the same mean: one whose remainder is in the codebooks comes back.
pub proof fn law_sent_spectrum_is_read_around_the_mean(
    books: NoiseCodebooks,
    isf: Seq<Word16>,
    indices: Seq<u16>,
    i: int,
)
    requires
        0 <= i < 16,
        isf.len() == 16,
        -32768 <= isf[i].0 - books.mean@[i] <= 32767,
        centred(books, isf)[i].0 == book_of(books, split_of(i))[indices[split_of(i)] * split_size(
            split_of(i),
        ) + i - split_start(split_of(i))],
    ensures
        unspaced(books, indices, i) == isf[i],
        split_start(split_of(i)) <= i < split_start(split_of(i)) + split_size(split_of(i)),
{
    reveal(crate::fixed_point::spec_add_s);
    reveal(crate::fixed_point::spec_sub_s);
}

} // verus!
