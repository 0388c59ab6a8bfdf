//! Searching a vector codebook.

use vstd::prelude::*;
use crate::fixed_point::{l_mac, sub_s, Word16, Word32};

verus! {

/// The squared distance of `n` coefficients from `at` to vector `v`.
pub open spec fn split_distance(
    x: Seq<Word16>,
    at: int,
    book: Seq<i16>,
    v: int,
    size: int,
    n: int,
) -> Word32
    decreases n,
{
    if n <= 0 {
        Word32(0)
    } else {
        let d = sub_s(x[at + n - 1], Word16(book[v * size + n - 1]));
        l_mac(split_distance(x, at, book, v, size, n - 1), d, d)
    }
}

/// The nearest of the first `n` vectors; equal distances keep the lowest.
pub open spec fn nearest(x: Seq<Word16>, at: int, book: Seq<i16>, size: int, n: int) -> (
    Word32,
    int,
)
    decreases n,
{
    if n <= 0 {
        (Word32(0x7fff_ffff), 0)
    } else {
        let best = nearest(x, at, book, size, n - 1);
        let d = split_distance(x, at, book, n - 1, size, size);
        if d.0 < best.0.0 {
            (d, n - 1)
        } else {
            best
        }
    }
}

/// Find the nearest vector of a codebook to `size` coefficients from `at`.
pub fn search(x: &[Word16], at: usize, book: &[i16], size: usize, count: usize) -> (r: (
    Word32,
    u16,
))
    requires
        at + size <= x.len(),
        x.len() <= 16,
        1 <= size <= 9,
        1 <= count <= 256,
        book.len() == count * size,
    ensures
        (r.0, r.1 as int) == nearest(x@, at as int, book@, size as int, count as int),
        r.1 < count,
{
    let mut smallest = Word32(0x7fff_ffff);
    let mut best: usize = 0;
    for v in 0..count
        invariant
            at + size <= x.len(),
            x.len() <= 16,
            1 <= size <= 9,
            1 <= count <= 256,
            book.len() == count * size,
            best < count,
            (smallest, best as int) == nearest(x@, at as int, book@, size as int, v as int),
    {
        let distance = distance_to(x, at, book, v, size, count);
        if distance.0 < smallest.0 {
            smallest = distance;
            best = v;
        }
    }
    (smallest, best as u16)
}

/// The squared distance of `size` coefficients from `at` to vector `v`.
pub fn distance_to(
    x: &[Word16],
    at: usize,
    book: &[i16],
    v: usize,
    size: usize,
    count: usize,
) -> (distance: Word32)
    requires
        at + size <= x.len(),
        x.len() <= 16,
        1 <= size <= 9,
        v < count <= 256,
        book.len() == count * size,
    ensures
        distance == split_distance(x@, at as int, book@, v as int, size as int, size as int),
{
    let mut distance = Word32(0);
    for j in 0..size
        invariant
            at + size <= x.len(),
            x.len() <= 16,
            1 <= size <= 9,
            v < count <= 256,
            book.len() == count * size,
            distance == split_distance(x@, at as int, book@, v as int, size as int, j as int),
    {
        proof {
            lemma_entry(v as int, count as int, size as int, j as int);
        }
        let d = sub_s(x[at + j], Word16(book[v * size + j]));
        distance = l_mac(distance, d, d);
    }
    distance
}

/// An entry of a vector lies within its codebook.
pub proof fn lemma_entry(v: int, count: int, size: int, j: int)
    requires
        0 <= v < count <= 256,
        0 <= j < size <= 9,
    ensures
        0 <= v * size,
        v * size + j < count * size,
        count * size <= 2304,
{
    assert(0 <= v * size && v * size + j < count * size && count * size <= 2304)
        by (nonlinear_arith)
        requires
            0 <= v,
            v + 1 <= count,
            count <= 256,
            0 <= j < size,
            size <= 9,
    ;
}

/// The nearest of the first `n` vectors is one of them.
pub proof fn lemma_nearest_range(x: Seq<Word16>, at: int, book: Seq<i16>, size: int, n: int)
    requires
        n >= 1,
    ensures
        0 <= nearest(x, at, book, size, n).1 < n,
    decreases n,
{
    reveal_with_fuel(nearest, 2);
    if n > 1 {
        lemma_nearest_range(x, at, book, size, n - 1);
    }
}

/// The nearest vector is nearest: none of those compared has a smaller
/// distance, and none before it an equal one.
pub proof fn law_nearest_has_the_least_distance(
    x: Seq<Word16>,
    at: int,
    book: Seq<i16>,
    size: int,
    n: int,
    c: int,
)
    requires
        0 <= c < n,
    ensures
        ({
            let best = nearest(x, at, book, size, n);
            let d = split_distance(x, at, book, c, size, size);
            &&& 0 <= best.1 < n
            &&& best.0 == split_distance(x, at, book, best.1, size, size)
            &&& best.0.0 <= d.0
            &&& c < best.1 ==> best.0.0 < d.0
        }),
    decreases n,
{
    let before = nearest(x, at, book, size, n - 1);
    let d = split_distance(x, at, book, n - 1, size, size);
    if n > 1 {
        law_nearest_has_the_least_distance(
            x,
            at,
            book,
            size,
            n - 1,
            if c < n - 1 {
                c
            } else {
                0
            },
        );
    } else {
        assert(before == (Word32(0x7fff_ffff), 0int));
    }
}

/// A distance is never negative.
pub proof fn law_distances_are_squares(
    x: Seq<Word16>,
    at: int,
    book: Seq<i16>,
    v: int,
    size: int,
    n: int,
)
    ensures
        split_distance(x, at, book, v, size, n).0 >= 0,
    decreases n,
{
    if n > 0 {
        law_distances_are_squares(x, at, book, v, size, n - 1);
        let d = sub_s(x[at + n - 1], Word16(book[v * size + n - 1]));
        crate::fixed_point::lemma_square_grows(
            split_distance(x, at, book, v, size, n - 1),
            d,
        );
    }
}

/// A vector that is met has no distance.
pub proof fn law_met_vectors_have_no_distance(
    x: Seq<Word16>,
    at: int,
    book: Seq<i16>,
    v: int,
    size: int,
    n: int,
)
    requires
        forall|i: int| at <= i < at + n ==> (#[trigger] x[i]).0 == book[v * size + i - at],
    ensures
        split_distance(x, at, book, v, size, n) == Word32(0),
    decreases n,
{
    if n > 0 {
        law_met_vectors_have_no_distance(x, at, book, v, size, n - 1);
        let k = at + n - 1;
        assert(x[k].0 == book[v * size + k - at]);
        assert(v * size + k - at == v * size + n - 1);
        let d = sub_s(x[k], Word16(book[v * size + n - 1]));
        assert(d == Word16(0)) by {
            reveal(crate::fixed_point::spec_sub_s);
        }
        reveal(crate::fixed_point::spec_l_mac);
        reveal(crate::fixed_point::spec_l_mult);
        reveal(crate::fixed_point::spec_l_add);
    }
}

} // verus!
