//! The combinatorial code of signed pulse positions on one track.
//!
//! A pulse is a number below 32: its position on a track of sixteen, plus 16
//! when it is negative. `k` pulses are packed into an index by splitting the
//! track in halves, and the pair of equal pulses that an ordered code would
//! waste carries a sign. The order of the pulses is not kept; what is kept is
//! how many of each there are.

use vstd::prelude::*;
use vstd::arithmetic::div_mod::{
    lemma_div_denominator, lemma_fundamental_div_mod_converse, lemma_mod_breakdown,
};
use vstd::arithmetic::power2::{lemma2_to64, lemma_pow2_adds, lemma_pow2_pos, pow2};

verus! {

/// `x * 2^n`.
#[verifier::opaque]
pub open spec fn up(x: int, n: int) -> int {
    x * pow2(n as nat)
}

/// `x / 2^n`, floored.
#[verifier::opaque]
pub open spec fn down(x: int, n: int) -> int {
    x / pow2(n as nat) as int
}

/// The low `n` bits of `x`.
#[verifier::opaque]
pub open spec fn low(x: int, n: int) -> int {
    x % pow2(n as nat) as int
}

/// Bit `n` of `v`.
pub open spec fn bit(v: int, n: int) -> int {
    low(down(v, n), 1)
}

// ---------------------------------------------------------------------------
// Packing
// ---------------------------------------------------------------------------

/// One pulse in `n + 1` bits.
pub open spec fn pack1(v: int, n: int) -> int {
    low(v, n) + if v >= 16 {
        up(1, n)
    } else {
        0
    }
}

/// Two pulses in `2n + 1` bits: the order of the positions says whether the
/// signs agree, the top bit is the sign of the first.
pub open spec fn pack2(a: int, b: int, n: int) -> int {
    let (first, second) = if (a >= 16) == (b >= 16) {
        if a <= b {
            (a, b)
        } else {
            (b, a)
        }
    } else if low(a, n) <= low(b, n) {
        (b, a)
    } else {
        (a, b)
    };
    up(low(first, n), n) + low(second, n) + if first >= 16 {
        up(1, 2 * n)
    } else {
        0
    }
}

/// Three pulses in `3n + 1` bits: a pair that shares a half, the half, the
/// third pulse.
pub open spec fn pack3(a: int, b: int, c: int, n: int) -> int {
    if bit(a, n - 1) == bit(b, n - 1) {
        pack2(a, b, n - 1) + up(bit(a, n - 1), 2 * n - 1) + up(pack1(c, n), 2 * n)
    } else if bit(a, n - 1) == bit(c, n - 1) {
        pack2(a, c, n - 1) + up(bit(a, n - 1), 2 * n - 1) + up(pack1(b, n), 2 * n)
    } else {
        pack2(b, c, n - 1) + up(bit(b, n - 1), 2 * n - 1) + up(pack1(a, n), 2 * n)
    }
}

/// Four pulses in `4n + 1` bits: a pair that shares a half, the half, the
/// other pair.
pub open spec fn pack4_odd(a: int, b: int, c: int, d: int, n: int) -> int {
    if bit(a, n - 1) == bit(b, n - 1) {
        pack2(a, b, n - 1) + up(bit(a, n - 1), 2 * n - 1) + up(pack2(c, d, n), 2 * n)
    } else if bit(a, n - 1) == bit(c, n - 1) {
        pack2(a, c, n - 1) + up(bit(a, n - 1), 2 * n - 1) + up(pack2(b, d, n), 2 * n)
    } else {
        pack2(b, c, n - 1) + up(bit(b, n - 1), 2 * n - 1) + up(pack2(a, d, n), 2 * n)
    }
}

/// The pulses of `s` whose bit `n` is `side`, in order.
pub open spec fn half_of(s: Seq<int>, n: int, side: int) -> Seq<int>
    decreases s.len(),
{
    if s.len() == 0 {
        Seq::empty()
    } else if bit(s.last(), n) == side {
        half_of(s.drop_last(), n, side).push(s.last())
    } else {
        half_of(s.drop_last(), n, side)
    }
}

/// Four pulses in `4n` bits.
pub open spec fn pack4(s: Seq<int>, n: int) -> int {
    let n1 = n - 1;
    let low = half_of(s, n1, 0);
    let high = half_of(s, n1, 1);
    if low.len() == 0 {
        up(1, 4 * n - 3) + pack4_odd(high[0], high[1], high[2], high[3], n1)
    } else if low.len() == 1 {
        up(pack1(low[0], n1), 3 * n1 + 1) + pack3(high[0], high[1], high[2], n1) + up(1, 4 * n - 2)
    } else if low.len() == 2 {
        up(pack2(low[0], low[1], n1), 2 * n1 + 1) + pack2(high[0], high[1], n1) + up(2, 4 * n - 2)
    } else if low.len() == 3 {
        up(pack3(low[0], low[1], low[2], n1), n) + pack1(high[0], n1) + up(3, 4 * n - 2)
    } else {
        pack4_odd(low[0], low[1], low[2], low[3], n1)
    }
}

/// Five pulses in `5n` bits: three from the fuller half, and the other two.
pub open spec fn pack5(s: Seq<int>, n: int) -> int {
    let n1 = n - 1;
    let low = half_of(s, n1, 0);
    let high = half_of(s, n1, 1);
    if low.len() < 3 {
        let (x, y) = if low.len() == 0 {
            (high[3], high[4])
        } else if low.len() == 1 {
            (high[3], low[0])
        } else {
            (low[0], low[1])
        };
        up(1, 5 * n - 1) + up(pack3(high[0], high[1], high[2], n1), 2 * n + 1) + pack2(x, y, n)
    } else {
        let (x, y) = if low.len() == 3 {
            (high[0], high[1])
        } else if low.len() == 4 {
            (low[3], high[0])
        } else {
            (low[3], low[4])
        };
        up(pack3(low[0], low[1], low[2], n1), 2 * n + 1) + pack2(x, y, n)
    }
}

/// Six pulses in `6n - 2` bits: the fuller half first, its side at bit
/// `6n - 5`, and a two-bit class of how uneven the split is.
pub open spec fn pack6(s: Seq<int>, n: int) -> int {
    let n1 = n - 1;
    let low = half_of(s, n1, 0);
    let high = half_of(s, n1, 1);
    if low.len() == 3 {
        up(pack3(low[0], low[1], low[2], n1), 3 * n1 + 1) + pack3(high[0], high[1], high[2], n1)
            + up(3, 6 * n - 4)
    } else {
        let (full, rest, side) = if low.len() < 3 {
            (high, low, up(1, 6 * n - 5))
        } else {
            (low, high, 0)
        };
        if full.len() == 6 {
            side + up(pack5(full.take(5), n1), n) + pack1(full[5], n1)
        } else if full.len() == 5 {
            side + up(pack5(full, n1), n) + pack1(rest[0], n1) + up(1, 6 * n - 4)
        } else {
            side + up(pack4(full, n1), 2 * n1 + 1) + pack2(rest[0], rest[1], n1) + up(2, 6 * n - 4)
        }
    }
}

// ---------------------------------------------------------------------------
// Unpacking
// ---------------------------------------------------------------------------

/// The pulse in the low `n + 1` bits of `i`, on the part of the track that
/// starts at `o`.
pub open spec fn dec1(i: int, n: int, o: int) -> int {
    low(i, n) + o + 16 * bit(i, n)
}

/// The two pulses in the low `2n + 1` bits of `i`.
pub open spec fn dec2(i: int, n: int, o: int) -> Seq<int> {
    let first = low(down(i, n), n) + o;
    let second = low(i, n) + o;
    let sign = bit(i, 2 * n);
    if second < first {
        seq![first + 16 * sign, second + 16 * (1 - sign)]
    } else {
        seq![first + 16 * sign, second + 16 * sign]
    }
}

/// The three pulses in the low `3n + 1` bits of `i`.
pub open spec fn dec3(i: int, n: int, o: int) -> Seq<int> {
    dec2(low(i, 2 * n - 1), n - 1, o + up(bit(i, 2 * n - 1), n - 1)).push(
        dec1(low(down(i, 2 * n), n + 1), n, o),
    )
}

/// The four pulses in the low `4n + 1` bits of `i`.
pub open spec fn dec4_odd(i: int, n: int, o: int) -> Seq<int> {
    dec2(low(i, 2 * n - 1), n - 1, o + up(bit(i, 2 * n - 1), n - 1)) + dec2(
        low(down(i, 2 * n), 2 * n + 1),
        n,
        o,
    )
}

/// The four pulses in the low `4n` bits of `i`.
pub open spec fn dec4(i: int, n: int, o: int) -> Seq<int> {
    let n1 = n - 1;
    let j = o + up(1, n1);
    let class = low(down(i, 4 * n - 2), 2);
    if class == 0 {
        dec4_odd(i, n1, if bit(i, 4 * n1 + 1) == 0 { o } else { j })
    } else if class == 1 {
        seq![dec1(down(i, 3 * n1 + 1), n1, o)] + dec3(i, n1, j)
    } else if class == 2 {
        dec2(down(i, 2 * n1 + 1), n1, o) + dec2(i, n1, j)
    } else {
        dec3(down(i, n1 + 1), n1, o).push(dec1(i, n1, j))
    }
}

/// The five pulses in the low `5n` bits of `i`.
pub open spec fn dec5(i: int, n: int, o: int) -> Seq<int> {
    let n1 = n - 1;
    let side = if bit(i, 5 * n - 1) == 0 {
        o
    } else {
        o + up(1, n1)
    };
    dec3(down(i, 2 * n + 1), n1, side) + dec2(i, n, o)
}

/// The six pulses in the low `6n - 2` bits of `i`.
pub open spec fn dec6(i: int, n: int, o: int) -> Seq<int> {
    let n1 = n - 1;
    let j = o + up(1, n1);
    let (full, rest) = if bit(i, 6 * n - 5) == 0 {
        (o, j)
    } else {
        (j, o)
    };
    let class = low(down(i, 6 * n - 4), 2);
    if class == 0 {
        dec5(down(i, n), n1, full).push(dec1(i, n1, full))
    } else if class == 1 {
        dec5(down(i, n), n1, full).push(dec1(i, n1, rest))
    } else if class == 2 {
        dec4(down(i, 2 * n1 + 1), n1, full) + dec2(i, n1, rest)
    } else {
        dec3(down(i, 3 * n1 + 1), n1, o) + dec3(i, n1, j)
    }
}

// ---------------------------------------------------------------------------
// What is kept
// ---------------------------------------------------------------------------

/// The total weight of the pulses in `s`.
pub open spec fn weight(s: Seq<int>, f: spec_fn(int) -> int) -> int
    decreases s.len(),
{
    if s.len() == 0 {
        0
    } else {
        weight(s.drop_last(), f) + f(s.last())
    }
}

/// `v` is a pulse on the `2^n` positions from `o`.
pub open spec fn fits(v: int, n: int, o: int) -> bool {
    0 <= v < 32 && 0 <= v % 16 - o < up(1, n)
}

/// `o` starts a part of `2^n` positions of the track.
pub open spec fn aligned(n: int, o: int) -> bool {
    0 <= o && o + up(1, n) <= 16 && low(o, n) == 0
}

/// `v` lies on the part from `o`, and has the sign that `g` gives its position.
pub open spec fn placed(v: int, n: int, o: int, g: spec_fn(int) -> bool) -> bool {
    fits(v, n, o) && (v >= 16) == g(v % 16)
}

/// Every pulse of `s` lies on the part from `o`, with the signs of `g`.
pub open spec fn on_part(s: Seq<int>, n: int, o: int, g: spec_fn(int) -> bool) -> bool {
    forall|x: int| 0 <= x < s.len() ==> placed(#[trigger] s[x], n, o, g)
}

// ---------------------------------------------------------------------------
// Bit fields
// ---------------------------------------------------------------------------

/// The low `a + b` bits are the low `a` and the `b` above them.
proof fn lemma_concat(i: int, a: int, b: int, x: int, y: int)
    requires
        i >= 0,
        a >= 0,
        b >= 0,
        0 <= x < up(1, a),
        0 <= y < up(1, b),
        low(i, a + b) == x + up(y, a),
    ensures
        low(i, a) == x,
        low(down(i, a), b) == y,
{
    reveal(up);
    reveal(down);
    reveal(low);
    let pa = pow2(a as nat) as int;
    let pb = pow2(b as nat) as int;
    lemma_pow2_pos(a as nat);
    lemma_pow2_pos(b as nat);
    lemma_pow2_adds(a as nat, b as nat);
    lemma_mod_breakdown(i, pa, pb);
    let r = i % (pa * pb);
    assert(r == x + y * pa);
    assert(r == pa * ((i / pa) % pb) + i % pa);
    assert(y * pa == pa * y) by (nonlinear_arith);
    lemma_fundamental_div_mod_converse(r, pa, y, x);
    let y2 = (i / pa) % pb;
    assert(pa * y2 == y2 * pa) by (nonlinear_arith);
    lemma_fundamental_div_mod_converse(r, pa, y2, i % pa);
}

/// Two fields side by side fill their width.
pub proof fn lemma_concat_bound(a: int, b: int, x: int, y: int)
    requires
        a >= 0,
        b >= 0,
        0 <= x < up(1, a),
        0 <= y < up(1, b),
    ensures
        0 <= x + up(y, a) < up(1, a + b),
{
    reveal(up);
    lemma_pow2_pos(a as nat);
    lemma_pow2_adds(a as nat, b as nat);
    let pa = pow2(a as nat) as int;
    let pb = pow2(b as nat) as int;
    assert(0 <= x + y * pa < pa * pb) by (nonlinear_arith)
        requires
            0 <= x < pa,
            0 <= y < pb,
    ;
}

pub proof fn lemma_up(x: int, y: int, a: int, b: int)
    requires
        a >= 0,
        b >= 0,
    ensures
        up(up(x, a), b) == up(x, a + b),
        up(x + y, a) == up(x, a) + up(y, a),
        up(0, a) == 0,
        x >= 0 ==> down(down(x, a), b) == down(x, a + b),
        x >= 0 ==> down(x, a) >= 0,
        x >= 0 ==> up(x, a) >= 0,
{
    reveal(up);
    reveal(down);
    lemma_pow2_pos(a as nat);
    lemma_pow2_pos(b as nat);
    lemma_pow2_adds(a as nat, b as nat);
    let pa = pow2(a as nat) as int;
    let pb = pow2(b as nat) as int;
    assert((x * pa) * pb == x * (pa * pb)) by (nonlinear_arith);
    assert((x + y) * pa == x * pa + y * pa) by (nonlinear_arith);
    assert(0 * pa == 0) by (nonlinear_arith);
    if x >= 0 {
        lemma_div_denominator(x, pa, pb);
        assert(x / pa >= 0 && x * pa >= 0) by (nonlinear_arith)
            requires
                x >= 0,
                pa > 0,
        ;
    }
}

/// Fields of up to four bits.
pub proof fn lemma_small(x: int)
    ensures
        up(x, 0) == x,
        up(x, 1) == 2 * x,
        up(x, 2) == 4 * x,
        up(x, 3) == 8 * x,
        up(x, 4) == 16 * x,
        low(x, 0) == 0,
        low(x, 1) == x % 2,
        low(x, 2) == x % 4,
        low(x, 3) == x % 8,
        low(x, 4) == x % 16,
        down(x, 0) == x,
        down(x, 1) == x / 2,
        down(x, 2) == x / 4,
        down(x, 3) == x / 8,
        down(x, 4) == x / 16,
{
    reveal(up);
    reveal(low);
    reveal(down);
    lemma2_to64();
    assert(x * pow2(0) == x) by (nonlinear_arith)
        requires
            pow2(0) == 1,
    ;
    assert(x * pow2(1) == 2 * x) by (nonlinear_arith)
        requires
            pow2(1) == 2,
    ;
    assert(x * pow2(2) == 4 * x) by (nonlinear_arith)
        requires
            pow2(2) == 4,
    ;
    assert(x * pow2(3) == 8 * x) by (nonlinear_arith)
        requires
            pow2(3) == 8,
    ;
    assert(x * pow2(4) == 16 * x) by (nonlinear_arith)
        requires
            pow2(4) == 16,
    ;
}

/// On its part of the track, a pulse's low bits are its position there.
proof fn lemma_fits(v: int, n: int, o: int)
    requires
        0 <= n <= 4,
        aligned(n, o),
        fits(v, n, o),
    ensures
        low(v, n) == v % 16 - o,
        0 <= low(v, n) < up(1, n),
{
    lemma_small(v);
    lemma_small(o);
    lemma_small(1);
    if n == 0 {
    } else if n == 1 {
    } else if n == 2 {
    } else if n == 3 {
    } else {
    }
}

/// The half that a pulse's top bit names.
proof fn lemma_half(v: int, n: int, o: int)
    requires
        1 <= n <= 4,
        aligned(n, o),
        fits(v, n, o),
    ensures
        bit(v, n - 1) == 0 || bit(v, n - 1) == 1,
        aligned(n - 1, o + up(bit(v, n - 1), n - 1)),
        fits(v, n - 1, o + up(bit(v, n - 1), n - 1)),
{
    lemma_small(v);
    lemma_small(1);
    lemma_small(o);
    lemma_small(down(v, n - 1));
    lemma_small(bit(v, n - 1));
    lemma_small(o + up(bit(v, n - 1), n - 1));
    if n == 1 {
    } else if n == 2 {
    } else if n == 3 {
    } else {
    }
}

/// No field is wider than the widest index.
pub proof fn lemma_width(w: int)
    requires
        0 <= w <= 22,
    ensures
        1 <= up(1, w) <= 0x40_0000,
{
    reveal(up);
    lemma2_to64();
    lemma_pow2_pos(w as nat);
    if w < 22 {
        vstd::arithmetic::power2::lemma_pow2_strictly_increases(w as nat, 22);
    }
}

/// A number is its own low bits when it fits them.
pub proof fn lemma_low_of(x: int, n: int)
    requires
        n >= 0,
        0 <= x < up(1, n),
    ensures
        low(x, n) == x,
{
    reveal(up);
    reveal(low);
    lemma_fundamental_div_mod_converse(x, pow2(n as nat) as int, 0, x);
}

/// Three fields side by side.
proof fn lemma_three(i: int, a: int, b: int, c: int, x: int, y: int, z: int)
    requires
        i >= 0,
        a >= 0,
        b >= 0,
        c >= 0,
        0 <= x < up(1, a),
        0 <= y < up(1, b),
        0 <= z < up(1, c),
        low(i, a + b + c) == x + up(y, a) + up(z, a + b),
    ensures
        low(i, a) == x,
        low(down(i, a), b) == y,
        low(down(i, a + b), c) == z,
        down(i, a) >= 0,
        down(i, a + b) >= 0,
        down(down(i, a), b) == down(i, a + b),
{
    lemma_up(z, 0, b, a);
    lemma_up(y, up(z, b), a, 0);
    lemma_up(i, 0, a, b);
    lemma_up(i, 0, a + b, 0);
    lemma_concat_bound(b, c, y, z);
    lemma_concat(i, a, b + c, x, y + up(z, b));
    lemma_concat(down(i, a), b, c, y, z);
}

/// Three fields fill their width.
pub proof fn lemma_three_bound(a: int, b: int, c: int, x: int, y: int, z: int)
    requires
        a >= 0,
        b >= 0,
        c >= 0,
        0 <= x < up(1, a),
        0 <= y < up(1, b),
        0 <= z < up(1, c),
    ensures
        0 <= x + up(y, a) + up(z, a + b) < up(1, a + b + c),
{
    lemma_concat_bound(a, b, x, y);
    lemma_concat_bound(a + b, c, x + up(y, a), z);
}

/// The halves of a part, and that nothing is lost between them.
proof fn lemma_halves(s: Seq<int>, n: int, o: int, g: spec_fn(int) -> bool, f: spec_fn(int) -> int)
    requires
        1 <= n <= 4,
        aligned(n, o),
        on_part(s, n, o, g),
    ensures
        aligned(n - 1, o),
        aligned(n - 1, o + up(1, n - 1)),
        on_part(half_of(s, n - 1, 0), n - 1, o, g),
        on_part(half_of(s, n - 1, 1), n - 1, o + up(1, n - 1), g),
        half_of(s, n - 1, 0).len() + half_of(s, n - 1, 1).len() == s.len(),
        weight(half_of(s, n - 1, 0), f) + weight(half_of(s, n - 1, 1), f) == weight(s, f),
    decreases s.len(),
{
    lemma_small(1);
    lemma_small(o);
    lemma_small(o + up(1, n - 1));
    assert(aligned(n - 1, o) && aligned(n - 1, o + up(1, n - 1))) by {
        if n == 1 {
        } else if n == 2 {
        } else if n == 3 {
        } else {
        }
    }
    if s.len() > 0 {
        let v = s.last();
        let rest = s.drop_last();
        assert(placed(s[s.len() - 1], n, o, g));
        assert forall|x: int| 0 <= x < rest.len() implies placed(#[trigger] rest[x], n, o, g) by {
            assert(rest[x] == s[x]);
        }
        lemma_halves(rest, n, o, g, f);
        lemma_half(v, n, o);
        lemma_up(0, 0, n - 1, 0);
        let side = bit(v, n - 1);
        let half = half_of(rest, n - 1, side);
        assert(half.push(v).drop_last() =~= half);
        assert(weight(half.push(v), f) == weight(half, f) + f(v));
    }
}

// ---------------------------------------------------------------------------
// Round trips
// ---------------------------------------------------------------------------

pub proof fn lemma_pack1_bound(v: int, n: int, o: int, g: spec_fn(int) -> bool)
    requires
        1 <= n <= 4,
        aligned(n, o),
        placed(v, n, o, g),
    ensures
        0 <= pack1(v, n) < up(1, n + 1),
{
    lemma_fits(v, n, o);
    lemma_small(1);
    lemma_up(0, 0, n, 0);
    lemma_concat_bound(
        n,
        1,
        low(v, n),
        if v >= 16 {
            1
        } else {
            0
        },
    );
}

pub proof fn lemma_dec1(i: int, v: int, n: int, o: int, g: spec_fn(int) -> bool)
    requires
        1 <= n <= 4,
        aligned(n, o),
        placed(v, n, o, g),
        i >= 0,
        low(i, n + 1) == pack1(v, n),
    ensures
        dec1(i, n, o) == v,
{
    lemma_fits(v, n, o);
    lemma_small(1);
    lemma_up(0, 0, n, 0);
    let s = if v >= 16 {
        1int
    } else {
        0
    };
    lemma_concat(i, n, 1, low(v, n), s);
}

pub proof fn lemma_pack2_bound(a: int, b: int, n: int, o: int, g: spec_fn(int) -> bool)
    requires
        1 <= n <= 4,
        aligned(n, o),
        placed(a, n, o, g),
        placed(b, n, o, g),
    ensures
        0 <= pack2(a, b, n) < up(1, 2 * n + 1),
{
    lemma_fits(a, n, o);
    lemma_fits(b, n, o);
    lemma_small(1);
    lemma_up(0, 0, 2 * n, 0);
    lemma_three_bound(n, n, 1, low(a, n), low(b, n), 0);
    lemma_three_bound(n, n, 1, low(a, n), low(b, n), 1);
    lemma_three_bound(n, n, 1, low(b, n), low(a, n), 0);
    lemma_three_bound(n, n, 1, low(b, n), low(a, n), 1);
}

pub proof fn lemma_dec2(
    i: int,
    a: int,
    b: int,
    n: int,
    o: int,
    g: spec_fn(int) -> bool,
    f: spec_fn(int) -> int,
)
    requires
        1 <= n <= 4,
        aligned(n, o),
        placed(a, n, o, g),
        placed(b, n, o, g),
        i >= 0,
        low(i, 2 * n + 1) == pack2(a, b, n),
    ensures
        dec2(i, n, o).len() == 2,
        weight(dec2(i, n, o), f) == f(a) + f(b),
{
    let (first, second) = if (a >= 16) == (b >= 16) {
        if a <= b {
            (a, b)
        } else {
            (b, a)
        }
    } else if low(a, n) <= low(b, n) {
        (b, a)
    } else {
        (a, b)
    };
    let s = if first >= 16 {
        1int
    } else {
        0
    };
    lemma_fits(a, n, o);
    lemma_fits(b, n, o);
    lemma_small(1);
    lemma_up(0, 0, 2 * n, 0);
    lemma_three(i, n, n, 1, low(second, n), low(first, n), s);
    assert(dec2(i, n, o) =~= seq![first, second]);
    reveal_with_fuel(weight, 3);
    assert(seq![first, second].drop_last() =~= seq![first]);
    assert(seq![first].drop_last() =~= Seq::<int>::empty());
}

/// The sum over a concatenation.
pub proof fn lemma_weight_add(s: Seq<int>, t: Seq<int>, f: spec_fn(int) -> int)
    ensures
        weight(s + t, f) == weight(s, f) + weight(t, f),
    decreases t.len(),
{
    if t.len() == 0 {
        assert(s + t =~= s);
    } else {
        assert((s + t).drop_last() =~= s + t.drop_last());
        assert((s + t).last() == t.last());
        lemma_weight_add(s, t.drop_last(), f);
    }
}

/// The sums over up to five pulses.
pub proof fn lemma_weight_of(s: Seq<int>, f: spec_fn(int) -> int)
    ensures
        s.len() == 0 ==> weight(s, f) == 0,
        s.len() == 1 ==> weight(s, f) == f(s[0]),
        s.len() == 2 ==> weight(s, f) == f(s[0]) + f(s[1]),
        s.len() == 3 ==> weight(s, f) == f(s[0]) + f(s[1]) + f(s[2]),
        s.len() == 4 ==> weight(s, f) == f(s[0]) + f(s[1]) + f(s[2]) + f(s[3]),
        s.len() == 5 ==> weight(s, f) == f(s[0]) + f(s[1]) + f(s[2]) + f(s[3]) + f(s[4]),
    decreases s.len(),
{
    if s.len() > 0 {
        lemma_weight_of(s.drop_last(), f);
    }
}

/// The pair that shares a half, and the pulse that is left.
pub open spec fn paired(a: int, b: int, c: int, n: int) -> (int, int, int) {
    if bit(a, n - 1) == bit(b, n - 1) {
        (a, b, c)
    } else if bit(a, n - 1) == bit(c, n - 1) {
        (a, c, b)
    } else {
        (b, c, a)
    }
}

/// What a shared half is: its side, its part, and the width of its pair.
proof fn lemma_pair(x: int, y: int, n: int, o: int, g: spec_fn(int) -> bool)
    requires
        2 <= n <= 4,
        aligned(n, o),
        placed(x, n, o, g),
        placed(y, n, o, g),
        bit(x, n - 1) == bit(y, n - 1),
    ensures
        0 <= bit(x, n - 1) <= 1,
        aligned(n - 1, o + up(bit(x, n - 1), n - 1)),
        placed(x, n - 1, o + up(bit(x, n - 1), n - 1), g),
        placed(y, n - 1, o + up(bit(x, n - 1), n - 1), g),
        0 <= pack2(x, y, n - 1) < up(1, 2 * n - 1),
{
    lemma_half(x, n, o);
    lemma_half(y, n, o);
    lemma_pack2_bound(x, y, n - 1, o + up(bit(x, n - 1), n - 1), g);
}

pub proof fn lemma_pack3_bound(a: int, b: int, c: int, n: int, o: int, g: spec_fn(int) -> bool)
    requires
        2 <= n <= 4,
        aligned(n, o),
        placed(a, n, o, g),
        placed(b, n, o, g),
        placed(c, n, o, g),
    ensures
        0 <= pack3(a, b, c, n) < up(1, 3 * n + 1),
{
    lemma_half(a, n, o);
    lemma_half(b, n, o);
    lemma_half(c, n, o);
    lemma_small(1);
    let (x, y, z) = paired(a, b, c, n);
    lemma_pair(x, y, n, o, g);
    lemma_pack1_bound(z, n, o, g);
    lemma_three_bound(2 * n - 1, 1, n + 1, pack2(x, y, n - 1), bit(x, n - 1), pack1(z, n));
}

pub proof fn lemma_dec3(
    i: int,
    a: int,
    b: int,
    c: int,
    n: int,
    o: int,
    g: spec_fn(int) -> bool,
    f: spec_fn(int) -> int,
)
    requires
        2 <= n <= 4,
        aligned(n, o),
        placed(a, n, o, g),
        placed(b, n, o, g),
        placed(c, n, o, g),
        i >= 0,
        low(i, 3 * n + 1) == pack3(a, b, c, n),
    ensures
        dec3(i, n, o).len() == 3,
        weight(dec3(i, n, o), f) == f(a) + f(b) + f(c),
{
    lemma_half(a, n, o);
    lemma_half(b, n, o);
    lemma_half(c, n, o);
    lemma_small(1);
    let (x, y, z) = paired(a, b, c, n);
    let h = bit(x, n - 1);
    let pair = pack2(x, y, n - 1);
    lemma_pair(x, y, n, o, g);
    lemma_pack1_bound(z, n, o, g);
    lemma_three(i, 2 * n - 1, 1, n + 1, pair, h, pack1(z, n));
    lemma_low_of(pair, 2 * n - 1);
    lemma_low_of(pack1(z, n), n + 1);
    let part = o + up(h, n - 1);
    lemma_dec2(pair, x, y, n - 1, part, g, f);
    lemma_dec1(pack1(z, n), z, n, o, g);
    assert(dec3(i, n, o) == dec2(pair, n - 1, part).push(z));
    assert(dec3(i, n, o).drop_last() =~= dec2(pair, n - 1, part));
}

proof fn lemma_pack4_odd_bound(s: Seq<int>, n: int, o: int, g: spec_fn(int) -> bool)
    requires
        2 <= n <= 3,
        aligned(n, o),
        s.len() == 4,
        on_part(s, n, o, g),
    ensures
        0 <= pack4_odd(s[0], s[1], s[2], s[3], n) < up(1, 4 * n + 1),
{
    lemma_half(s[0], n, o);
    lemma_half(s[1], n, o);
    lemma_half(s[2], n, o);
    lemma_small(1);
    let (x, y, z) = paired(s[0], s[1], s[2], n);
    lemma_pair(x, y, n, o, g);
    lemma_pack2_bound(z, s[3], n, o, g);
    lemma_three_bound(2 * n - 1, 1, 2 * n + 1, pack2(x, y, n - 1), bit(x, n - 1), pack2(z, s[3], n));
}

proof fn lemma_dec4_odd(
    i: int,
    s: Seq<int>,
    n: int,
    o: int,
    g: spec_fn(int) -> bool,
    f: spec_fn(int) -> int,
)
    requires
        2 <= n <= 3,
        aligned(n, o),
        s.len() == 4,
        on_part(s, n, o, g),
        i >= 0,
        low(i, 4 * n + 1) == pack4_odd(s[0], s[1], s[2], s[3], n),
    ensures
        dec4_odd(i, n, o).len() == 4,
        weight(dec4_odd(i, n, o), f) == weight(s, f),
{
    lemma_half(s[0], n, o);
    lemma_half(s[1], n, o);
    lemma_half(s[2], n, o);
    lemma_small(1);
    let (x, y, z) = paired(s[0], s[1], s[2], n);
    let h = bit(x, n - 1);
    let pair = pack2(x, y, n - 1);
    let other = pack2(z, s[3], n);
    lemma_pair(x, y, n, o, g);
    lemma_pack2_bound(z, s[3], n, o, g);
    lemma_three(i, 2 * n - 1, 1, 2 * n + 1, pair, h, other);
    lemma_low_of(pair, 2 * n - 1);
    lemma_low_of(other, 2 * n + 1);
    let part = o + up(h, n - 1);
    lemma_dec2(pair, x, y, n - 1, part, g, f);
    lemma_dec2(other, z, s[3], n, o, g, f);
    assert(dec4_odd(i, n, o) == dec2(pair, n - 1, part) + dec2(other, n, o));
    lemma_weight_add(dec2(pair, n - 1, part), dec2(other, n, o), f);
    lemma_weight_of(s, f);
}

pub proof fn lemma_pack4_bound(s: Seq<int>, n: int, o: int, g: spec_fn(int) -> bool)
    requires
        3 <= n <= 4,
        aligned(n, o),
        s.len() == 4,
        on_part(s, n, o, g),
    ensures
        0 <= pack4(s, n) < up(1, 4 * n),
{
    let n1 = n - 1;
    let j = o + up(1, n1);
    lemma_halves(s, n, o, g, |v: int| 0);
    lemma_small(1);
    lemma_small(2);
    lemma_small(3);
    lemma_up(0, 0, 4 * n - 2, 0);
    lemma_up(0, 0, 4 * n - 3, 0);
    let l = half_of(s, n1, 0);
    let h = half_of(s, n1, 1);
    if l.len() == 0 {
        lemma_pack4_odd_bound(h, n1, j, g);
        lemma_three_bound(4 * n - 3, 1, 2, pack4_odd(h[0], h[1], h[2], h[3], n1), 1, 0);
    } else if l.len() == 1 {
        lemma_pack1_bound(l[0], n1, o, g);
        lemma_pack3_bound(h[0], h[1], h[2], n1, j, g);
        lemma_three_bound(3 * n1 + 1, n1 + 1, 2, pack3(h[0], h[1], h[2], n1), pack1(l[0], n1), 1);
    } else if l.len() == 2 {
        lemma_pack2_bound(l[0], l[1], n1, o, g);
        lemma_pack2_bound(h[0], h[1], n1, j, g);
        lemma_three_bound(
            2 * n1 + 1,
            2 * n1 + 1,
            2,
            pack2(h[0], h[1], n1),
            pack2(l[0], l[1], n1),
            2,
        );
    } else if l.len() == 3 {
        lemma_pack3_bound(l[0], l[1], l[2], n1, o, g);
        lemma_pack1_bound(h[0], n1, j, g);
        lemma_three_bound(n, 3 * n1 + 1, 2, pack1(h[0], n1), pack3(l[0], l[1], l[2], n1), 3);
    } else {
        lemma_pack4_odd_bound(l, n1, o, g);
        lemma_three_bound(4 * n - 3, 1, 2, pack4_odd(l[0], l[1], l[2], l[3], n1), 0, 0);
    }
}

pub proof fn lemma_dec4(
    i: int,
    s: Seq<int>,
    n: int,
    o: int,
    g: spec_fn(int) -> bool,
    f: spec_fn(int) -> int,
)
    requires
        3 <= n <= 4,
        aligned(n, o),
        s.len() == 4,
        on_part(s, n, o, g),
        i >= 0,
        low(i, 4 * n) == pack4(s, n),
    ensures
        dec4(i, n, o).len() == 4,
        weight(dec4(i, n, o), f) == weight(s, f),
{
    let n1 = n - 1;
    let j = o + up(1, n1);
    lemma_halves(s, n, o, g, f);
    lemma_small(1);
    lemma_small(2);
    lemma_small(3);
    lemma_up(0, 0, 4 * n - 2, 0);
    lemma_up(0, 0, 4 * n - 3, 0);
    let l = half_of(s, n1, 0);
    let h = half_of(s, n1, 1);
    lemma_weight_of(l, f);
    lemma_weight_of(h, f);
    if l.len() == 0 {
        assert(l =~= Seq::<int>::empty());
        lemma_pack4_odd_bound(h, n1, j, g);
        lemma_three(i, 4 * n - 3, 1, 2, pack4_odd(h[0], h[1], h[2], h[3], n1), 1, 0);
        lemma_dec4_odd(i, h, n1, j, g, f);
    } else if l.len() == 1 {
        lemma_pack1_bound(l[0], n1, o, g);
        lemma_pack3_bound(h[0], h[1], h[2], n1, j, g);
        lemma_three(i, 3 * n1 + 1, n1 + 1, 2, pack3(h[0], h[1], h[2], n1), pack1(l[0], n1), 1);
        lemma_dec1(down(i, 3 * n1 + 1), l[0], n1, o, g);
        lemma_dec3(i, h[0], h[1], h[2], n1, j, g, f);
        lemma_weight_add(seq![l[0]], dec3(i, n1, j), f);
        lemma_weight_of(seq![l[0]], f);
    } else if l.len() == 2 {
        lemma_pack2_bound(l[0], l[1], n1, o, g);
        lemma_pack2_bound(h[0], h[1], n1, j, g);
        lemma_three(
            i,
            2 * n1 + 1,
            2 * n1 + 1,
            2,
            pack2(h[0], h[1], n1),
            pack2(l[0], l[1], n1),
            2,
        );
        lemma_dec2(down(i, 2 * n1 + 1), l[0], l[1], n1, o, g, f);
        lemma_dec2(i, h[0], h[1], n1, j, g, f);
        lemma_weight_add(dec2(down(i, 2 * n1 + 1), n1, o), dec2(i, n1, j), f);
    } else if l.len() == 3 {
        lemma_pack3_bound(l[0], l[1], l[2], n1, o, g);
        lemma_pack1_bound(h[0], n1, j, g);
        lemma_three(i, n, 3 * n1 + 1, 2, pack1(h[0], n1), pack3(l[0], l[1], l[2], n1), 3);
        lemma_dec3(down(i, n), l[0], l[1], l[2], n1, o, g, f);
        lemma_dec1(i, h[0], n1, j, g);
        let d = dec3(down(i, n), n1, o);
        assert(d.push(h[0]).drop_last() =~= d);
    } else {
        assert(h =~= Seq::<int>::empty());
        lemma_pack4_odd_bound(l, n1, o, g);
        lemma_three(i, 4 * n - 3, 1, 2, pack4_odd(l[0], l[1], l[2], l[3], n1), 0, 0);
        lemma_dec4_odd(i, l, n1, o, g, f);
    }
}

/// The three pulses of the fuller half and the two others.
pub open spec fn five_parts(s: Seq<int>, n: int) -> (Seq<int>, int, int, int) {
    let l = half_of(s, n - 1, 0);
    let h = half_of(s, n - 1, 1);
    if l.len() == 0 {
        (h, h[3], h[4], 1)
    } else if l.len() == 1 {
        (h, h[3], l[0], 1)
    } else if l.len() == 2 {
        (h, l[0], l[1], 1)
    } else if l.len() == 3 {
        (l, h[0], h[1], 0)
    } else if l.len() == 4 {
        (l, l[3], h[0], 0)
    } else {
        (l, l[3], l[4], 0)
    }
}

pub proof fn lemma_five(
    s: Seq<int>,
    n: int,
    o: int,
    g: spec_fn(int) -> bool,
    f: spec_fn(int) -> int,
)
    requires
        3 <= n <= 4,
        aligned(n, o),
        s.len() == 5,
        on_part(s, n, o, g),
    ensures
        ({
            let (t, x, y, side) = five_parts(s, n);
            let part = o + up(side, n - 1);
            let three = pack3(t[0], t[1], t[2], n - 1);
            let two = pack2(x, y, n);
            &&& 0 <= side <= 1
            &&& aligned(n - 1, part)
            &&& placed(t[0], n - 1, part, g)
            &&& placed(t[1], n - 1, part, g)
            &&& placed(t[2], n - 1, part, g)
            &&& placed(x, n, o, g)
            &&& placed(y, n, o, g)
            &&& 0 <= three < up(1, 3 * n - 2)
            &&& 0 <= two < up(1, 2 * n + 1)
            &&& pack5(s, n) == two + up(three, 2 * n + 1) + up(side, 5 * n - 1)
            &&& 0 <= pack5(s, n) < up(1, 5 * n)
            &&& weight(s, f) == f(t[0]) + f(t[1]) + f(t[2]) + f(x) + f(y)
        }),
{
    lemma_halves(s, n, o, g, f);
    lemma_small(1);
    lemma_up(0, 0, 5 * n - 1, 0);
    lemma_up(0, 0, n - 1, 0);
    let l = half_of(s, n - 1, 0);
    let h = half_of(s, n - 1, 1);
    lemma_weight_of(l, f);
    lemma_weight_of(h, f);
    if l.len() == 0 {
        assert(l =~= Seq::<int>::empty());
    }
    if h.len() == 0 {
        assert(h =~= Seq::<int>::empty());
    }
    assert forall|x: int| 0 <= x < l.len() implies placed(#[trigger] l[x], n, o, g) by {
        lemma_widen(l[x], n, o, 0, g);
    }
    assert forall|x: int| 0 <= x < h.len() implies placed(#[trigger] h[x], n, o, g) by {
        lemma_widen(h[x], n, o, 1, g);
    }
    let (t, x, y, side) = five_parts(s, n);
    let part = o + up(side, n - 1);
    lemma_pack3_bound(t[0], t[1], t[2], n - 1, part, g);
    lemma_pack2_bound(x, y, n, o, g);
    lemma_three_bound(2 * n + 1, 3 * n - 2, 1, pack2(x, y, n), pack3(t[0], t[1], t[2], n - 1), side);
}

/// A pulse on a half lies on the whole.
proof fn lemma_widen(v: int, n: int, o: int, side: int, g: spec_fn(int) -> bool)
    requires
        1 <= n <= 4,
        0 <= side <= 1,
        placed(v, n - 1, o + up(side, n - 1), g),
    ensures
        placed(v, n, o, g),
{
    lemma_small(1);
    lemma_small(side);
    if n == 1 {
    } else if n == 2 {
    } else if n == 3 {
    } else {
    }
}

pub proof fn lemma_dec5(
    i: int,
    s: Seq<int>,
    n: int,
    o: int,
    g: spec_fn(int) -> bool,
    f: spec_fn(int) -> int,
)
    requires
        3 <= n <= 4,
        aligned(n, o),
        s.len() == 5,
        on_part(s, n, o, g),
        i >= 0,
        low(i, 5 * n) == pack5(s, n),
    ensures
        dec5(i, n, o).len() == 5,
        weight(dec5(i, n, o), f) == weight(s, f),
{
    lemma_five(s, n, o, g, f);
    lemma_small(1);
    lemma_up(0, 0, n - 1, 0);
    let (t, x, y, side) = five_parts(s, n);
    let part = o + up(side, n - 1);
    let three = pack3(t[0], t[1], t[2], n - 1);
    lemma_three(i, 2 * n + 1, 3 * n - 2, 1, pack2(x, y, n), three, side);
    lemma_dec3(down(i, 2 * n + 1), t[0], t[1], t[2], n - 1, part, g, f);
    lemma_dec2(i, x, y, n, o, g, f);
    lemma_weight_add(dec3(down(i, 2 * n + 1), n - 1, part), dec2(i, n, o), f);
}

/// The fuller half of six, what is left, and the class of the split.
pub open spec fn six_parts(s: Seq<int>, n: int) -> (Seq<int>, Seq<int>, int) {
    let l = half_of(s, n - 1, 0);
    let h = half_of(s, n - 1, 1);
    if l.len() < 3 {
        (h, l, 1)
    } else {
        (l, h, 0)
    }
}

pub proof fn lemma_dec6(i: int, s: Seq<int>, g: spec_fn(int) -> bool, f: spec_fn(int) -> int)
    requires
        s.len() == 6,
        on_part(s, 4, 0, g),
        i >= 0,
        low(i, 22) == pack6(s, 4),
    ensures
        dec6(i, 4, 0).len() == 6,
        weight(dec6(i, 4, 0), f) == weight(s, f),
{
    lemma_small(1);
    lemma_small(0);
    lemma_small(2);
    lemma_small(3);
    lemma_halves(s, 4, 0, g, f);
    lemma_up(0, 0, 19, 0);
    lemma_up(0, 0, 20, 0);
    let l = half_of(s, 3, 0);
    let h = half_of(s, 3, 1);
    lemma_weight_of(l, f);
    lemma_weight_of(h, f);
    if l.len() == 3 {
        let low_three = pack3(l[0], l[1], l[2], 3);
        let high_three = pack3(h[0], h[1], h[2], 3);
        lemma_pack3_bound(l[0], l[1], l[2], 3, 0, g);
        lemma_pack3_bound(h[0], h[1], h[2], 3, 8, g);
        lemma_three(i, 10, 10, 2, high_three, low_three, 3);
        lemma_dec3(down(i, 10), l[0], l[1], l[2], 3, 0, g, f);
        lemma_dec3(i, h[0], h[1], h[2], 3, 8, g, f);
        lemma_weight_add(dec3(down(i, 10), 3, 0), dec3(i, 3, 8), f);
    } else {
        let (full, rest, side) = six_parts(s, 4);
        let part = 8 * side;
        let other = 8 - part;
        lemma_up(side, 0, 19, 0);
        assert(on_part(full, 3, part, g) && on_part(rest, 3, other, g) && aligned(3, part)
            && aligned(3, other));
        if full.len() == 6 {
            let five = full.take(5);
            assert(on_part(five, 3, part, g));
            lemma_five(five, 3, part, g, f);
            lemma_pack1_bound(full[5], 3, part, g);
            lemma_three_split(i, 4, 15, pack1(full[5], 3), pack5(five, 3), side, 0);
            lemma_dec5(down(i, 4), five, 3, part, g, f);
            lemma_dec1(i, full[5], 3, part, g);
            assert(full.drop_last() =~= five);
            let d = dec5(down(i, 4), 3, part);
            assert(d.push(full[5]).drop_last() =~= d);
        } else if full.len() == 5 {
            lemma_five(full, 3, part, g, f);
            lemma_pack1_bound(rest[0], 3, other, g);
            lemma_three_split(i, 4, 15, pack1(rest[0], 3), pack5(full, 3), side, 1);
            lemma_dec5(down(i, 4), full, 3, part, g, f);
            lemma_dec1(i, rest[0], 3, other, g);
            let d = dec5(down(i, 4), 3, part);
            assert(d.push(rest[0]).drop_last() =~= d);
        } else {
            lemma_pack4_bound(full, 3, part, g);
            lemma_pack2_bound(rest[0], rest[1], 3, other, g);
            lemma_three_split(i, 7, 12, pack2(rest[0], rest[1], 3), pack4(full, 3), side, 2);
            lemma_dec4(down(i, 7), full, 3, part, g, f);
            lemma_dec2(i, rest[0], rest[1], 3, other, g, f);
            lemma_weight_add(dec4(down(i, 7), 3, part), dec2(i, 3, other), f);
        }
    }
}

/// Six pulses fill at most 22 bits.
pub proof fn lemma_pack6_bound(s: Seq<int>, g: spec_fn(int) -> bool)
    requires
        s.len() == 6,
        on_part(s, 4, 0, g),
    ensures
        0 <= pack6(s, 4) < up(1, 22),
{
    let f = |v: int| 0int;
    lemma_small(1);
    lemma_small(0);
    lemma_small(2);
    lemma_small(3);
    lemma_halves(s, 4, 0, g, f);
    lemma_up(0, 0, 19, 0);
    lemma_up(0, 0, 20, 0);
    let l = half_of(s, 3, 0);
    let h = half_of(s, 3, 1);
    if l.len() == 3 {
        lemma_pack3_bound(l[0], l[1], l[2], 3, 0, g);
        lemma_pack3_bound(h[0], h[1], h[2], 3, 8, g);
        lemma_three_bound(10, 10, 2, pack3(h[0], h[1], h[2], 3), pack3(l[0], l[1], l[2], 3), 3);
    } else {
        let (full, rest, side) = six_parts(s, 4);
        let part = 8 * side;
        let other = 8 - part;
        assert(on_part(full, 3, part, g) && on_part(rest, 3, other, g) && aligned(3, part)
            && aligned(3, other));
        if full.len() == 6 {
            let five = full.take(5);
            assert(on_part(five, 3, part, g));
            lemma_five(five, 3, part, g, f);
            lemma_pack1_bound(full[5], 3, part, g);
            lemma_split_bound(4, 15, pack1(full[5], 3), pack5(five, 3), side, 0);
        } else if full.len() == 5 {
            lemma_five(full, 3, part, g, f);
            lemma_pack1_bound(rest[0], 3, other, g);
            lemma_split_bound(4, 15, pack1(rest[0], 3), pack5(full, 3), side, 1);
        } else {
            lemma_pack4_bound(full, 3, part, g);
            lemma_pack2_bound(rest[0], rest[1], 3, other, g);
            lemma_split_bound(7, 12, pack2(rest[0], rest[1], 3), pack4(full, 3), side, 2);
        }
    }
}

proof fn lemma_split_bound(a: int, b: int, x: int, y: int, side: int, class: int)
    requires
        a >= 0,
        b >= 0,
        a + b == 19,
        0 <= x < up(1, a),
        0 <= y < up(1, b),
        0 <= side <= 1,
        0 <= class <= 3,
    ensures
        0 <= x + up(y, a) + up(side, 19) + up(class, 20) < up(1, 22),
{
    lemma_small(1);
    lemma_three_bound(a, b, 1, x, y, side);
    lemma_concat_bound(20, 2, x + up(y, a) + up(side, 19), class);
}

/// Two fields, a side bit and a class, 22 bits in all.
proof fn lemma_three_split(i: int, a: int, b: int, x: int, y: int, side: int, class: int)
    requires
        i >= 0,
        a >= 0,
        b >= 0,
        a + b == 19,
        0 <= x < up(1, a),
        0 <= y < up(1, b),
        0 <= side <= 1,
        0 <= class <= 3,
        low(i, 22) == x + up(y, a) + up(side, 19) + up(class, 20),
    ensures
        low(i, a) == x,
        low(down(i, a), b) == y,
        bit(i, 19) == side,
        low(down(i, 20), 2) == class,
        down(i, a) >= 0,
{
    lemma_small(1);
    lemma_small(class);
    lemma_up(class, 0, 1, 19);
    lemma_up(side, up(class, 1), 19, 0);
    lemma_concat_bound(1, 2, side, class);
    lemma_three(i, a, b, 3, x, y, side + up(class, 1));
    lemma_concat(down(i, 19), 1, 2, side, class);
    lemma_up(i, 0, 19, 1);
}

// ---------------------------------------------------------------------------
// Executable fields
// ---------------------------------------------------------------------------

/// `2^n`.
pub fn power(n: u32) -> (p: u32)
    requires
        n <= 22,
    ensures
        p == pow2(n as nat),
        p == up(1, n as int),
        1 <= p <= 0x40_0000,
{
    let mut p: u32 = 1;
    let mut i: u32 = 0;
    proof {
        reveal(up);
        lemma2_to64();
    }
    while i < n
        invariant
            i <= n <= 22,
            p == pow2(i as nat),
            1 <= p <= 0x40_0000,
        decreases n - i,
    {
        proof {
            lemma2_to64();
            lemma_pow2_adds(i as nat, 1);
            if i < 21 {
                vstd::arithmetic::power2::lemma_pow2_strictly_increases((i + 1) as nat, 22);
            }
        }
        p = p * 2;
        i = i + 1;
    }
    p
}

/// The low `n` bits.
pub fn low_bits(x: u32, n: u32) -> (r: u32)
    requires
        n <= 22,
    ensures
        r == low(x as int, n as int),
        r < up(1, n as int),
{
    proof {
        reveal(low);
    }
    x % power(n)
}

/// The bits above the low `n`.
pub fn high_bits(x: u32, n: u32) -> (r: u32)
    requires
        n <= 22,
    ensures
        r == down(x as int, n as int),
        r <= x,
{
    proof {
        reveal(down);
    }
    let p: u32 = power(n);
    proof {
        assert(x as int / p as int <= x) by (nonlinear_arith)
            requires
                p >= 1,
        ;
    }
    x / p
}

/// Bit `n`.
pub fn bit_at(x: u32, n: u32) -> (r: u32)
    requires
        n <= 22,
    ensures
        r == bit(x as int, n as int),
        r <= 1,
{
    proof {
        lemma_small(1);
    }
    low_bits(high_bits(x, n), 1)
}

/// `x * 2^n` where `x` has at most `w` bits and the product at most 22.
pub fn shifted(x: u32, n: u32, Ghost(w): Ghost<int>) -> (r: u32)
    requires
        n <= 22,
        0 <= w,
        x < up(1, w),
        n + w <= 22,
    ensures
        r == up(x as int, n as int),
        r < up(1, n + w),
        r <= 0x40_0000,
{
    let p: u32 = power(n);
    proof {
        reveal(up);
        lemma2_to64();
        lemma_pow2_adds(n as nat, w as nat);
        if n + w < 22 {
            vstd::arithmetic::power2::lemma_pow2_strictly_increases((n + w) as nat, 22);
        }
        lemma_pow2_pos(n as nat);
        let pw = pow2(w as nat) as int;
        assert(x * p < p * pw && x * p >= 0) by (nonlinear_arith)
            requires
                0 <= x < pw,
                p >= 1,
        ;
        assert(p * pw == pow2((n + w) as nat));
    }
    x * p
}

} // verus!
