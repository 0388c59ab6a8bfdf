//! Order statistics of short histories.

use vstd::prelude::*;

verus! {

/// `v` put into a sorted sequence, behind its equals.
pub open spec fn inserted(t: Seq<i16>, v: i16) -> Seq<i16>
    decreases t.len(),
{
    if t.len() == 0 || t.last() <= v {
        t.push(v)
    } else {
        inserted(t.drop_last(), v).push(t.last())
    }
}

/// The values of `s` in ascending order.
pub open spec fn ascending(s: Seq<i16>) -> Seq<i16>
    decreases s.len(),
{
    if s.len() == 0 {
        s
    } else {
        inserted(ascending(s.drop_last()), s.last())
    }
}

/// No value is smaller than one before it.
pub open spec fn is_ascending(s: Seq<i16>) -> bool {
    forall|x: int, y: int| 0 <= x <= y < s.len() ==> #[trigger] s[x] <= #[trigger] s[y]
}

/// Every value lies between two bounds.
pub open spec fn within(s: Seq<i16>, low: i16, high: i16) -> bool {
    forall|x: int| 0 <= x < s.len() ==> low <= #[trigger] s[x] <= high
}

proof fn lemma_inserted(t: Seq<i16>, v: i16, low: i16, high: i16)
    requires
        is_ascending(t),
    ensures
        inserted(t, v).len() == t.len() + 1,
        is_ascending(inserted(t, v)),
        within(t, low, high) && low <= v <= high ==> within(inserted(t, v), low, high),
        exists|x: int| 0 <= x < inserted(t, v).len() && #[trigger] inserted(t, v)[x] == v,
        forall|x: int|
            0 <= x < t.len() ==> exists|y: int|
                0 <= y < inserted(t, v).len() && #[trigger] inserted(t, v)[y] == #[trigger] t[x],
        forall|y: int|
            0 <= y < inserted(t, v).len() ==> #[trigger] inserted(t, v)[y] == v || t.contains(
                inserted(t, v)[y],
            ),
    decreases t.len(),
{
    let r = inserted(t, v);
    if t.len() == 0 || t.last() <= v {
        assert(r[t.len() as int] == v);
        assert forall|x: int| 0 <= x < t.len() implies exists|y: int|
            0 <= y < r.len() && #[trigger] r[y] == #[trigger] t[x] by {
            assert(r[x] == t[x]);
        }
        assert forall|y: int| 0 <= y < r.len() implies #[trigger] r[y] == v || t.contains(r[y]) by {
            if y < t.len() {
                assert(t[y] == r[y]);
            }
        }
    } else {
        let rest = t.drop_last();
        lemma_inserted(rest, v, low, high);
        let q = inserted(rest, v);
        assert(within(t, low, high) ==> within(rest, low, high));
        assert forall|x: int, y: int| 0 <= x <= y < r.len() implies #[trigger] r[x]
            <= #[trigger] r[y] by {
            if y == r.len() - 1 && x < y {
                assert(q[x] == v || rest.contains(q[x]));
                if rest.contains(q[x]) {
                    let z = choose|z: int| 0 <= z < rest.len() && rest[z] == q[x];
                    assert(t[z] <= t[t.len() - 1]);
                }
            }
        }
        let w = choose|x: int| 0 <= x < q.len() && #[trigger] q[x] == v;
        assert(r[w] == v);
        assert forall|x: int| 0 <= x < t.len() implies exists|y: int|
            0 <= y < r.len() && #[trigger] r[y] == #[trigger] t[x] by {
            if x < rest.len() {
                assert(rest[x] == t[x]);
                let z = choose|z: int| 0 <= z < q.len() && #[trigger] q[z] == rest[x];
                assert(r[z] == t[x]);
            } else {
                assert(r[r.len() - 1] == t[x]);
            }
        }
        assert forall|y: int| 0 <= y < r.len() implies #[trigger] r[y] == v || t.contains(r[y]) by {
            if y < q.len() {
                if rest.contains(q[y]) {
                    let z = choose|z: int| 0 <= z < rest.len() && rest[z] == q[y];
                    assert(t[z] == r[y]);
                }
            } else {
                assert(t[t.len() - 1] == r[y]);
            }
        }
    }
}

/// What sorting keeps: as many values, in order, and the same bounds.
pub proof fn lemma_ascending(s: Seq<i16>, low: i16, high: i16)
    ensures
        ascending(s).len() == s.len(),
        is_ascending(ascending(s)),
        within(s, low, high) ==> within(ascending(s), low, high),
        forall|x: int|
            0 <= x < s.len() ==> exists|y: int|
                0 <= y < s.len() && #[trigger] ascending(s)[y] == #[trigger] s[x],
        forall|y: int| 0 <= y < s.len() ==> s.contains(#[trigger] ascending(s)[y]),
    decreases s.len(),
{
    if s.len() > 0 {
        let rest = s.drop_last();
        lemma_ascending(rest, low, high);
        lemma_inserted(ascending(rest), s.last(), low, high);
        assert(within(s, low, high) ==> within(rest, low, high));
        let r = ascending(s);
        assert forall|x: int| 0 <= x < s.len() implies exists|y: int|
            0 <= y < s.len() && #[trigger] r[y] == #[trigger] s[x] by {
            if x < rest.len() {
                assert(rest[x] == s[x]);
                let z = choose|z: int|
                    0 <= z < rest.len() && #[trigger] ascending(rest)[z] == rest[x];
                let w = choose|w: int| 0 <= w < r.len() && #[trigger] r[w] == ascending(rest)[z];
                assert(r[w] == s[x]);
            } else {
                let w = choose|w: int| 0 <= w < r.len() && #[trigger] r[w] == s.last();
                assert(r[w] == s[x]);
            }
        }
        assert forall|y: int| 0 <= y < s.len() implies s.contains(#[trigger] r[y]) by {
            if r[y] == s.last() {
                assert(s[s.len() - 1] == r[y]);
            } else {
                let a = ascending(rest);
                assert(a.contains(r[y]));
                let z = choose|z: int| 0 <= z < a.len() && a[z] == r[y];
                assert(rest.contains(a[z]));
                let w = choose|w: int| 0 <= w < rest.len() && rest[w] == a[z];
                assert(s[w] == r[y]);
            }
        }
    }
}

/// The values of a five-entry history in ascending order.
pub fn sort5(s: &[i16; 5]) -> (r: [i16; 5])
    ensures
        r@ == ascending(s@),
{
    let mut a: [i16; 5] = [0; 5];
    assert(a@.take(0) =~= ascending(s@.take(0)));
    for k in 0..5usize
        invariant
            a@.take(k as int) == ascending(s@.take(k as int)),
    {
        let v: i16 = s[k];
        let ghost p = a@.take(k as int);
        let mut j: usize = k;
        proof {
            assert(p.take(k as int) =~= p);
            assert(inserted(p, v) + p.subrange(k as int, k as int) =~= inserted(p, v));
        }
        while j > 0 && a[j - 1] > v
            invariant
                j <= k < 5,
                p.len() == k,
                inserted(p, v) == inserted(p.take(j as int), v) + p.subrange(j as int, k as int),
                forall|x: int| 0 <= x < j ==> #[trigger] a@[x] == p[x],
                forall|x: int| j < x <= k ==> #[trigger] a@[x] == p[x - 1],
            decreases j,
        {
            a[j] = a[j - 1];
            proof {
                let t = p.take(j as int);
                assert(t.last() == p[j - 1]);
                assert(t.drop_last() =~= p.take(j - 1));
                assert(inserted(t, v) + p.subrange(j as int, k as int) =~= inserted(
                    p.take(j - 1),
                    v,
                ) + p.subrange(j - 1, k as int));
            }
            j = j - 1;
        }
        a[j] = v;
        proof {
            let t = p.take(j as int);
            assert(t.len() == 0 || t.last() == p[j - 1]);
            assert(inserted(t, v) == t.push(v));
            assert(a@.take(k + 1) =~= inserted(p, v));
            assert(s@.take(k + 1).drop_last() =~= s@.take(k as int));
            assert(s@.take(k + 1).last() == v);
        }
    }
    proof {
        assert(a@.take(5) =~= a@);
        assert(s@.take(5) =~= s@);
    }
    a
}

} // verus!
