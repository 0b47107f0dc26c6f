//! Merge sort over a type's own order.

use vstd::prelude::*;
use vstd::seq_lib::lemma_multiset_commutative;

verus! {

/// A type whose values come in an order.
pub trait Ranked: Sized + Copy {
    /// `self` belongs strictly before `o`.
    spec fn before(self, o: Self) -> bool;

    fn is_before(&self, o: &Self) -> (r: bool)
        ensures
            r == self.before(*o),
    ;

    /// The order is a strict weak order.
    proof fn law(a: Self, b: Self, c: Self)
        ensures
            !(Self::before(a, b) && Self::before(b, a)),
            !Self::before(b, a) && !Self::before(c, b) ==> !Self::before(c, a),
    ;
}

/// No item belongs strictly before an earlier one.
pub open spec fn ordered<T: Ranked>(s: Seq<T>) -> bool {
    forall|i: int, j: int| 0 <= i < j < s.len() ==> !(#[trigger] s[j]).before(#[trigger] s[i])
}

fn merge<T: Ranked>(a: &Vec<T>, b: &Vec<T>) -> (r: Vec<T>)
    requires
        ordered(a@),
        ordered(b@),
        a.len() + b.len() <= usize::MAX,
    ensures
        ordered(r@),
        r@.to_multiset() == a@.to_multiset().add(b@.to_multiset()),
        r.len() == a.len() + b.len(),
{
    broadcast use vstd::seq_lib::group_to_multiset_ensures;

    let mut r: Vec<T> = Vec::with_capacity(a.len() + b.len());
    let mut i: usize = 0;
    let mut j: usize = 0;
    proof {
        assert(a@.subrange(0, 0) =~= Seq::<T>::empty());
        assert(b@.subrange(0, 0) =~= Seq::<T>::empty());
        assert(r@.to_multiset() =~= a@.subrange(0, 0).to_multiset().add(b@.subrange(0, 0).to_multiset()));
    }
    while i < a.len() || j < b.len()
        invariant
            i <= a.len(),
            j <= b.len(),
            ordered(a@),
            ordered(b@),
            ordered(r@),
            r.len() == i + j,
            forall|k: int, l: int|
                0 <= k < r.len() && i <= l < a.len() ==> !(#[trigger] a@[l]).before(#[trigger] r@[k]),
            forall|k: int, l: int|
                0 <= k < r.len() && j <= l < b.len() ==> !(#[trigger] b@[l]).before(#[trigger] r@[k]),
            r@.to_multiset() == a@.subrange(0, i as int).to_multiset().add(
                b@.subrange(0, j as int).to_multiset(),
            ),
        decreases a.len() - i + b.len() - j,
    {
        broadcast use vstd::seq_lib::group_to_multiset_ensures;

        let from_b: bool = i >= a.len() || (j < b.len() && b[j].is_before(&a[i]));
        let ghost r0 = r@;
        if from_b {
            r.push(b[j]);
            proof {
                let x = b@[j as int];
                assert(b@.subrange(0, j + 1) =~= b@.subrange(0, j as int).push(x));
                assert(r@ =~= r0.push(x));
                assert(r@.to_multiset() =~= a@.subrange(0, i as int).to_multiset().add(
                    b@.subrange(0, j + 1).to_multiset(),
                ));
                assert forall|l: int| i <= l < a.len() implies !(#[trigger] a@[l]).before(x) by {
                    T::law(x, a@[i as int], a@[l]);
                    if l > i {
                        assert(!a@[l].before(a@[i as int]));
                    }
                }
                assert forall|l: int| j + 1 <= l < b.len() implies !(#[trigger] b@[l]).before(x) by {}
                assert forall|k: int, l: int| 0 <= k < l < r@.len() implies !(#[trigger] r@[l]).before(
                    #[trigger] r@[k],
                ) by {
                    if l < r0.len() {
                        assert(r@[l] == r0[l] && r@[k] == r0[k]);
                    } else {
                        assert(r@[k] == r0[k]);
                    }
                }
            }
            j += 1;
        } else {
            r.push(a[i]);
            proof {
                let x = a@[i as int];
                assert(a@.subrange(0, i + 1) =~= a@.subrange(0, i as int).push(x));
                assert(r@ =~= r0.push(x));
                assert(r@.to_multiset() =~= a@.subrange(0, i + 1).to_multiset().add(
                    b@.subrange(0, j as int).to_multiset(),
                ));
                assert forall|l: int| j <= l < b.len() implies !(#[trigger] b@[l]).before(x) by {
                    T::law(x, b@[j as int], b@[l]);
                    if l > j {
                        assert(!b@[l].before(b@[j as int]));
                    }
                }
                assert forall|l: int| i + 1 <= l < a.len() implies !(#[trigger] a@[l]).before(x) by {}
                assert forall|k: int, l: int| 0 <= k < l < r@.len() implies !(#[trigger] r@[l]).before(
                    #[trigger] r@[k],
                ) by {
                    if l < r0.len() {
                        assert(r@[l] == r0[l] && r@[k] == r0[k]);
                    } else {
                        assert(r@[k] == r0[k]);
                    }
                }
            }
            i += 1;
        }
    }
    proof {
        assert(a@.subrange(0, a@.len() as int) =~= a@);
        assert(b@.subrange(0, b@.len() as int) =~= b@);
    }
    r
}

fn sort_range<T: Ranked>(v: &Vec<T>, lo: usize, hi: usize) -> (r: Vec<T>)
    requires
        lo <= hi <= v.len(),
    ensures
        ordered(r@),
        r@.to_multiset() == v@.subrange(lo as int, hi as int).to_multiset(),
        r.len() == hi - lo,
    decreases hi - lo,
{
    if hi - lo <= 1 {
        let mut r: Vec<T> = Vec::new();
        if lo < hi {
            r.push(v[lo]);
        }
        assert(r@ =~= v@.subrange(lo as int, hi as int));
        r
    } else {
        let mid: usize = lo + (hi - lo) / 2;
        let a: Vec<T> = sort_range(v, lo, mid);
        let b: Vec<T> = sort_range(v, mid, hi);
        proof {
            let s = v@.subrange(lo as int, mid as int);
            let t = v@.subrange(mid as int, hi as int);
            lemma_multiset_commutative(s, t);
            assert(s + t =~= v@.subrange(lo as int, hi as int));
        }
        merge(&a, &b)
    }
}

/// The items of `v` in order.
pub fn sorted<T: Ranked>(v: &Vec<T>) -> (r: Vec<T>)
    ensures
        ordered(r@),
        r@.to_multiset() == v@.to_multiset(),
        r.len() == v.len(),
{
    assert(v@.subrange(0, v@.len() as int) =~= v@);
    sort_range(v, 0, v.len())
}

/// Sequences with the same items hold each other's items.
pub proof fn lemma_same_items<T>(a: Seq<T>, b: Seq<T>)
    requires
        a.to_multiset() == b.to_multiset(),
    ensures
        a.len() == b.len(),
        forall|x: T| #[trigger] a.contains(x) <==> b.contains(x),
{
    broadcast use vstd::seq_lib::group_to_multiset_ensures;

    assert(a.to_multiset().len() == a.len());
    assert(b.to_multiset().len() == b.len());
    assert forall|x: T| #[trigger] a.contains(x) <==> b.contains(x) by {
        assert(a.contains(x) <==> a.to_multiset().count(x) > 0);
        assert(b.contains(x) <==> b.to_multiset().count(x) > 0);
    }
}

/// Sequences with the same, pairwise different items: if one has no item twice, neither has the
/// other.
pub proof fn lemma_same_distinct<T>(a: Seq<T>, b: Seq<T>)
    requires
        a.to_multiset() == b.to_multiset(),
        a.no_duplicates(),
    ensures
        b.no_duplicates(),
{
    broadcast use vstd::seq_lib::group_to_multiset_ensures;

    a.lemma_multiset_has_no_duplicates();
    assert forall|x: T| b.to_multiset().contains(x) implies b.to_multiset().count(x) == 1 by {
        assert(a.to_multiset().contains(x));
    }
    b.lemma_multiset_has_no_duplicates_conv();
}

/// Where only equal items are unordered, the order of the items is unique.
pub proof fn lemma_order_unique<T: Ranked>(a: Seq<T>, b: Seq<T>)
    requires
        ordered(a),
        ordered(b),
        a.to_multiset() == b.to_multiset(),
        forall|x: T, y: T|
            a.contains(x) && a.contains(y) && !#[trigger] x.before(y) && !y.before(x) ==> x == y,
    ensures
        a == b,
    decreases a.len(),
{
    broadcast use vstd::seq_lib::group_to_multiset_ensures;

    lemma_same_items(a, b);
    if a.len() > 0 {
        let n = a.len() - 1;
        let (x, y) = (a[n], b[n]);
        assert(a.contains(x) && b.contains(y));
        assert(a.contains(y) && b.contains(x));
        let i = choose|i: int| 0 <= i < a.len() && a[i] == y;
        let j = choose|j: int| 0 <= j < b.len() && b[j] == x;
        T::law(x, x, x);
        assert(!x.before(y)) by {
            if i < n {
                assert(!a[n].before(a[i]));
            }
        }
        assert(!y.before(x)) by {
            if j < n {
                assert(!b[n].before(b[j]));
            }
        }
        assert(x == y);
        let (c, d) = (a.remove(n), b.remove(n));
        assert(c.to_multiset() =~= d.to_multiset());
        assert forall|p: T, q: T|
            c.contains(p) && c.contains(q) && !#[trigger] p.before(q) && !q.before(p) implies p == q by {
            let u = choose|u: int| 0 <= u < c.len() && c[u] == p;
            let v = choose|v: int| 0 <= v < c.len() && c[v] == q;
            assert(a[u] == p && a[v] == q);
            assert(a.contains(p) && a.contains(q));
        }
        assert forall|u: int, v: int| 0 <= u < v < c.len() implies !(#[trigger] c[v]).before(
            #[trigger] c[u],
        ) by {
            assert(c[u] == a[u] && c[v] == a[v]);
        }
        assert forall|u: int, v: int| 0 <= u < v < d.len() implies !(#[trigger] d[v]).before(
            #[trigger] d[u],
        ) by {
            assert(d[u] == b[u] && d[v] == b[v]);
        }
        lemma_order_unique(c, d);
        assert(a =~= c.push(x));
        assert(b =~= d.push(x));
    }
}

} // verus!
