//! Names and their order.

use vstd::multiset::Multiset;
use vstd::prelude::*;
use vstd::string::StrSliceExecFns;

verus! {

/// Order of names: by their characters, one by one; a name comes before its extensions.
pub open spec fn name_less(a: Seq<char>, b: Seq<char>) -> bool
    decreases a.len(),
{
    if b.len() == 0 {
        false
    } else if a.len() == 0 {
        true
    } else if a[0] != b[0] {
        (a[0] as int) < (b[0] as int)
    } else {
        name_less(a.drop_first(), b.drop_first())
    }
}

/// Whether `a` comes before `b`.
pub fn comes_before(a: &str, b: &str) -> (r: bool)
    ensures
        r == name_less(a@, b@),
{
    let n: usize = a.unicode_len();
    let m: usize = b.unicode_len();
    let mut i: usize = 0;
    assert(a@.skip(0) =~= a@ && b@.skip(0) =~= b@);
    while i < n && i < m
        invariant
            n == a@.len(),
            m == b@.len(),
            i <= n,
            i <= m,
            name_less(a@, b@) == name_less(a@.skip(i as int), b@.skip(i as int)),
        decreases n - i,
    {
        let x: char = a.get_char(i);
        let y: char = b.get_char(i);
        proof {
            assert(a@.skip(i as int)[0] == x && b@.skip(i as int)[0] == y);
            assert(a@.skip(i as int).drop_first() =~= a@.skip(i + 1));
            assert(b@.skip(i as int).drop_first() =~= b@.skip(i + 1));
        }
        if x != y {
            return (x as u32) < (y as u32);
        }
        i += 1;
    }
    i < m
}

/// Whether two names are the same.
pub fn same_name(a: &str, b: &str) -> (r: bool)
    ensures
        r == (a@ == b@),
{
    let n: usize = a.unicode_len();
    if n != b.unicode_len() {
        return false;
    }
    let mut i: usize = 0;
    while i < n
        invariant
            n == a@.len(),
            n == b@.len(),
            i <= n,
            forall|j: int| 0 <= j < i ==> #[trigger] a@[j] == b@[j],
        decreases n - i,
    {
        if a.get_char(i) != b.get_char(i) {
            return false;
        }
        i += 1;
    }
    proof {
        assert(a@ =~= b@);
    }
    true
}

/// Something with a name.
pub trait Named: Sized {
    spec fn name(&self) -> Seq<char>;

    fn name_str(&self) -> (r: &str)
        ensures
            r@ == self.name(),
    ;
}

impl Named for String {
    open spec fn name(&self) -> Seq<char> {
        self@
    }

    fn name_str(&self) -> (r: &str) {
        self.as_str()
    }
}

/// No item's name comes before that of an earlier one.
pub open spec fn by_name<T: Named>(s: Seq<T>) -> bool {
    forall|i: int, j: int|
        0 <= i < j < s.len() ==> !name_less((#[trigger] s[j]).name(), (#[trigger] s[i]).name())
}

/// The order of names is total.
pub proof fn lemma_name_order(a: Seq<char>, b: Seq<char>, c: Seq<char>)
    ensures
        !name_less(a, a),
        name_less(a, b) ==> !name_less(b, a),
        !name_less(a, b) && !name_less(b, a) ==> a == b,
        !name_less(b, a) && !name_less(c, b) ==> !name_less(c, a),
    decreases a.len() + b.len() + c.len(),
{
    let (x, y, z) = (
        if a.len() > 0 {
            a.drop_first()
        } else {
            a
        },
        if b.len() > 0 {
            b.drop_first()
        } else {
            b
        },
        if c.len() > 0 {
            c.drop_first()
        } else {
            c
        },
    );
    if a.len() > 0 || b.len() > 0 || c.len() > 0 {
        lemma_name_order(x, y, z);
        if a.len() > 0 && b.len() > 0 && a[0] == b[0] && x == y {
            assert(a =~= seq![a[0]] + x);
            assert(b =~= seq![b[0]] + y);
        }
    }
    if a.len() == 0 && b.len() == 0 {
        assert(a =~= b);
    }
}

/// The items in the order of their names.
pub fn sorted_by_name<T: Named>(v: Vec<T>) -> (r: Vec<T>)
    ensures
        by_name(r@),
        r@.to_multiset() == v@.to_multiset(),
        r.len() == v.len(),
{
    broadcast use vstd::seq_lib::group_to_multiset_ensures;

    let ghost all = v@.to_multiset();
    let ghost len = v@.len();
    let mut v: Vec<T> = v;
    let mut r: Vec<T> = Vec::new();
    proof {
        assert(r@.to_multiset() =~= Multiset::empty());
        assert(v@.to_multiset().add(r@.to_multiset()) =~= all);
    }
    while v.len() > 0
        invariant
            by_name(r@),
            v@.to_multiset().add(r@.to_multiset()) == all,
            v@.len() + r@.len() == len,
        decreases v.len(),
    {
        broadcast use vstd::seq_lib::group_to_multiset_ensures;

        let ghost v0 = v@;
        let ghost r0 = r@;
        let x: T = match v.pop() {
            Some(x) => x,
            None => {
                return r;
            },
        };
        let mut i: usize = 0;
        while i < r.len() && comes_before(r[i].name_str(), x.name_str())
            invariant
                i <= r.len(),
                r@ == r0,
                forall|j: int| 0 <= j < i ==> name_less((#[trigger] r@[j]).name(), x.name()),
            decreases r.len() - i,
        {
            i += 1;
        }
        let ghost k = i as int;
        assert(k < r0.len() ==> !name_less(r0[k].name(), x.name()));
        r.insert(i, x);
        proof {
            let s = r@;
            assert(s =~= r0.insert(k, x));
            assert(s.remove(k) =~= r0);
            assert(s[k] == x);
            assert(v0 =~= v@.push(x));
            assert(v0.to_multiset() =~= v@.to_multiset().insert(x));
            assert(s.to_multiset().remove(x) =~= r0.to_multiset());
            assert(s.contains(x));
            assert(s.to_multiset() =~= r0.to_multiset().insert(x));
            assert(v@.to_multiset().add(s.to_multiset()) =~= all);
            assert forall|a: int, b: int| 0 <= a < b < s.len() implies !name_less(
                (#[trigger] s[b]).name(),
                (#[trigger] s[a]).name(),
            ) by {
                let p = if a < k {
                    a
                } else {
                    a - 1
                };
                let q = if b < k {
                    b
                } else {
                    b - 1
                };
                if a == k {
                    assert(s[b] == r0[q]);
                    assert(k < r0.len());
                    if q > k {
                        assert(!name_less(r0[q].name(), r0[k].name()));
                    } else {
                        lemma_name_order(r0[q].name(), r0[q].name(), r0[q].name());
                    }
                    lemma_name_order(x.name(), r0[k].name(), r0[q].name());
                } else if b == k {
                    assert(s[a] == r0[p]);
                    assert(name_less(r0[p].name(), x.name()));
                    lemma_name_order(r0[p].name(), x.name(), x.name());
                } else {
                    assert(s[a] == r0[p] && s[b] == r0[q]);
                    assert(!name_less(r0[q].name(), r0[p].name()));
                }
            }
        }
    }
    proof {
        assert(v@.to_multiset() =~= Multiset::empty());
        assert(r@.to_multiset() =~= all);
    }
    r
}

/// Names are ordered by the first place at which they differ, the lower character first; a name comes
/// before every longer one that begins with it.
pub proof fn lemma_first_difference_orders(a: Seq<char>, b: Seq<char>, k: int)
    requires
        0 <= k <= a.len(),
        k < b.len(),
        forall|i: int| 0 <= i < k ==> a[i] == b[i],
        k < a.len() ==> (a[k] as int) < (b[k] as int),
    ensures
        name_less(a, b),
    decreases k,
{
    if k > 0 {
        let (x, y) = (a.drop_first(), b.drop_first());
        assert(a[0] == b[0]);
        assert forall|i: int| 0 <= i < k - 1 implies x[i] == y[i] by {
            assert(a[i + 1] == b[i + 1]);
        }
        lemma_first_difference_orders(x, y, k - 1);
    }
}

} // verus!
