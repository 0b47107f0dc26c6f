//! Map from chunk coordinates to values, kept sorted by coordinate.

use crate::math::{lex_less, ChunkCoord, IVec3};
use vstd::prelude::*;

verus! {

/// Sorted association list. Lookups are binary searches; walking it by index visits the chunks in
/// ascending coordinate order.
#[derive(Debug)]
pub struct CoordMap<V> {
    entries: Vec<(ChunkCoord, V)>,
}

spec fn sorted<V>(s: Seq<(ChunkCoord, V)>) -> bool {
    forall|i: int, j: int| 0 <= i < j < s.len() ==> lex_less((#[trigger] s[i]).0.0, (#[trigger] s[j]).0.0)
}

proof fn lemma_lex_total(a: IVec3, b: IVec3)
    ensures
        lex_less(a, b) || lex_less(b, a) || a == b,
        !(lex_less(a, b) && lex_less(b, a)),
        !lex_less(a, a),
{
}

impl<V> CoordMap<V> {
    /// Keys are strictly ascending.
    pub closed spec fn wf(&self) -> bool {
        sorted(self.entries@)
    }

    /// Entries in key order.
    pub closed spec fn items(&self) -> Seq<(ChunkCoord, V)> {
        self.entries@
    }

    /// `c` has an entry.
    pub open spec fn has(&self, c: ChunkCoord) -> bool {
        exists|i: int| 0 <= i < self.items().len() && (#[trigger] self.items()[i]).0 == c
    }

    /// Where `c` stands among the entries.
    pub open spec fn index_of(&self, c: ChunkCoord) -> int {
        choose|i: int| 0 <= i < self.items().len() && (#[trigger] self.items()[i]).0 == c
    }

    /// The value of `c`.
    pub open spec fn at(&self, c: ChunkCoord) -> V {
        self.items()[self.index_of(c)].1
    }

    /// Keys are distinct, so an entry's index is that of its key.
    pub proof fn lemma_index(&self, i: int)
        requires
            self.wf(),
            0 <= i < self.items().len(),
        ensures
            self.has(self.items()[i].0),
            self.index_of(self.items()[i].0) == i,
            self.at(self.items()[i].0) == self.items()[i].1,
    {
        let c = self.items()[i].0;
        let k = self.index_of(c);
        if k < i {
            assert(lex_less(self.entries@[k].0.0, self.entries@[i].0.0));
        } else if i < k {
            assert(lex_less(self.entries@[i].0.0, self.entries@[k].0.0));
        }
    }

    pub proof fn lemma_ascending(&self, i: int, j: int)
        requires
            self.wf(),
            0 <= i < j < self.items().len(),
        ensures
            lex_less(self.items()[i].0.0, self.items()[j].0.0),
            self.items()[i].0 != self.items()[j].0,
    {
    }

    pub fn new() -> (r: Self)
        ensures
            r.wf(),
            r.items().len() == 0,
            forall|c: ChunkCoord| !r.has(c),
    {
        CoordMap { entries: Vec::new() }
    }

    pub fn len(&self) -> (r: usize)
        ensures
            r == self.items().len(),
    {
        self.entries.len()
    }

    /// First index whose key is not below `c`.
    fn lower_bound(&self, c: ChunkCoord) -> (r: usize)
        requires
            self.wf(),
        ensures
            r <= self.items().len(),
            forall|i: int| 0 <= i < r ==> lex_less((#[trigger] self.items()[i]).0.0, c.0),
            forall|i: int|
                r <= i < self.items().len() ==> !lex_less((#[trigger] self.items()[i]).0.0, c.0),
    {
        let mut lo: usize = 0;
        let mut hi: usize = self.entries.len();
        while lo < hi
            invariant
                self.wf(),
                lo <= hi <= self.entries.len(),
                forall|i: int| 0 <= i < lo ==> lex_less((#[trigger] self.entries@[i]).0.0, c.0),
                forall|i: int|
                    hi <= i < self.entries.len() ==> !lex_less((#[trigger] self.entries@[i]).0.0, c.0),
            decreases hi - lo,
        {
            let mid: usize = lo + (hi - lo) / 2;
            if self.entries[mid].0.0.lex_lt(c.0) {
                assert forall|i: int| 0 <= i < mid + 1 implies lex_less(
                    (#[trigger] self.entries@[i]).0.0,
                    c.0,
                ) by {
                    if i < mid {
                        assert(lex_less(self.entries@[i].0.0, self.entries@[mid as int].0.0));
                    }
                }
                lo = mid + 1;
            } else {
                assert forall|i: int| mid <= i < self.entries.len() implies !lex_less(
                    (#[trigger] self.entries@[i]).0.0,
                    c.0,
                ) by {
                    if i > mid {
                        assert(lex_less(self.entries@[mid as int].0.0, self.entries@[i].0.0));
                    }
                }
                hi = mid;
            }
        }
        lo
    }

    /// Index of `c`'s entry.
    pub fn find(&self, c: ChunkCoord) -> (r: Option<usize>)
        requires
            self.wf(),
        ensures
            match r {
                Some(i) => i < self.items().len() && self.items()[i as int].0 == c && self.has(c)
                    && self.index_of(c) == i && self.at(c) == self.items()[i as int].1,
                None => !self.has(c),
            },
    {
        let i: usize = self.lower_bound(c);
        proof {
            if self.has(c) {
                let k = self.index_of(c);
                lemma_lex_total(self.items()[k].0.0, c.0);
                if i < k {
                    assert(lex_less(self.entries@[i as int].0.0, self.entries@[k].0.0));
                }
                assert(k == i);
            }
        }
        if i < self.entries.len() && self.entries[i].0 == c {
            proof {
                self.lemma_index(i as int);
            }
            Some(i)
        } else {
            None
        }
    }

    pub fn contains_key(&self, c: ChunkCoord) -> (r: bool)
        requires
            self.wf(),
        ensures
            r == self.has(c),
    {
        self.find(c).is_some()
    }

    /// The value of `c`.
    pub fn get(&self, c: ChunkCoord) -> (r: Option<&V>)
        requires
            self.wf(),
        ensures
            match r {
                Some(v) => self.has(c) && *v == self.at(c),
                None => !self.has(c),
            },
    {
        match self.find(c) {
            Some(i) => Some(&self.entries[i].1),
            None => None,
        }
    }

    /// The entry at `i`.
    pub fn entry(&self, i: usize) -> (r: &(ChunkCoord, V))
        requires
            i < self.items().len(),
        ensures
            *r == self.items()[i as int],
    {
        &self.entries[i]
    }

    /// Sets the value of `c`.
    pub fn insert(&mut self, c: ChunkCoord, v: V)
        requires
            old(self).wf(),
            !old(self).has(c),
        ensures
            final(self).wf(),
            forall|k: ChunkCoord| #[trigger] final(self).has(k) <==> old(self).has(k) || k == c,
            final(self).at(c) == v,
            forall|k: ChunkCoord| old(self).has(k) ==> #[trigger] final(self).at(k) == old(self).at(k),
            exists|i: int|
                0 <= i <= old(self).items().len() && final(self).items() == #[trigger] old(
                    self,
                ).items().insert(i, (c, v)),
    {
        let i: usize = self.lower_bound(c);
        let ghost s0 = self.entries@;
        proof {
            if i < s0.len() && s0[i as int].0 == c {
                assert(self.has(self.items()[i as int].0));
            }
        }
        self.entries.insert(i, (c, v));
        proof {
            let s1 = self.entries@;
            assert(s1 =~= s0.insert(i as int, (c, v)));
            assert forall|a: int, b: int| 0 <= a < b < s1.len() implies lex_less(
                (#[trigger] s1[a]).0.0,
                (#[trigger] s1[b]).0.0,
            ) by {
                let a2 = if a < i { a } else { a - 1 };
                let b2 = if b < i { b } else { b - 1 };
                if a == i {
                    assert(s1[b] == s0[b2]);
                    lemma_lex_total(s0[b2].0.0, c.0);
                    if s0[b2].0.0 == c.0 {
                        assert(old(self).items()[b2].0 == c);
                    }
                } else if b == i {
                    assert(s1[a] == s0[a2]);
                } else {
                    assert(s1[a] == s0[a2] && s1[b] == s0[b2]);
                    assert(lex_less(s0[a2].0.0, s0[b2].0.0));
                }
            }
            self.lemma_index(i as int);
            assert forall|k: ChunkCoord| #[trigger] self.has(k) <==> old(self).has(k) || k == c by {
                if old(self).has(k) {
                    let j = old(self).index_of(k);
                    let j2 = if j < i { j } else { j + 1 };
                    assert(self.items()[j2].0 == k);
                }
                if self.has(k) && k != c {
                    let j = self.index_of(k);
                    let j2 = if j < i { j } else { j - 1 };
                    assert(old(self).items()[j2].0 == k);
                }
            }
            assert forall|k: ChunkCoord| old(self).has(k) implies #[trigger] self.at(k) == old(
                self,
            ).at(k) by {
                let j = old(self).index_of(k);
                let j2 = if j < i { j } else { j + 1 };
                assert(self.items()[j2] == old(self).items()[j]);
                self.lemma_index(j2);
            }
        }
    }

    /// Takes `c`'s entry out.
    pub fn remove(&mut self, c: ChunkCoord) -> (r: Option<V>)
        requires
            old(self).wf(),
        ensures
            final(self).wf(),
            match r {
                Some(v) => old(self).has(c) && v == old(self).at(c) && final(self).items() == old(
                    self,
                ).items().remove(old(self).index_of(c)),
                None => !old(self).has(c) && *final(self) == *old(self),
            },
            forall|k: ChunkCoord| #[trigger] final(self).has(k) <==> old(self).has(k) && k != c,
            forall|k: ChunkCoord| final(self).has(k) ==> #[trigger] final(self).at(k) == old(self).at(k),
    {
        match self.find(c) {
            None => None,
            Some(i) => {
                let ghost s0 = self.entries@;
                let (_, v) = self.entries.remove(i);
                proof {
                    let s1 = self.entries@;
                    assert(s1 =~= s0.remove(i as int));
                    assert forall|a: int, b: int| 0 <= a < b < s1.len() implies lex_less(
                        (#[trigger] s1[a]).0.0,
                        (#[trigger] s1[b]).0.0,
                    ) by {
                        let a2 = if a < i { a } else { a + 1 };
                        let b2 = if b < i { b } else { b + 1 };
                        assert(s1[a] == s0[a2] && s1[b] == s0[b2]);
                    }
                    assert forall|k: ChunkCoord| #[trigger] self.has(k) <==> old(self).has(k) && k
                        != c by {
                        if old(self).has(k) && k != c {
                            let j = old(self).index_of(k);
                            let j2 = if j < i { j } else { j - 1 };
                            assert(self.items()[j2].0 == k);
                        }
                        if self.has(k) {
                            let j = self.index_of(k);
                            let j2 = if j < i { j } else { j + 1 };
                            assert(old(self).items()[j2].0 == k);
                            if j2 < i {
                                old(self).lemma_ascending(j2, i as int);
                            } else {
                                old(self).lemma_ascending(i as int, j2);
                            }
                        }
                    }
                    assert forall|k: ChunkCoord| self.has(k) implies #[trigger] self.at(k) == old(
                        self,
                    ).at(k) by {
                        let j = self.index_of(k);
                        let j2 = if j < i { j } else { j + 1 };
                        assert(self.items()[j] == old(self).items()[j2]);
                        old(self).lemma_index(j2);
                    }
                }
                Some(v)
            },
        }
    }

    /// The value at `i`, to be changed in place.
    pub fn value_mut(&mut self, i: usize) -> (r: &mut V)
        requires
            i < old(self).items().len(),
        ensures
            *r == old(self).items()[i as int].1,
            final(self).items() == old(self).items().update(
                i as int,
                (old(self).items()[i as int].0, *final(r)),
            ),
    {
        &mut self.entries[i].1
    }

    /// There are as many keys as entries.
    pub proof fn lemma_count(&self, keys: Set<ChunkCoord>)
        requires
            self.wf(),
            forall|c: ChunkCoord| keys.contains(c) <==> self.has(c),
        ensures
            keys.finite(),
            keys.len() == self.items().len(),
    {
        let ks = Seq::new(self.items().len(), |i: int| self.items()[i].0);
        assert(ks.no_duplicates()) by {
            assert forall|i: int, j: int| 0 <= i < ks.len() && 0 <= j < ks.len() && i != j implies ks[i]
                != ks[j] by {
                if i < j {
                    self.lemma_ascending(i, j);
                } else {
                    self.lemma_ascending(j, i);
                }
            }
        }
        ks.unique_seq_to_set();
        assert(ks.to_set() =~= keys) by {
            assert forall|c: ChunkCoord| ks.to_set().contains(c) <==> keys.contains(c) by {
                if ks.contains(c) {
                    let i = choose|i: int| 0 <= i < ks.len() && ks[i] == c;
                    assert(self.items()[i].0 == c);
                }
                if self.has(c) {
                    let i = self.index_of(c);
                    assert(ks[i] == c);
                }
            }
        }
        vstd::seq_lib::seq_to_set_is_finite(ks);
    }

    /// Changing a value keeps the keys.
    pub proof fn lemma_updated(&self, o: &Self, i: int, v: V)
        requires
            o.wf(),
            0 <= i < o.items().len(),
            self.items() == o.items().update(i, (o.items()[i].0, v)),
        ensures
            self.wf(),
            forall|k: ChunkCoord| #[trigger] self.has(k) <==> o.has(k),
            forall|k: ChunkCoord|
                o.has(k) && k != o.items()[i].0 ==> #[trigger] self.at(k) == o.at(k),
            self.at(o.items()[i].0) == v,
    {
        let (s0, s1) = (o.items(), self.items());
        assert forall|a: int, b: int| 0 <= a < b < s1.len() implies lex_less(
            (#[trigger] s1[a]).0.0,
            (#[trigger] s1[b]).0.0,
        ) by {
            assert(s1[a].0 == s0[a].0 && s1[b].0 == s0[b].0);
        }
        assert forall|k: ChunkCoord| #[trigger] self.has(k) <==> o.has(k) by {
            if self.has(k) {
                assert(o.items()[self.index_of(k)].0 == k);
            }
            if o.has(k) {
                assert(self.items()[o.index_of(k)].0 == k);
            }
        }
        self.lemma_index(i);
        assert forall|k: ChunkCoord| o.has(k) && k != o.items()[i].0 implies #[trigger] self.at(k)
            == o.at(k) by {
            let j = o.index_of(k);
            assert(self.items()[j] == o.items()[j]);
            self.lemma_index(j);
        }
    }
}

} // verus!
