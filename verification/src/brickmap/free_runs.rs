//! Free-segment table: ascending, disjoint, never adjacent runs of words.

use vstd::prelude::*;

verus! {

/// Free segments of a word arena, as `(start, length)` pairs.
///
/// Two users: the tree region of a [`super::builder::BrickMapBuilder`] (whole chunk blocks) and
/// each block (single nodes, offsets relative to the block start).
#[derive(Debug)]
pub struct FreeRuns {
    runs: Vec<(usize, usize)>,
}

spec fn in_run(r: (usize, usize), w: int) -> bool {
    r.0 <= w < r.0 + r.1
}

spec fn seq_has(s: Seq<(usize, usize)>, w: int) -> bool {
    exists|i: int| 0 <= i < s.len() && in_run(#[trigger] s[i], w)
}

spec fn seq_fits(s: Seq<(usize, usize)>, t: int, n: int) -> bool {
    &&& seq_has(s, t)
    &&& !seq_has(s, t - 1)
    &&& forall|w: int| t <= w < t + n ==> seq_has(s, w)
}

spec fn seq_wf(s: Seq<(usize, usize)>) -> bool {
    &&& forall|i: int| 0 <= i < s.len() ==> (#[trigger] s[i]).1 > 0 && s[i].0 + s[i].1 <= usize::MAX
    &&& forall|i: int, j: int|
        0 <= i < j < s.len() ==> (#[trigger] s[i]).0 + s[i].1 < (#[trigger] s[j]).0
}

spec fn seq_words(s: Seq<(usize, usize)>) -> int
    decreases s.len(),
{
    if s.len() == 0 {
        0
    } else {
        seq_words(s.drop_last()) + s.last().1
    }
}

proof fn lemma_words_split(s: Seq<(usize, usize)>, i: int)
    requires
        0 <= i <= s.len(),
    ensures
        seq_words(s) == seq_words(s.subrange(0, i)) + seq_words(s.subrange(i, s.len() as int)),
    decreases s.len() - i,
{
    if i == s.len() {
        assert(s.subrange(0, i) =~= s);
        assert(s.subrange(i, s.len() as int).len() == 0);
    } else {
        lemma_words_split(s.drop_last(), i);
        assert(s.drop_last().subrange(0, i) =~= s.subrange(0, i));
        assert(s.drop_last().subrange(i, s.len() - 1) =~= s.subrange(i, s.len() as int).drop_last());
    }
}

proof fn lemma_words_cut(s: Seq<(usize, usize)>, i: int)
    requires
        0 <= i < s.len(),
    ensures
        seq_words(s) == seq_words(s.subrange(0, i)) + s[i].1 + seq_words(
            s.subrange(i + 1, s.len() as int),
        ),
{
    lemma_words_split(s, i);
    let t = s.subrange(i, s.len() as int);
    lemma_words_split(t, 1);
    assert(t.subrange(0, 1).drop_last().len() == 0);
    assert(t.subrange(0, 1).last() == s[i]);
    reveal_with_fuel(seq_words, 2);
    assert(t.subrange(1, t.len() as int) =~= s.subrange(i + 1, s.len() as int));
}

proof fn lemma_words_update(s: Seq<(usize, usize)>, i: int, r: (usize, usize))
    requires
        0 <= i < s.len(),
    ensures
        seq_words(s.update(i, r)) == seq_words(s) - s[i].1 + r.1,
{
    lemma_words_cut(s, i);
    let t = s.update(i, r);
    lemma_words_cut(t, i);
    assert(t.subrange(0, i) =~= s.subrange(0, i));
    assert(t.subrange(i + 1, t.len() as int) =~= s.subrange(i + 1, s.len() as int));
}

proof fn lemma_words_remove(s: Seq<(usize, usize)>, i: int)
    requires
        0 <= i < s.len(),
    ensures
        seq_words(s.remove(i)) == seq_words(s) - s[i].1,
{
    lemma_words_cut(s, i);
    let t = s.remove(i);
    lemma_words_split(t, i);
    assert(t.subrange(0, i) =~= s.subrange(0, i));
    assert(t.subrange(i, t.len() as int) =~= s.subrange(i + 1, s.len() as int));
}

proof fn lemma_words_insert(s: Seq<(usize, usize)>, i: int, r: (usize, usize))
    requires
        0 <= i <= s.len(),
    ensures
        seq_words(s.insert(i, r)) == seq_words(s) + r.1,
{
    let t = s.insert(i, r);
    lemma_words_remove(t, i);
    assert(t.remove(i) =~= s);
}

proof fn lemma_words_bound(s: Seq<(usize, usize)>)
    requires
        seq_wf(s),
    ensures
        0 <= seq_words(s),
        s.len() > 0 ==> seq_words(s) <= s.last().0 + s.last().1,
        s.len() > 0 ==> seq_words(s) >= s.last().1,
    decreases s.len(),
{
    if s.len() > 0 {
        let d = s.drop_last();
        assert forall|i: int, j: int| 0 <= i < j < d.len() implies (#[trigger] d[i]).0 + d[i].1 < (
        #[trigger] d[j]).0 by {
            assert(d[i] == s[i] && d[j] == s[j]);
        }
        lemma_words_bound(d);
        if d.len() > 0 {
            assert(d.last() == s[s.len() - 2]);
        }
    }
}

/// Maximal runs are determined by what they hold: `s[i]` is the run of its own words.
proof fn lemma_run_edges(s: Seq<(usize, usize)>, i: int)
    requires
        seq_wf(s),
        0 <= i < s.len(),
    ensures
        !seq_has(s, s[i].0 - 1),
        !seq_has(s, s[i].0 + s[i].1),
        forall|w: int| s[i].0 <= w < s[i].0 + s[i].1 ==> seq_has(s, w),
{
    assert forall|w: int| s[i].0 <= w < s[i].0 + s[i].1 implies seq_has(s, w) by {
        assert(in_run(s[i], w));
    }
    assert forall|j: int| 0 <= j < s.len() implies !in_run(#[trigger] s[j], s[i].0 - 1) && !in_run(
        s[j],
        s[i].0 + s[i].1,
    ) by {
        if j < i {
            assert(s[j].0 + s[j].1 < s[i].0);
        } else if i < j {
            assert(s[i].0 + s[i].1 < s[j].0);
        }
    }
}

/// A range of free words lies in one run.
proof fn lemma_range_in_run(s: Seq<(usize, usize)>, a: int, b: int) -> (i: int)
    requires
        seq_wf(s),
        a < b,
        forall|w: int| a <= w < b ==> seq_has(s, w),
    ensures
        0 <= i < s.len(),
        s[i].0 <= a,
        b <= s[i].0 + s[i].1,
{
    assert(seq_has(s, a));
    let i = choose|i: int| 0 <= i < s.len() && in_run(#[trigger] s[i], a);
    if b > s[i].0 + s[i].1 {
        lemma_run_edges(s, i);
        assert(seq_has(s, s[i].0 + s[i].1));
    }
    i
}

/// Runs in canonical form are determined by their words.
proof fn lemma_same_runs(s: Seq<(usize, usize)>, t: Seq<(usize, usize)>)
    requires
        seq_wf(s),
        seq_wf(t),
        forall|w: int| #[trigger] seq_has(s, w) <==> seq_has(t, w),
    ensures
        s == t,
    decreases s.len(),
{
    if s.len() == 0 {
        if t.len() > 0 {
            assert(in_run(t[0], t[0].0 as int));
            assert(seq_has(t, t[0].0 as int));
            assert(seq_has(s, t[0].0 as int));
        }
        assert(s =~= t);
    } else {
        assert(in_run(s[0], s[0].0 as int));
        assert(seq_has(s, s[0].0 as int));
        assert(seq_has(t, s[0].0 as int));
        assert(t.len() > 0);
        lemma_first_run(s, t);
        lemma_first_run(t, s);
        assert(s[0] == t[0]);
        lemma_remove_has(s, 0);
        lemma_remove_has(t, 0);
        assert forall|w: int| #[trigger] seq_has(s.remove(0), w) <==> seq_has(t.remove(0), w) by {
            assert(seq_has(s, w) <==> seq_has(t, w));
        }
        lemma_same_runs(s.remove(0), t.remove(0));
        assert(s =~= seq![s[0]] + s.remove(0));
        assert(t =~= seq![t[0]] + t.remove(0));
    }
}

/// The first run of a table with the same words starts as early and reaches as far.
proof fn lemma_first_run(s: Seq<(usize, usize)>, t: Seq<(usize, usize)>)
    requires
        seq_wf(s),
        seq_wf(t),
        s.len() > 0,
        t.len() > 0,
        forall|w: int| #[trigger] seq_has(s, w) <==> seq_has(t, w),
    ensures
        t[0].0 <= s[0].0,
        s[0].0 + s[0].1 <= t[0].0 + t[0].1,
{
    assert forall|w: int| s[0].0 <= w < s[0].0 + s[0].1 implies seq_has(t, w) by {
        assert(in_run(s[0], w));
        assert(seq_has(s, w));
    }
    let i = lemma_range_in_run(t, s[0].0 as int, s[0].0 + s[0].1);
    if i > 0 {
        // the first word of `t` would come before every word of `s`
        assert(t[0].0 + t[0].1 < t[i].0);
        assert(in_run(t[0], t[0].0 as int));
        assert(seq_has(t, t[0].0 as int));
        assert(seq_has(s, t[0].0 as int));
        let j = choose|j: int| 0 <= j < s.len() && in_run(#[trigger] s[j], t[0].0 as int);
        if j > 0 {
            assert(s[0].0 + s[0].1 < s[j].0);
        }
    }
}

proof fn lemma_alloc_at(s: Seq<(usize, usize)>, i: int, n: int)
    requires
        seq_wf(s),
        0 <= i < s.len(),
        0 <= n <= s[i].1,
        forall|j: int| 0 <= j < i ==> (#[trigger] s[j]).1 < n,
    ensures
        seq_fits(s, s[i].0 as int, n),
        forall|t: int| t < s[i].0 ==> !seq_fits(s, t, n),
{
    lemma_run_edges(s, i);
    assert forall|t: int| t < s[i].0 implies !seq_fits(s, t, n) by {
        if seq_fits(s, t, n) {
            let k = lemma_range_in_run(s, t, if n > 0 { t + n } else { t + 1 });
            if k >= i {
                if k > i {
                    assert(s[i].0 + s[i].1 < s[k].0);
                }
                assert(false);
            }
            if s[k].0 < t {
                assert(in_run(s[k], t - 1));
            }
            assert(s[k].1 < n);
            assert(false);
        }
    }
}

proof fn lemma_no_fit(s: Seq<(usize, usize)>, n: int)
    requires
        seq_wf(s),
        n >= 0,
        forall|j: int| 0 <= j < s.len() ==> (#[trigger] s[j]).1 < n,
    ensures
        forall|t: int| !seq_fits(s, t, n),
{
    assert forall|t: int| !seq_fits(s, t, n) by {
        if seq_fits(s, t, n) {
            let k = lemma_range_in_run(s, t, if n > 0 { t + n } else { t + 1 });
            assert(s[k].1 < n);
            assert(false);
        }
    }
}

/// Dropping run `i` drops exactly its words.
proof fn lemma_remove_has(s: Seq<(usize, usize)>, i: int)
    requires
        seq_wf(s),
        0 <= i < s.len(),
    ensures
        seq_wf(s.remove(i)),
        forall|w: int| #[trigger]
            seq_has(s.remove(i), w) <==> seq_has(s, w) && !(s[i].0 <= w < s[i].0 + s[i].1),
{
    let t = s.remove(i);
    assert forall|k: int| 0 <= k < t.len() implies #[trigger] t[k] == s[if k < i {
        k
    } else {
        k + 1
    }] by {}
    assert forall|a: int, b: int| 0 <= a < b < t.len() implies (#[trigger] t[a]).0 + t[a].1 < (
    #[trigger] t[b]).0 by {
        let a2 = if a < i { a } else { a + 1 };
        let b2 = if b < i { b } else { b + 1 };
        assert(s[a2].0 + s[a2].1 < s[b2].0);
    }
    assert forall|w: int| #[trigger] seq_has(t, w) <==> seq_has(s, w) && !(s[i].0 <= w < s[i].0
        + s[i].1) by {
        if seq_has(t, w) {
            let k = choose|k: int| 0 <= k < t.len() && in_run(#[trigger] t[k], w);
            let k2 = if k < i { k } else { k + 1 };
            assert(in_run(s[k2], w));
            if k2 < i {
                assert(s[k2].0 + s[k2].1 < s[i].0);
            } else {
                assert(s[i].0 + s[i].1 < s[k2].0);
            }
        }
        if seq_has(s, w) && !(s[i].0 <= w < s[i].0 + s[i].1) {
            let k = choose|k: int| 0 <= k < s.len() && in_run(#[trigger] s[k], w);
            let k2 = if k < i { k } else { k - 1 };
            assert(t[k2] == s[k]);
            assert(in_run(t[k2], w));
        }
    }
}

/// Replacing run `i` by `r`, which stays clear of the neighbours, swaps exactly their words.
proof fn lemma_update_has(s: Seq<(usize, usize)>, i: int, r: (usize, usize))
    requires
        seq_wf(s),
        0 <= i < s.len(),
        r.1 > 0,
        r.0 + r.1 <= usize::MAX,
        i > 0 ==> s[i - 1].0 + s[i - 1].1 < r.0,
        i + 1 < s.len() ==> r.0 + r.1 < s[i + 1].0,
    ensures
        seq_wf(s.update(i, r)),
        forall|w: int| #[trigger]
            seq_has(s.update(i, r), w) <==> (seq_has(s, w) && !in_run(s[i], w)) || in_run(r, w),
{
    let t = s.update(i, r);
    assert forall|a: int, b: int| 0 <= a < b < t.len() implies (#[trigger] t[a]).0 + t[a].1 < (
    #[trigger] t[b]).0 by {
        if a == i {
            if b > i + 1 {
                assert(s[i + 1].0 + s[i + 1].1 < s[b].0);
            }
        } else if b == i {
            if a < i - 1 {
                assert(s[a].0 + s[a].1 < s[i - 1].0);
            }
        } else {
            assert(s[a].0 + s[a].1 < s[b].0);
        }
    }
    assert forall|w: int| #[trigger]
        seq_has(t, w) <==> (seq_has(s, w) && !in_run(s[i], w)) || in_run(r, w) by {
        if seq_has(t, w) {
            let k = choose|k: int| 0 <= k < t.len() && in_run(#[trigger] t[k], w);
            if k != i {
                assert(in_run(s[k], w));
                if k < i {
                    assert(s[k].0 + s[k].1 < s[i].0);
                } else {
                    assert(s[i].0 + s[i].1 < s[k].0);
                }
            }
        }
        if in_run(r, w) {
            assert(in_run(t[i], w));
        }
        if seq_has(s, w) && !in_run(s[i], w) {
            let k = choose|k: int| 0 <= k < s.len() && in_run(#[trigger] s[k], w);
            assert(in_run(t[k], w));
        }
    }
}

/// Inserting run `r` between its neighbours, clear of both, adds exactly its words.
proof fn lemma_insert_has(s: Seq<(usize, usize)>, i: int, r: (usize, usize))
    requires
        seq_wf(s),
        0 <= i <= s.len(),
        r.1 > 0,
        r.0 + r.1 <= usize::MAX,
        i > 0 ==> s[i - 1].0 + s[i - 1].1 < r.0,
        i < s.len() ==> r.0 + r.1 < s[i].0,
    ensures
        seq_wf(s.insert(i, r)),
        forall|w: int| #[trigger] seq_has(s.insert(i, r), w) <==> seq_has(s, w) || in_run(r, w),
{
    let t = s.insert(i, r);
    assert forall|k: int| 0 <= k < t.len() && k != i implies #[trigger] t[k] == s[if k < i {
        k
    } else {
        k - 1
    }] by {}
    assert forall|a: int, b: int| 0 <= a < b < t.len() implies (#[trigger] t[a]).0 + t[a].1 < (
    #[trigger] t[b]).0 by {
        if a == i {
            if b - 1 > i {
                assert(s[i].0 + s[i].1 < s[b - 1].0);
            }
        } else if b == i {
            if a < i - 1 {
                assert(s[a].0 + s[a].1 < s[i - 1].0);
            }
        } else {
            let a2 = if a < i { a } else { a - 1 };
            let b2 = if b < i { b } else { b - 1 };
            assert(s[a2].0 + s[a2].1 < s[b2].0);
        }
    }
    assert forall|w: int| #[trigger] seq_has(t, w) <==> seq_has(s, w) || in_run(r, w) by {
        if seq_has(t, w) {
            let k = choose|k: int| 0 <= k < t.len() && in_run(#[trigger] t[k], w);
            if k != i {
                assert(in_run(s[if k < i { k } else { k - 1 }], w));
            }
        }
        if in_run(r, w) {
            assert(in_run(t[i], w));
        }
        if seq_has(s, w) {
            let k = choose|k: int| 0 <= k < s.len() && in_run(#[trigger] s[k], w);
            assert(in_run(t[if k < i { k } else { k + 1 }], w));
        }
    }
}

impl FreeRuns {
    /// Word `w` lies in a free segment.
    pub closed spec fn has(&self, w: int) -> bool {
        seq_has(self.runs@, w)
    }

    /// The table is in canonical form: ascending, non-empty, maximal runs.
    pub closed spec fn wf(&self) -> bool {
        seq_wf(self.runs@)
    }

    /// Number of free words.
    pub closed spec fn total(&self) -> int {
        seq_words(self.runs@)
    }

    /// A free segment starts at `s` and its first `n` words are free.
    pub open spec fn fits_at(&self, s: int, n: int) -> bool {
        &&& self.has(s)
        &&& !self.has(s - 1)
        &&& forall|w: int| s <= w < s + n ==> self.has(w)
    }

    /// One run of free words has the length of its words.
    pub proof fn lemma_one_run(&self, lo: int, hi: int)
        requires
            self.wf(),
            forall|w: int| #[trigger] self.has(w) <==> lo <= w < hi,
        ensures
            self.total() == (if lo < hi {
                hi - lo
            } else {
                0
            }),
    {
        let s = self.runs@;
        assert forall|i: int| 0 <= i < s.len() implies lo <= (#[trigger] s[i]).0 && s[i].0 + s[i].1
            <= hi by {
            assert(in_run(s[i], s[i].0 as int));
            assert(in_run(s[i], s[i].0 + s[i].1 - 1));
            assert(self.has(s[i].0 as int));
            assert(self.has(s[i].0 + s[i].1 - 1));
        }
        if lo < hi {
            assert forall|w: int| lo <= w < hi implies seq_has(s, w) by {
                assert(self.has(w));
            }
            let i = lemma_range_in_run(s, lo, hi);
            assert(s[i].0 == lo && s[i].0 + s[i].1 == hi);
            if i > 0 {
                assert(s[0].0 + s[0].1 < s[i].0);
                assert(lo <= s[0].0);
            }
            if i < s.len() - 1 {
                assert(s[i].0 + s[i].1 < s[i + 1].0);
                assert(s[i + 1].0 + s[i + 1].1 <= hi);
            }
            assert(s.len() == 1);
            assert(s.drop_last().len() == 0);
            reveal_with_fuel(seq_words, 2);
        } else {
            if s.len() > 0 {
                assert(lo <= s[0].0);
            }
        }
    }

    /// The runs, as `(start, length)` pairs.
    pub closed spec fn segments(&self) -> Seq<(usize, usize)> {
        self.runs@
    }

    /// The runs are ascending, not empty, and never overlap or touch.
    pub proof fn lemma_segments(&self)
        requires
            self.wf(),
        ensures
            forall|i: int| 0 <= i < self.segments().len() ==> (#[trigger] self.segments()[i]).1 > 0,
            forall|i: int, j: int|
                0 <= i < j < self.segments().len() ==> (#[trigger] self.segments()[i]).0
                    + self.segments()[i].1 < (#[trigger] self.segments()[j]).0,
            forall|w: int| #[trigger]
                self.has(w) <==> exists|i: int|
                    0 <= i < self.segments().len() && (#[trigger] self.segments()[i]).0 <= w
                        < self.segments()[i].0 + self.segments()[i].1,
    {
        assert forall|w: int| #[trigger] self.has(w) <==> exists|i: int|
            0 <= i < self.segments().len() && (#[trigger] self.segments()[i]).0 <= w
                < self.segments()[i].0 + self.segments()[i].1 by {
            if self.has(w) {
                let i = choose|i: int| 0 <= i < self.runs@.len() && in_run(#[trigger] self.runs@[i], w);
                assert(self.segments()[i].0 <= w);
            }
            if exists|i: int|
                0 <= i < self.segments().len() && (#[trigger] self.segments()[i]).0 <= w
                    < self.segments()[i].0 + self.segments()[i].1 {
                let i = choose|i: int|
                    0 <= i < self.segments().len() && (#[trigger] self.segments()[i]).0 <= w
                        < self.segments()[i].0 + self.segments()[i].1;
                assert(in_run(self.runs@[i], w));
            }
        }
    }

    /// A table is its set of free words: two tables with the same words have the same runs.
    pub proof fn lemma_same_words(a: &Self, b: &Self)
        requires
            a.wf(),
            b.wf(),
            forall|w: int| #[trigger] a.has(w) <==> b.has(w),
        ensures
            a.segments() == b.segments(),
            a.total() == b.total(),
    {
        assert forall|w: int| #[trigger] seq_has(a.runs@, w) <==> seq_has(b.runs@, w) by {
            assert(a.has(w) <==> b.has(w));
        }
        lemma_same_runs(a.runs@, b.runs@);
    }

    /// Giving an allocation back restores the table: `b` is `a` after `n` words were taken at `s`, and
    /// `c` is `b` after they were given back.
    pub proof fn lemma_give_back(a: &Self, b: &Self, c: &Self, s: int, n: int)
        requires
            a.wf(),
            b.wf(),
            c.wf(),
            a.fits_at(s, n),
            forall|w: int| #[trigger] b.has(w) <==> a.has(w) && !(s <= w < s + n),
            forall|w: int| #[trigger] c.has(w) <==> b.has(w) || s <= w < s + n,
        ensures
            c.segments() == a.segments(),
            c.total() == a.total(),
    {
        Self::lemma_same_words(c, a);
    }

    proof fn lemma_fits(&self)
        ensures
            forall|t: int, n: int| #[trigger] self.fits_at(t, n) == seq_fits(self.runs@, t, n),
            forall|w: int| #[trigger] seq_has(self.runs@, w) == self.has(w),
    {
        assert(forall|w: int| #[trigger] seq_has(self.runs@, w) == self.has(w));
        assert(forall|w: int| #[trigger] self.has(w) == seq_has(self.runs@, w));
        assert forall|t: int, n: int| #[trigger]
            self.fits_at(t, n) == seq_fits(self.runs@, t, n) by {
            if self.fits_at(t, n) {
                assert forall|w: int| t <= w < t + n implies seq_has(self.runs@, w) by {
                    assert(self.has(w));
                }
            }
            if seq_fits(self.runs@, t, n) {
                assert forall|w: int| t <= w < t + n implies self.has(w) by {
                    assert(seq_has(self.runs@, w));
                }
            }
        }
    }

    pub proof fn lemma_total_nonneg(&self)
        requires
            self.wf(),
        ensures
            self.total() >= 0,
    {
        lemma_words_bound(self.runs@);
    }

    /// The empty table.
    pub fn new() -> (r: Self)
        ensures
            r.wf(),
            r.total() == 0,
            forall|w: int| !r.has(w),
    {
        FreeRuns { runs: Vec::new() }
    }

    /// Takes the first `n` words of the lowest free segment that is at least `n` words long.
    pub fn alloc_run(&mut self, n: usize) -> (r: Option<usize>)
        requires
            old(self).wf(),
        ensures
            final(self).wf(),
            match r {
                Some(s) => {
                    &&& old(self).fits_at(s as int, n as int)
                    &&& forall|t: int| t < s ==> !old(self).fits_at(t, n as int)
                    &&& s + n <= usize::MAX
                    &&& forall|w: int| #[trigger] final(self).has(w) <==> old(self).has(w) && !(s <= w < s + n)
                    &&& final(self).total() == old(self).total() - n
                },
                None => {
                    &&& forall|t: int| !old(self).fits_at(t, n as int)
                    &&& *final(self) == *old(self)
                },
            },
    {
        let ghost s0 = self.runs@;
        proof {
            self.lemma_fits();
        }
        let mut i: usize = 0;
        while i < self.runs.len()
            invariant
                self.runs@ == s0,
                *self == *old(self),
                forall|t: int, n: int| #[trigger] old(self).fits_at(t, n) == seq_fits(s0, t, n),
                seq_wf(s0),
                i <= s0.len(),
                forall|j: int| 0 <= j < i ==> (#[trigger] s0[j]).1 < n,
            decreases s0.len() - i,
        {
            let (start, len) = self.runs[i];
            if len >= n {
                proof {
                    lemma_alloc_at(s0, i as int, n as int);
                }
                if len == n {
                    self.runs.remove(i);
                    proof {
                        lemma_words_remove(s0, i as int);
                        lemma_remove_has(s0, i as int);
                    }
                } else {
                    self.runs[i] = (start + n, (len - n) as usize);
                    proof {
                        lemma_words_update(s0, i as int, ((start + n) as usize, (len - n) as usize));
                        lemma_update_has(s0, i as int, ((start + n) as usize, (len - n) as usize));
                    }
                }
                return Some(start);
            }
            i += 1;
        }
        proof {
            lemma_no_fit(s0, n as int);
        }
        None
    }

    /// Takes `[start, start + len)` when all of it is free (growing in place); else leaves the
    /// table alone and answers `false`.
    pub fn take_range(&mut self, start: usize, len: usize) -> (r: bool)
        requires
            old(self).wf(),
            start + len <= usize::MAX,
        ensures
            final(self).wf(),
            r <==> forall|w: int| start <= w < start + len ==> old(self).has(w),
            !r ==> *final(self) == *old(self),
            r ==> {
                &&& forall|w: int| #[trigger]
                    final(self).has(w) <==> old(self).has(w) && !(start <= w < start + len)
                &&& final(self).total() == old(self).total() - len
            },
    {
        if len == 0 {
            return true;
        }
        let ghost s0 = self.runs@;
        let mut i: usize = 0;
        while i < self.runs.len()
            invariant
                self.runs@ == s0,
                *self == *old(self),
                seq_wf(s0),
                i <= s0.len(),
                len > 0,
                start + len <= usize::MAX,
                forall|j: int|
                    0 <= j < i ==> !((#[trigger] s0[j]).0 <= start && start + len <= s0[j].0 + s0[j].1),
            decreases s0.len() - i,
        {
            let (s, l) = self.runs[i];
            if s <= start && start + len <= s + l {
                self.runs.remove(i);
                proof {
                    lemma_run_edges(s0, i as int);
                    lemma_remove_has(s0, i as int);
                    lemma_words_remove(s0, i as int);
                    assert forall|w: int| start <= w < start + len implies old(self).has(w) by {
                        assert(seq_has(s0, w));
                    }
                    assert(forall|w: int| #[trigger] self.has(w) == seq_has(s0.remove(i as int), w));
                    assert(forall|w: int| #[trigger] old(self).has(w) == seq_has(s0, w));
                }
                self.free_run(s, start - s);
                self.free_run(start + len, s + l - start - len);
                return true;
            }
            i += 1;
        }
        proof {
            if forall|w: int| start <= w < start + len ==> old(self).has(w) {
                assert forall|w: int| start <= w < start + len implies seq_has(s0, w) by {
                    assert(old(self).has(w));
                }
                let k = lemma_range_in_run(s0, start as int, start + len);
            }
        }
        false
    }

    /// Gives `[start, start + len)` back, merging it with the segments next to it.
    pub fn free_run(&mut self, start: usize, len: usize)
        requires
            old(self).wf(),
            start + len <= usize::MAX,
            forall|w: int| start <= w < start + len ==> !old(self).has(w),
        ensures
            final(self).wf(),
            forall|w: int| #[trigger] final(self).has(w) <==> old(self).has(w) || start <= w < start + len,
            final(self).total() == old(self).total() + len,
            len == 0 ==> *final(self) == *old(self),
    {
        if len == 0 {
            return;
        }
        let ghost s0 = self.runs@;
        let mut i: usize = 0;
        while i < self.runs.len() && self.runs[i].0 < start
            invariant
                self.runs@ == s0,
                i <= s0.len(),
                forall|j: int| 0 <= j < i ==> (#[trigger] s0[j]).0 < start,
            decreases s0.len() - i,
        {
            i += 1;
        }
        proof {
            if i > 0 {
                let p = s0[i - 1];
                if p.0 + p.1 > start {
                    assert(in_run(p, start as int));
                    assert(self.has(start as int));
                }
            }
            if i < s0.len() {
                let q = s0[i as int];
                if q.0 < start + len {
                    assert(in_run(q, q.0 as int));
                    assert(self.has(q.0 as int));
                }
            }
        }
        if i > 0 && self.runs[i - 1].0 + self.runs[i - 1].1 == start {
            let p: (usize, usize) = self.runs[i - 1];
            if i < self.runs.len() && start + len == self.runs[i].0 {
                let q: (usize, usize) = self.runs[i];
                proof {
                    assert(q.0 + q.1 <= usize::MAX);
                }
                self.runs.remove(i);
                let ghost s1 = self.runs@;
                self.runs[i - 1] = (p.0, p.1 + len + q.1);
                proof {
                    lemma_remove_has(s0, i as int);
                    lemma_words_remove(s0, i as int);
                    assert(s1[i - 1] == s0[i - 1]);
                    assert(i < s1.len() ==> s1[i as int] == s0[i + 1]);
                    assert(i > 1 ==> s1[i - 2] == s0[i - 2]);
                    lemma_update_has(s1, i - 1, (p.0, (p.1 + len + q.1) as usize));
                    lemma_words_update(s1, i - 1, (p.0, (p.1 + len + q.1) as usize));
                }
            } else {
                self.runs[i - 1] = (p.0, p.1 + len);
                proof {
                    lemma_update_has(s0, i - 1, (p.0, (p.1 + len) as usize));
                    lemma_words_update(s0, i - 1, (p.0, (p.1 + len) as usize));
                }
            }
            return;
        }
        if i < self.runs.len() && start + len == self.runs[i].0 {
            let q: (usize, usize) = self.runs[i];
            self.runs[i] = (start, len + q.1);
            proof {
                lemma_update_has(s0, i as int, (start, (len + q.1) as usize));
                lemma_words_update(s0, i as int, (start, (len + q.1) as usize));
            }
            return;
        }
        self.runs.insert(i, (start, len));
        proof {
            lemma_insert_has(s0, i as int, (start, len));
            lemma_words_insert(s0, i as int, (start, len));
        }
    }

    /// Number of free words.
    pub fn words(&self) -> (r: usize)
        requires
            self.wf(),
        ensures
            r == self.total(),
    {
        let ghost s0 = self.runs@;
        let mut sum: usize = 0;
        let mut i: usize = 0;
        while i < self.runs.len()
            invariant
                self.runs@ == s0,
                seq_wf(s0),
                i <= s0.len(),
                sum == seq_words(s0.subrange(0, i as int)),
            decreases s0.len() - i,
        {
            proof {
                let t = s0.subrange(0, i + 1);
                assert(t.drop_last() =~= s0.subrange(0, i as int));
                assert(t.last() == s0[i as int]);
                assert forall|a: int, b: int| 0 <= a < b < t.len() implies (#[trigger] t[a]).0 + t[a].1
                    < (#[trigger] t[b]).0 by {
                    assert(t[a] == s0[a] && t[b] == s0[b]);
                }
                lemma_words_bound(t);
            }
            sum = sum + self.runs[i].1;
            i += 1;
        }
        assert(s0.subrange(0, s0.len() as int) =~= s0);
        sum
    }
}

} // verus!
