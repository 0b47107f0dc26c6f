//! Byte ranges that await an upload.

use vstd::prelude::*;

verus! {

/// Word `w` lies in one of the byte ranges.
pub open spec fn dirty_has(d: Seq<(usize, usize)>, w: int) -> bool {
    exists|i: int| 0 <= i < d.len() && (#[trigger] d[i]).0 <= 4 * w && 4 * w + 4 <= d[i].1
}

/// Ranges are non-empty, word aligned, and inside a buffer of `len` words.
pub open spec fn dirty_ok(d: Seq<(usize, usize)>, len: int) -> bool {
    forall|i: int|
        0 <= i < d.len() ==> (#[trigger] d[i]).0 < d[i].1 && d[i].0 % 4 == 0 && d[i].1 % 4 == 0
            && d[i].1 <= 4 * len
}

/// `d` with bytes `[lo, hi)` added: joined to the last range where they touch it, as a new one where
/// they do not, and `d` itself where there are none.
pub open spec fn marked(d: Seq<(usize, usize)>, lo: int, hi: int) -> Seq<(usize, usize)> {
    if lo >= hi {
        d
    } else if d.len() > 0 && lo <= d.last().1 && hi >= d.last().0 {
        d.update(
            d.len() - 1,
            (
                if lo < d.last().0 {
                    lo as usize
                } else {
                    d.last().0
                },
                if hi > d.last().1 {
                    hi as usize
                } else {
                    d.last().1
                },
            ),
        )
    } else {
        d.push((lo as usize, hi as usize))
    }
}

/// Adds words `[start, start + count)`, merging them into the last range where they touch it.
pub fn mark_words(d: &mut Vec<(usize, usize)>, start: usize, count: usize, Ghost(len): Ghost<int>)
    requires
        dirty_ok(old(d)@, len),
        start + count <= len,
        4 * len <= usize::MAX,
    ensures
        dirty_ok(final(d)@, len),
        forall|w: int| #[trigger]
            dirty_has(final(d)@, w) <==> dirty_has(old(d)@, w) || start <= w < start + count,
        final(d)@ == marked(old(d)@, 4 * start, 4 * (start + count)),
{
    if count == 0 {
        return;
    }
    let lo: usize = start * 4;
    let hi: usize = (start + count) * 4;
    let n: usize = d.len();
    let ghost d0 = d@;
    if n > 0 {
        let last: (usize, usize) = d[n - 1];
        if lo <= last.1 && hi >= last.0 {
            let a: usize = if lo < last.0 { lo } else { last.0 };
            let b: usize = if hi > last.1 { hi } else { last.1 };
            d[n - 1] = (a, b);
            proof {
                assert forall|w: int| #[trigger] dirty_has(d@, w) <==> dirty_has(d0, w) || start <= w
                    < start + count by {
                    if dirty_has(d@, w) {
                        let i = choose|i: int|
                            0 <= i < d@.len() && (#[trigger] d@[i]).0 <= 4 * w && 4 * w + 4 <= d@[i].1;
                        if i == n - 1 {
                            assert(d0[i] == last);
                        } else {
                            assert(d0[i] == d@[i]);
                        }
                    }
                    if dirty_has(d0, w) {
                        let i = choose|i: int|
                            0 <= i < d0.len() && (#[trigger] d0[i]).0 <= 4 * w && 4 * w + 4 <= d0[i].1;
                        assert(d@[i].0 <= 4 * w && 4 * w + 4 <= d@[i].1);
                    }
                    if start <= w < start + count {
                        assert(d@[n - 1].0 <= 4 * w);
                    }
                }
            }
            return;
        }
    }
    d.push((lo, hi));
    proof {
        assert forall|w: int| #[trigger] dirty_has(d@, w) <==> dirty_has(d0, w) || start <= w < start
            + count by {
            if dirty_has(d@, w) {
                let i = choose|i: int|
                    0 <= i < d@.len() && (#[trigger] d@[i]).0 <= 4 * w && 4 * w + 4 <= d@[i].1;
                if i < n {
                    assert(d0[i] == d@[i]);
                }
            }
            if dirty_has(d0, w) {
                let i = choose|i: int|
                    0 <= i < d0.len() && (#[trigger] d0[i]).0 <= 4 * w && 4 * w + 4 <= d0[i].1;
                assert(d@[i] == d0[i]);
            }
            if start <= w < start + count {
                assert(d@[n as int].0 <= 4 * w);
            }
        }
    }
}

/// Drops what lies beyond a buffer of `len` words.
pub fn clip_words(d: &Vec<(usize, usize)>, len: usize, Ghost(old_len): Ghost<int>) -> (r: Vec<
    (usize, usize),
>)
    requires
        dirty_ok(d@, old_len),
        len * 4 <= usize::MAX,
    ensures
        dirty_ok(r@, len as int),
        forall|w: int| #[trigger] dirty_has(r@, w) <==> dirty_has(d@, w) && w < len,
        r.len() <= d.len(),
{
    let end: usize = len * 4;
    let mut r: Vec<(usize, usize)> = Vec::new();
    let mut i: usize = 0;
    while i < d.len()
        invariant
            i <= d.len(),
            end == len * 4,
            dirty_ok(d@, old_len),
            dirty_ok(r@, len as int),
            r.len() <= i,
            forall|w: int| #[trigger]
                dirty_has(r@, w) <==> w < len && (exists|k: int|
                    0 <= k < i && (#[trigger] d@[k]).0 <= 4 * w && 4 * w + 4 <= d@[k].1),
        decreases d.len() - i,
    {
        let (lo, hi) = d[i];
        let ghost r0 = r@;
        let top: usize = if hi < end { hi } else { end };
        if lo < top {
            r.push((lo, top));
        }
        proof {
            assert forall|w: int| #[trigger] dirty_has(r@, w) <==> w < len && (exists|k: int|
                0 <= k < i + 1 && (#[trigger] d@[k]).0 <= 4 * w && 4 * w + 4 <= d@[k].1) by {
                if dirty_has(r@, w) {
                    let k = choose|k: int|
                        0 <= k < r@.len() && (#[trigger] r@[k]).0 <= 4 * w && 4 * w + 4 <= r@[k].1;
                    if k < r0.len() {
                        assert(r0[k] == r@[k]);
                        assert(dirty_has(r0, w));
                    } else {
                        assert(d@[i as int].0 <= 4 * w && 4 * w + 4 <= d@[i as int].1);
                    }
                }
                if w < len && (exists|k: int|
                    0 <= k < i + 1 && (#[trigger] d@[k]).0 <= 4 * w && 4 * w + 4 <= d@[k].1) {
                    let k = choose|k: int|
                        0 <= k < i + 1 && (#[trigger] d@[k]).0 <= 4 * w && 4 * w + 4 <= d@[k].1;
                    if k < i {
                        assert(dirty_has(r0, w));
                        let q = choose|q: int|
                            0 <= q < r0.len() && (#[trigger] r0[q]).0 <= 4 * w && 4 * w + 4 <= r0[q].1;
                        assert(r@[q] == r0[q]);
                    } else {
                        assert(r@[r@.len() - 1].0 <= 4 * w && 4 * w + 4 <= r@[r@.len() - 1].1);
                    }
                }
            }
        }
        i += 1;
    }
    r
}

/// A range that touches the last one is joined to it, so that words written one after the other make
/// one range; any other is added as it is, and an empty one is not.
pub proof fn lemma_marked(d: Seq<(usize, usize)>, lo: usize, hi: usize)
    ensures
        lo >= hi ==> marked(d, lo as int, hi as int) == d,
        lo < hi ==> ({
            let r = marked(d, lo as int, hi as int);
            let touches = d.len() > 0 && lo <= d.last().1 && d.last().0 <= hi;
            &&& r.len() == (if touches {
                d.len()
            } else {
                d.len() + 1
            })
            &&& forall|i: int| 0 <= i < r.len() - 1 ==> #[trigger] r[i] == d[i]
            &&& r.last().0 <= lo && hi <= r.last().1
            &&& touches ==> r.last().0 <= d.last().0 && d.last().1 <= r.last().1
            &&& r.last().0 == lo || (touches && r.last().0 == d.last().0)
            &&& r.last().1 == hi || (touches && r.last().1 == d.last().1)
        }),
{
}

} // verus!
