//! Chunks with changes that wait for an upload, and how many of them a frame takes.

use super::batch::{edit_ok, listed};
use super::extract::{EditBox, MainPending, PendingEdit};
use super::grid::TreeDirty;
use super::tree::{is_child, tree_wf, TreeModel};
use super::upload::{backlog_of, chunk_budget, clamped, drain_counts, UploadBudget};
use crate::math::{ChunkCoord, IVec3};
use vstd::prelude::*;

verus! {

/// What waits of one volume, in the order in which it came. A chunk waits once.
#[derive(Debug)]
pub struct EditQueue {
    /// The volume's number.
    pub volume: usize,
    pub data: Vec<PendingEdit>,
    /// The changed voxels of each data chunk, where they are known.
    pub areas: Vec<Option<(IVec3, IVec3)>>,
    pub comp: Vec<ChunkCoord>,
}

/// The first entry from `i` on that is less deep than `level`, or the end.
pub open spec fn first_above(s: Seq<(u8, u32)>, level: u8, i: int) -> int
    decreases s.len() - i,
{
    if i >= s.len() || s[i].0 < level {
        i
    } else {
        first_above(s, level, i + 1)
    }
}

/// `s` with entry `e`, which goes behind those that are at least as deep.
pub open spec fn with_entry(s: Seq<(u8, u32)>, e: (u8, u32)) -> Seq<(u8, u32)> {
    if s.contains(e) {
        s
    } else {
        s.insert(first_above(s, e.0, 0), e)
    }
}

/// `a` with the first `n` entries of `b`.
pub open spec fn joined_nodes(a: Seq<(u8, u32)>, b: Seq<(u8, u32)>, n: nat) -> Seq<(u8, u32)>
    decreases n,
{
    if n == 0 {
        a
    } else {
        with_entry(joined_nodes(a, b, (n - 1) as nat), b[n - 1])
    }
}

/// `r` reports what `a` and then `b` report.
pub open spec fn is_joined(a: TreeDirty, b: TreeDirty, r: TreeDirty) -> bool {
    &&& r.reset == (a.reset || b.reset)
    &&& r.nodes@ == joined_nodes(a.nodes@, b.nodes@, b.nodes@.len())
}

/// The voxels of both changes; not known where those of one are not.
pub open spec fn joined_area(
    a: Option<(IVec3, IVec3)>,
    b: Option<(IVec3, IVec3)>,
) -> Option<(IVec3, IVec3)> {
    match (a, b) {
        (Some(x), Some(y)) => Some((x.0.min_of(y.0), x.1.max_of(y.1))),
        _ => None,
    }
}

/// Deepest level first.
pub open spec fn deepest_first(s: Seq<(u8, u32)>) -> bool {
    forall|i: int, j: int| 0 <= i < j < s.len() ==> (#[trigger] s[i]).0 >= (#[trigger] s[j]).0
}

proof fn lemma_first_above(s: Seq<(u8, u32)>, level: u8, i: int)
    requires
        0 <= i <= s.len(),
    ensures
        i <= first_above(s, level, i) <= s.len(),
        forall|k: int| i <= k < first_above(s, level, i) ==> (#[trigger] s[k]).0 >= level,
        first_above(s, level, i) < s.len() ==> s[first_above(s, level, i)].0 < level,
    decreases s.len() - i,
{
    if i < s.len() && s[i].0 >= level {
        lemma_first_above(s, level, i + 1);
    }
}

proof fn lemma_with_entry(s: Seq<(u8, u32)>, e: (u8, u32))
    ensures
        deepest_first(s) ==> deepest_first(with_entry(s, e)),
        forall|x: (u8, u32)| #[trigger] with_entry(s, e).contains(x) <==> s.contains(x) || x == e,
        s.no_duplicates() ==> with_entry(s, e).no_duplicates(),
{
    if !s.contains(e) {
        lemma_first_above(s, e.0, 0);
        let p = first_above(s, e.0, 0);
        let t = s.insert(p, e);
        assert(t[p] == e);
        assert forall|x: (u8, u32)| #[trigger] t.contains(x) <==> s.contains(x) || x == e by {
            if s.contains(x) {
                let i = choose|i: int| 0 <= i < s.len() && s[i] == x;
                assert(t[if i < p {
                    i
                } else {
                    i + 1
                }] == x);
            }
            if t.contains(x) && x != e {
                let i = choose|i: int| 0 <= i < t.len() && t[i] == x;
                assert(s[if i < p {
                    i
                } else {
                    i - 1
                }] == x);
            }
        }
        if deepest_first(s) {
            assert forall|i: int, j: int| 0 <= i < j < t.len() implies (#[trigger] t[i]).0 >= (
            #[trigger] t[j]).0 by {
                if i == p {
                    if j - 1 > p {
                        assert(s[p].0 >= s[j - 1].0);
                    }
                } else if j == p {
                    assert(s[i].0 >= e.0);
                } else {
                    let i2 = if i < p { i } else { i - 1 };
                    let j2 = if j < p { j } else { j - 1 };
                    assert(s[i2].0 >= s[j2].0);
                }
            }
        }
        if s.no_duplicates() {
            assert forall|i: int, j: int| 0 <= i < t.len() && 0 <= j < t.len() && i != j implies t[i]
                != t[j] by {
                if i == p {
                    assert(s.contains(t[j])) by {
                        assert(t[j] == s[if j < p {
                            j
                        } else {
                            j - 1
                        }]);
                    }
                } else if j == p {
                    assert(s.contains(t[i])) by {
                        assert(t[i] == s[if i < p {
                            i
                        } else {
                            i - 1
                        }]);
                    }
                } else {
                    let i2 = if i < p { i } else { i - 1 };
                    let j2 = if j < p { j } else { j - 1 };
                    assert(s[i2] != s[j2]);
                }
            }
        }
    }
}

/// A joined report names what one of the two names, deepest level first, and each node once where the
/// first report does.
pub proof fn lemma_joined_nodes(a: Seq<(u8, u32)>, b: Seq<(u8, u32)>, n: nat)
    requires
        n <= b.len(),
    ensures
        deepest_first(a) ==> deepest_first(joined_nodes(a, b, n)),
        a.no_duplicates() ==> joined_nodes(a, b, n).no_duplicates(),
        forall|x: (u8, u32)| #[trigger]
            joined_nodes(a, b, n).contains(x) <==> a.contains(x) || b.take(n as int).contains(x),
    decreases n,
{
    if n > 0 {
        let m = (n - 1) as nat;
        lemma_joined_nodes(a, b, m);
        lemma_with_entry(joined_nodes(a, b, m), b[n - 1]);
        assert forall|x: (u8, u32)| #[trigger] joined_nodes(a, b, n).contains(x) <==> a.contains(x) || b.take(
            n as int,
        ).contains(x) by {
            assert(joined_nodes(a, b, m).contains(x) <==> a.contains(x) || b.take(m as int).contains(x));
            if b.take(m as int).contains(x) {
                let i = choose|i: int| 0 <= i < m && b.take(m as int)[i] == x;
                assert(b.take(n as int)[i] == x);
            }
            if x == b[n - 1] {
                assert(b.take(n as int)[n - 1] == x);
            }
            if b.take(n as int).contains(x) {
                let i = choose|i: int| 0 <= i < n && b.take(n as int)[i] == x;
                if i < m {
                    assert(b.take(m as int)[i] == x);
                }
            }
        }
    }
}

proof fn lemma_listed_contains(s: Seq<(u8, u32)>, x: u32)
    ensures
        listed(s, x) <==> exists|l: u8| #[trigger] s.contains((l, x)),
{
    if listed(s, x) {
        let i = choose|i: int| 0 <= i < s.len() && (#[trigger] s[i]).1 == x;
        assert(s.contains((s[i].0, x)));
    }
    if exists|l: u8| #[trigger] s.contains((l, x)) {
        let l = choose|l: u8| #[trigger] s.contains((l, x));
        let i = choose|i: int| 0 <= i < s.len() && s[i] == (l, x);
        assert(s[i].1 == x);
    }
}

/// A joined report keeps the promises of its two parts: where `a` reports an edit that led from tree
/// `t0` to `t1`, and `b` one that led on to `t2`, the joined report covers the way from `t0` to `t2`.
/// Reports name nodes of one of their two trees, and a node stays with its parent.
pub proof fn lemma_joined_report_holds(
    t0: TreeModel,
    t1: TreeModel,
    t2: TreeModel,
    used: Set<u32>,
    a: Seq<(u8, u32)>,
    b: Seq<(u8, u32)>,
)
    requires
        tree_wf(t0),
        t0.dom().subset_of(used),
        edit_ok(t0, used, t1, a),
        edit_ok(t1, used.union(t1.dom()), t2, b),
        forall|i: int|
            0 <= i < a.len() ==> t0.dom().contains((#[trigger] a[i]).1) || t1.dom().contains(a[i].1),
        forall|p: u32, j: int, c: u32| #[trigger]
            is_child(t0, p, j, c) && t1.dom().contains(p) && t1[p].mask != 0 && t1.dom().contains(c)
                ==> exists|k: int| #[trigger] is_child(t1, p, k, c),
    ensures
        edit_ok(t0, used, t2, joined_nodes(a, b, b.len())),
{
    let r = joined_nodes(a, b, b.len());
    lemma_joined_nodes(a, b, b.len());
    assert(b.take(b.len() as int) =~= b);
    assert(deepest_first(a));
    assert forall|x: u32| #[trigger] listed(r, x) <==> listed(a, x) || listed(b, x) by {
        lemma_listed_contains(r, x);
        lemma_listed_contains(a, x);
        lemma_listed_contains(b, x);
        if listed(a, x) {
            let l = choose|l: u8| #[trigger] a.contains((l, x));
            assert(r.contains((l, x)));
        }
        if listed(b, x) {
            let l = choose|l: u8| #[trigger] b.contains((l, x));
            assert(r.contains((l, x)));
        }
        if listed(r, x) {
            let l = choose|l: u8| #[trigger] r.contains((l, x));
            assert(a.contains((l, x)) || b.contains((l, x)));
        }
    }
    // what is there at the end and was at the start was there in between
    assert forall|x: u32| #[trigger] t2.dom().contains(x) && t0.dom().contains(x) implies t1.dom().contains(
        x,
    ) by {
        if !t1.dom().contains(x) {
            assert(used.contains(x));
            assert(used.union(t1.dom()).contains(x));
        }
    }
    assert forall|i: int| 0 <= i < r.len() && t2.dom().contains((#[trigger] r[i]).1) implies r[i].0
        == t2[r[i].1].level by {
        let e = r[i];
        assert(r.contains(e));
        if b.contains(e) {
            let k = choose|k: int| 0 <= k < b.len() && b[k] == e;
            assert(b[k].1 == e.1);
        } else {
            assert(a.contains(e));
            let k = choose|k: int| 0 <= k < a.len() && a[k] == e;
            assert(a[k].1 == e.1);
            assert(t1.dom().contains(e.1));
        }
    }
    assert forall|x: u32| #[trigger] t2.dom().contains(x) && (!t0.dom().contains(x) || t0[x] != t2[x]) implies listed(
    r, x) by {
        if t1.dom().contains(x) && t1[x] == t2[x] {
            assert(listed(a, x));
        } else {
            assert(listed(b, x));
        }
    }
    assert forall|p: u32, j: int, c: u32| #[trigger] is_child(t2, p, j, c) && listed(r, c) implies listed(
        r,
        p,
    ) by {
        if listed(b, c) {
            assert(listed(b, p));
        } else if t1.dom().contains(p) && t1[p] == t2[p] {
            assert(is_child(t1, p, j, c));
            assert(listed(a, p));
        } else {
            assert(t2.dom().contains(p));
            assert(listed(b, p));
        }
    }
    assert forall|x: u32| #[trigger] t2.dom().contains(x) && !t0.dom().contains(x) implies !used.contains(x) by {
        if !t1.dom().contains(x) {
            assert(!used.union(t1.dom()).contains(x));
        }
    }
    assert forall|p: u32, j: int, c: u32| #[trigger]
        is_child(t0, p, j, c) && (!t2.dom().contains(p) || t2[p].mask == 0) implies !t2.dom().contains(c) by {
        assert(t0.dom().contains(c));
        if t2.dom().contains(c) {
            assert(t1.dom().contains(c));
            assert(t1.dom().contains(p) && t1[p].mask != 0);
            let k = choose|k: int| #[trigger] is_child(t1, p, k, c);
            assert(is_child(t1, p, k, c));
        }
    }
}

/// Joins two reports of one chunk.
fn join_reports(a: TreeDirty, b: &TreeDirty) -> (r: TreeDirty)
    ensures
        is_joined(a, *b, r),
{
    let TreeDirty { reset, nodes } = a;
    let mut nodes: Vec<(u8, u32)> = nodes;
    let ghost a0 = nodes@;
    let mut i: usize = 0;
    while i < b.nodes.len()
        invariant
            i <= b.nodes.len(),
            nodes@ == joined_nodes(a0, b.nodes@, i as nat),
        decreases b.nodes.len() - i,
    {
        put_entry(&mut nodes, b.nodes[i]);
        i += 1;
    }
    TreeDirty { reset: reset || b.reset, nodes }
}

fn put_entry(s: &mut Vec<(u8, u32)>, e: (u8, u32))
    ensures
        final(s)@ == with_entry(old(s)@, e),
{
    let mut at: Option<usize> = None;
    let mut i: usize = 0;
    while i < s.len()
        invariant
            i <= s.len(),
            s@ == old(s)@,
            forall|k: int| 0 <= k < i ==> #[trigger] s@[k] != e,
            match at {
                Some(p) => p < i && first_above(s@, e.0, 0) == p,
                None => first_above(s@, e.0, 0) == first_above(s@, e.0, i as int),
            },
        decreases s.len() - i,
    {
        let x: (u8, u32) = s[i];
        if x.0 == e.0 && x.1 == e.1 {
            assert(s@[i as int] == e);
            return ;
        }
        if at.is_none() && x.0 < e.0 {
            at = Some(i);
        }
        i += 1;
    }
    let p: usize = match at {
        Some(p) => p,
        None => s.len(),
    };
    s.insert(p, e);
}

impl EditQueue {
    /// Chunk `c` is among the first `n` that wait.
    pub open spec fn waits(&self, c: ChunkCoord, n: int) -> bool {
        exists|k: int| 0 <= k < n && (#[trigger] self.data@[k]).chunk == c
    }

    pub open spec fn wf(&self) -> bool {
        &&& self.areas.len() == self.data.len()
        &&& forall|k: int| 0 <= k < self.data.len() ==> (#[trigger] self.data@[k]).volume == self.volume
        &&& forall|k: int, l: int|
            0 <= k < l < self.data.len() ==> (#[trigger] self.data@[k]).chunk != (
            #[trigger] self.data@[l]).chunk
        &&& self.comp@.no_duplicates()
    }

    pub fn new(volume: usize) -> (r: Self)
        ensures
            r.wf(),
            r.volume == volume,
            r.data.len() == 0,
            r.comp.len() == 0,
    {
        EditQueue { volume, data: Vec::new(), areas: Vec::new(), comp: Vec::new() }
    }

    /// A changed chunk comes last. One that waits already keeps its place, and its report and area
    /// take in the new ones: the report that is taken in the end covers all that changed since the
    /// last one.
    pub fn push_data(&mut self, chunk: ChunkCoord, dirty: TreeDirty, area: Option<(IVec3, IVec3)>)
        requires
            old(self).wf(),
        ensures
            final(self).wf(),
            final(self).volume == old(self).volume,
            final(self).comp == old(self).comp,
            !old(self).waits(chunk, old(self).data.len() as int) ==> final(self).data@ == old(
                self).data@.push(PendingEdit { volume: old(self).volume, chunk, dirty }) && final(
                self).areas@ == old(self).areas@.push(area),
            forall|k: int|
                0 <= k < old(self).data.len() && (#[trigger] old(self).data@[k]).chunk == chunk ==> {
                    &&& final(self).data@ == old(self).data@.update(k, final(self).data@[k])
                    &&& final(self).data@[k].volume == old(self).volume
                    &&& final(self).data@[k].chunk == chunk
                    &&& is_joined(old(self).data@[k].dirty, dirty, final(self).data@[k].dirty)
                    &&& final(self).areas@ == old(self).areas@.update(
                        k,
                        joined_area(old(self).areas@[k], area),
                    )
                },
    {
        let mut i: usize = 0;
        while i < self.data.len()
            invariant
                i <= self.data.len(),
                *self == *old(self),
                self.wf(),
                !self.waits(chunk, i as int),
            decreases self.data.len() - i,
        {
            if self.data[i].chunk == chunk {
                let mut was: TreeDirty = TreeDirty { reset: false, nodes: Vec::new() };
                core::mem::swap(&mut self.data[i].dirty, &mut was);
                let joined: TreeDirty = join_reports(was, &dirty);
                self.data.set(i, PendingEdit { volume: self.volume, chunk, dirty: joined });
                let both: Option<(IVec3, IVec3)> = match (self.areas[i], area) {
                    (Some(x), Some(y)) => Some((x.0.min(y.0), x.1.max(y.1))),
                    _ => None,
                };
                self.areas.set(i, both);
                proof {
                    let o = *old(self);
                    assert(self.data@ =~= o.data@.update(i as int, self.data@[i as int]));
                    assert forall|k: int, l: int| 0 <= k < l < self.data.len() implies (
                    #[trigger] self.data@[k]).chunk != (#[trigger] self.data@[l]).chunk by {
                        assert(o.data@[k].chunk != o.data@[l].chunk);
                    }
                    assert forall|k: int| 0 <= k < o.data.len() && (#[trigger] o.data@[k]).chunk == chunk implies k
                        == i by {
                        if k < i {
                            assert(o.waits(chunk, i as int));
                        } else if i < k {
                            assert(o.data@[i as int].chunk != o.data@[k].chunk);
                        }
                    }
                    assert(o.waits(chunk, o.data.len() as int)) by {
                        assert(o.data@[i as int].chunk == chunk);
                    }
                }
                return ;
            }
            proof {
                if self.waits(chunk, i + 1) {
                    let k = choose|k: int| 0 <= k < i + 1 && (#[trigger] self.data@[k]).chunk == chunk;
                    assert(k < i ==> self.waits(chunk, i as int));
                }
            }
            i += 1;
        }
        self.data.push(PendingEdit { volume: self.volume, chunk, dirty });
        self.areas.push(area);
        proof {
            let o = *old(self);
            assert forall|k: int, l: int| 0 <= k < l < self.data.len() implies (
            #[trigger] self.data@[k]).chunk != (#[trigger] self.data@[l]).chunk by {
                assert(self.data@[k] == o.data@[k]);
                if l < o.data.len() {
                    assert(o.data@[k].chunk != o.data@[l].chunk);
                } else if o.data@[k].chunk == chunk {
                    assert(o.waits(chunk, o.data.len() as int));
                }
            }
        }
    }

    /// A chunk whose components changed comes last, unless it waits already.
    pub fn push_comp(&mut self, chunk: ChunkCoord)
        requires
            old(self).wf(),
        ensures
            final(self).wf(),
            final(self).volume == old(self).volume,
            final(self).data == old(self).data,
            final(self).areas == old(self).areas,
            final(self).comp@ == (if old(self).comp@.contains(chunk) {
                old(self).comp@
            } else {
                old(self).comp@.push(chunk)
            }),
    {
        let mut i: usize = 0;
        while i < self.comp.len()
            invariant
                i <= self.comp.len(),
                *self == *old(self),
                self.wf(),
                forall|k: int| 0 <= k < i ==> #[trigger] self.comp@[k] != chunk,
            decreases self.comp.len() - i,
        {
            if self.comp[i] == chunk {
                assert(self.comp@[i as int] == chunk);
                return ;
            }
            i += 1;
        }
        self.comp.push(chunk);
    }
}

/// The smaller of the two.
pub open spec fn least(a: int, b: int) -> int {
    if a < b {
        a
    } else {
        b
    }
}

/// The first `n` items, or all.
pub open spec fn first_of<T>(s: Seq<T>, n: int) -> Seq<T> {
    s.take(least(n, s.len() as int))
}

/// All but the first `n` items.
pub open spec fn rest_of<T>(s: Seq<T>, n: int) -> Seq<T> {
    s.skip(least(n, s.len() as int))
}

/// The first `n` data chunks of each of the first `nv` volumes.
pub open spec fn taken_data(q: Seq<EditQueue>, n: int, nv: nat) -> Seq<PendingEdit>
    decreases nv,
{
    if nv == 0 {
        Seq::empty()
    } else {
        taken_data(q, n, (nv - 1) as nat) + first_of(q[nv - 1].data@, n)
    }
}

/// The known areas among the first `k` data chunks of volume `v`.
pub open spec fn areas_of(q: EditQueue, v: int, k: nat) -> Seq<EditBox>
    decreases k,
{
    if k == 0 {
        Seq::empty()
    } else {
        let before = areas_of(q, v, (k - 1) as nat);
        match q.areas@[k - 1] {
            Some(a) => before.push(
                EditBox { volume: v as usize, chunk: q.data@[k - 1].chunk, lo: a.0, hi: a.1 },
            ),
            None => before,
        }
    }
}

/// The known areas of the data chunks that are taken.
pub open spec fn taken_areas(q: Seq<EditQueue>, n: int, nv: nat) -> Seq<EditBox>
    decreases nv,
{
    if nv == 0 {
        Seq::empty()
    } else {
        taken_areas(q, n, (nv - 1) as nat) + areas_of(
            q[nv - 1],
            nv - 1,
            least(n, q[nv - 1].data.len() as int) as nat,
        )
    }
}

/// The first `k` component chunks of volume `v`.
pub open spec fn comps_of(c: Seq<ChunkCoord>, v: int, k: int) -> Seq<(usize, ChunkCoord)> {
    Seq::new(k as nat, |i: int| (v as usize, c[i]))
}

/// The component chunks that are taken.
pub open spec fn taken_comps(q: Seq<EditQueue>, n: int, nv: nat) -> Seq<(usize, ChunkCoord)>
    decreases nv,
{
    if nv == 0 {
        Seq::empty()
    } else {
        taken_comps(q, n, (nv - 1) as nat) + comps_of(
            q[nv - 1].comp@,
            nv - 1,
            least(n, q[nv - 1].comp.len() as int),
        )
    }
}

/// What is left of a queue of which `d` data chunks and `c` component chunks were taken.
pub open spec fn left_over(o: EditQueue, q: EditQueue, d: int, c: int) -> bool {
    &&& q.wf()
    &&& q.volume == o.volume
    &&& q.data@ == rest_of(o.data@, d)
    &&& q.areas@ == rest_of(o.areas@, d)
    &&& q.comp@ == rest_of(o.comp@, c)
}

/// Data chunks that wait.
pub open spec fn data_waiting(q: Seq<EditQueue>) -> Seq<usize> {
    q.map_values(|x: EditQueue| x.data.len())
}

/// Component chunks that wait.
pub open spec fn comp_waiting(q: Seq<EditQueue>) -> Seq<usize> {
    q.map_values(|x: EditQueue| x.comp.len())
}

/// Data chunks and component chunks that each volume gives in a frame: what the budget pays for,
/// but everything once more than three frames' worth of data waits.
pub open spec fn frame_counts(budget: UploadBudget, q: Seq<EditQueue>) -> (int, int) {
    let n = chunk_budget(budget.max_bytes_per_frame);
    let d = clamped(backlog_of(data_waiting(q), q.len()));
    let c = clamped(backlog_of(comp_waiting(q), q.len()));
    if d > 3 * n {
        (
            d,
            if c > n {
                c
            } else {
                n
            },
        )
    } else {
        (
            n,
            least(
                n,
                if c > 1 {
                    c
                } else {
                    1
                },
            ),
        )
    }
}

/// Takes this frame's edits from the queues. `rebuild` asks for everything, once.
pub fn poll_pending(queues: &mut Vec<EditQueue>, budget: &UploadBudget, rebuild: &mut bool) -> (r:
    MainPending)
    requires
        forall|i: int|
            0 <= i < old(queues).len() ==> (#[trigger] old(queues)@[i]).wf() && old(queues)@[i].volume == i,
    ensures
        // no chunk of a volume occurs twice
        each_once(r.data_chunks@),
        r.comp_chunks@.no_duplicates(),
        ({
            let (d, c) = frame_counts(*budget, old(queues)@);
            &&& r.data_chunks@ == taken_data(old(queues)@, d, old(queues).len() as nat)
            &&& r.data_aabbs@ == taken_areas(old(queues)@, d, old(queues).len() as nat)
            &&& r.comp_chunks@ == taken_comps(old(queues)@, c, old(queues).len() as nat)
            &&& final(queues).len() == old(queues).len()
            &&& forall|i: int|
                0 <= i < old(queues).len() ==> left_over(
                    old(queues)@[i],
                    #[trigger] final(queues)@[i],
                    d,
                    c,
                )
        }),
        r.force_full == *old(rebuild),
        !*final(rebuild),
{
    let ghost q0 = queues@;
    let force_full: bool = *rebuild;
    *rebuild = false;
    let (data_n, comp_n): (usize, usize) = count(queues, budget);
    let mut data_chunks: Vec<PendingEdit> = Vec::new();
    let mut data_aabbs: Vec<EditBox> = Vec::new();
    let mut comp_chunks: Vec<(usize, ChunkCoord)> = Vec::new();
    let mut v: usize = 0;
    while v < queues.len()
        invariant
            v <= queues.len(),
            queues.len() == q0.len(),
            forall|i: int| 0 <= i < q0.len() ==> (#[trigger] q0[i]).wf() && q0[i].volume == i,
            forall|i: int| v <= i < q0.len() ==> #[trigger] queues@[i] == q0[i],
            forall|i: int|
                0 <= i < v ==> left_over(q0[i], #[trigger] queues@[i], data_n as int, comp_n as int),
            data_chunks@ == taken_data(q0, data_n as int, v as nat),
            data_aabbs@ == taken_areas(q0, data_n as int, v as nat),
            comp_chunks@ == taken_comps(q0, comp_n as int, v as nat),
        decreases queues.len() - v,
    {
        let mut q: EditQueue = EditQueue::new(v);
        core::mem::swap(&mut queues[v], &mut q);
        assert(q == q0[v as int]);
        collect_areas(&q, v, data_n, &mut data_aabbs);
        collect_comps(&q, v, comp_n, &mut comp_chunks);
        let k: usize = if data_n < q.data.len() { data_n } else { q.data.len() };
        let rest: Vec<PendingEdit> = q.data.split_off(k);
        let areas: Vec<Option<(IVec3, IVec3)>> = q.areas.split_off(k);
        let m: usize = if comp_n < q.comp.len() { comp_n } else { q.comp.len() };
        let comp: Vec<ChunkCoord> = q.comp.split_off(m);
        let ghost before = data_chunks@;
        let mut taken: Vec<PendingEdit> = q.data;
        proof {
            let o = q0[v as int];
            assert(taken@ =~= first_of(o.data@, data_n as int));
            assert(rest@ =~= rest_of(o.data@, data_n as int));
            assert(areas@ =~= rest_of(o.areas@, data_n as int));
            assert(comp@ =~= rest_of(o.comp@, comp_n as int));
        }
        data_chunks.append(&mut taken);
        let left: EditQueue = EditQueue { volume: v, data: rest, areas, comp };
        proof {
            let o = q0[v as int];
            assert forall|i: int| 0 <= i < left.data.len() implies #[trigger] left.data@[i] == o.data@[i
                + k] by {}
            assert forall|i: int, j: int| 0 <= i < j < left.data.len() implies (
            #[trigger] left.data@[i]).chunk != (#[trigger] left.data@[j]).chunk by {
                assert(o.data@[i + k].chunk != o.data@[j + k].chunk);
            }
            assert forall|i: int, j: int| 0 <= i < left.comp.len() && 0 <= j < left.comp.len() && i != j implies left.comp@[i]
                != left.comp@[j] by {
                assert(o.comp@[i + m] != o.comp@[j + m]);
            }
        }
        queues.set(v, left);
        v += 1;
    }
    proof {
        lemma_each_once(q0, data_n as int, q0.len());
        lemma_comps_once(q0, comp_n as int, q0.len());
    }
    MainPending { force_full, data_chunks, comp_chunks, data_aabbs }
}

/// No chunk of a volume is named twice.
pub open spec fn each_once(edits: Seq<PendingEdit>) -> bool {
    forall|k: int, l: int|
        0 <= k < l < edits.len() ==> (#[trigger] edits[k]).volume != (#[trigger] edits[l]).volume
            || edits[k].chunk != edits[l].chunk
}

proof fn lemma_each_once(q: Seq<EditQueue>, n: int, nv: nat)
    requires
        nv <= q.len(),
        0 <= n,
        forall|i: int| 0 <= i < q.len() ==> (#[trigger] q[i]).wf() && q[i].volume == i,
    ensures
        each_once(taken_data(q, n, nv)),
        forall|k: int|
            0 <= k < taken_data(q, n, nv).len() ==> (#[trigger] taken_data(q, n, nv)[k]).volume < nv,
    decreases nv,
{
    if nv > 0 {
        lemma_each_once(q, n, (nv - 1) as nat);
        let a = taken_data(q, n, (nv - 1) as nat);
        let x = q[nv - 1];
        let b = first_of(x.data@, n);
        let r = taken_data(q, n, nv);
        assert(x.wf() && x.volume == nv - 1);
        assert forall|k: int| 0 <= k < r.len() implies (#[trigger] r[k]).volume < nv && (k >= a.len()
            ==> r[k] == x.data@[k - a.len()] && r[k].volume == nv - 1) && (k < a.len() ==> r[k] == a[k]) by {
            if k >= a.len() {
                assert(r[k] == b[k - a.len()]);
                assert(x.data@[k - a.len()].volume == x.volume);
            } else {
                assert(r[k] == a[k]);
            }
        }
        assert forall|k: int, l: int| 0 <= k < l < r.len() implies (#[trigger] r[k]).volume != (
        #[trigger] r[l]).volume || r[k].chunk != r[l].chunk by {
            if l < a.len() {
                assert(a[k].volume != a[l].volume || a[k].chunk != a[l].chunk);
            } else if k >= a.len() {
                assert(x.data@[k - a.len()].chunk != x.data@[l - a.len()].chunk);
            } else {
                assert(a[k].volume < nv - 1);
            }
        }
    }
}

proof fn lemma_comps_once(q: Seq<EditQueue>, n: int, nv: nat)
    requires
        nv <= q.len(),
        q.len() <= usize::MAX,
        0 <= n,
        forall|i: int| 0 <= i < q.len() ==> (#[trigger] q[i]).wf(),
    ensures
        taken_comps(q, n, nv).no_duplicates(),
        forall|k: int|
            0 <= k < taken_comps(q, n, nv).len() ==> (#[trigger] taken_comps(q, n, nv)[k]).0 < nv,
    decreases nv,
{
    if nv > 0 {
        lemma_comps_once(q, n, (nv - 1) as nat);
        let a = taken_comps(q, n, (nv - 1) as nat);
        let c = q[nv - 1].comp@;
        let r = taken_comps(q, n, nv);
        assert(q[nv - 1].wf());
        assert forall|k: int| 0 <= k < r.len() implies (#[trigger] r[k]).0 < nv && (k >= a.len() ==> r[k] == (
            (nv - 1) as usize,
            c[k - a.len()],
        )) && (k < a.len() ==> r[k] == a[k]) by {}
        assert forall|k: int, l: int| 0 <= k < r.len() && 0 <= l < r.len() && k != l implies r[k] != r[l] by {
            if k >= a.len() && l >= a.len() {
                assert(c[k - a.len()] != c[l - a.len()]);
            } else if k < a.len() && l < a.len() {
                assert(a[k] != a[l]);
            } else if k < a.len() {
                assert(a[k].0 < nv - 1);
            } else {
                assert(a[l].0 < nv - 1);
            }
        }
    }
}

fn count(queues: &Vec<EditQueue>, budget: &UploadBudget) -> (r: (usize, usize))
    ensures
        (r.0 as int, r.1 as int) == frame_counts(*budget, queues@),
{
    let mut data: Vec<usize> = Vec::new();
    let mut comp: Vec<usize> = Vec::new();
    let mut i: usize = 0;
    while i < queues.len()
        invariant
            i <= queues.len(),
            data@ == data_waiting(queues@).take(i as int),
            comp@ == comp_waiting(queues@).take(i as int),
        decreases queues.len() - i,
    {
        data.push(queues[i].data.len());
        comp.push(queues[i].comp.len());
        proof {
            assert(data@ =~= data_waiting(queues@).take(i + 1));
            assert(comp@ =~= comp_waiting(queues@).take(i + 1));
        }
        i += 1;
    }
    proof {
        assert(data@ =~= data_waiting(queues@));
        assert(comp@ =~= comp_waiting(queues@));
    }
    drain_counts(budget, &data, &comp)
}

fn collect_areas(q: &EditQueue, v: usize, n: usize, out: &mut Vec<EditBox>)
    requires
        q.wf(),
    ensures
        final(out)@ == old(out)@ + areas_of(*q, v as int, least(n as int, q.data.len() as int) as nat),
{
    let ghost before = out@;
    let k: usize = if n < q.data.len() { n } else { q.data.len() };
    let mut i: usize = 0;
    assert(out@ =~= before + areas_of(*q, v as int, 0));
    while i < k
        invariant
            i <= k <= q.data.len(),
            q.wf(),
            out@ == before + areas_of(*q, v as int, i as nat),
        decreases k - i,
    {
        let ghost o0 = out@;
        if let Some((lo, hi)) = q.areas[i] {
            out.push(EditBox { volume: v, chunk: q.data[i].chunk, lo, hi });
        }
        proof {
            assert(out@ =~= before + areas_of(*q, v as int, (i + 1) as nat));
        }
        i += 1;
    }
}

fn collect_comps(q: &EditQueue, v: usize, n: usize, out: &mut Vec<(usize, ChunkCoord)>)
    ensures
        final(out)@ == old(out)@ + comps_of(q.comp@, v as int, least(n as int, q.comp.len() as int)),
{
    let ghost before = out@;
    let k: usize = if n < q.comp.len() { n } else { q.comp.len() };
    let mut i: usize = 0;
    assert(out@ =~= before + comps_of(q.comp@, v as int, 0));
    while i < k
        invariant
            i <= k <= q.comp.len(),
            out@ == before + comps_of(q.comp@, v as int, i as int),
        decreases k - i,
    {
        out.push((v, q.comp[i]));
        proof {
            assert(out@ =~= before + comps_of(q.comp@, v as int, i + 1));
        }
        i += 1;
    }
}

/// No edit is lost or doubled: what a frame takes of a volume and what it leaves are together what
/// was there, in the same order.
pub proof fn lemma_nothing_is_lost(o: EditQueue, q: EditQueue, d: int, c: int)
    requires
        o.wf(),
        0 <= d,
        0 <= c,
        left_over(o, q, d, c),
    ensures
        first_of(o.data@, d) + q.data@ == o.data@,
        first_of(o.areas@, d) + q.areas@ == o.areas@,
        first_of(o.comp@, c) + q.comp@ == o.comp@,
{
    assert(first_of(o.data@, d) + q.data@ =~= o.data@);
    assert(first_of(o.areas@, d) + q.areas@ =~= o.areas@);
    assert(first_of(o.comp@, c) + q.comp@ =~= o.comp@);
}

/// Every frame in which data waits takes some of it from each volume that has any.
pub proof fn lemma_queues_drain(budget: UploadBudget, q: Seq<EditQueue>, i: int)
    requires
        0 <= i < q.len(),
        q[i].data.len() > 0,
    ensures
        frame_counts(budget, q).0 >= 1,
        first_of(q[i].data@, frame_counts(budget, q).0).len() >= 1,
{
}

/// A joined area reaches around both, on each axis, and no farther; where one of the two is not known,
/// the joined one is not.
pub proof fn lemma_joined_area(a: Option<(IVec3, IVec3)>, b: Option<(IVec3, IVec3)>)
    ensures
        a is None || b is None ==> joined_area(a, b) is None,
        a is Some && b is Some ==> joined_area(a, b) is Some && ({
            let (x, y, j) = (a->0, b->0, joined_area(a, b)->0);
            &&& j.0.x <= x.0.x && j.0.x <= y.0.x && (j.0.x == x.0.x || j.0.x == y.0.x)
            &&& j.0.y <= x.0.y && j.0.y <= y.0.y && (j.0.y == x.0.y || j.0.y == y.0.y)
            &&& j.0.z <= x.0.z && j.0.z <= y.0.z && (j.0.z == x.0.z || j.0.z == y.0.z)
            &&& j.1.x >= x.1.x && j.1.x >= y.1.x && (j.1.x == x.1.x || j.1.x == y.1.x)
            &&& j.1.y >= x.1.y && j.1.y >= y.1.y && (j.1.y == x.1.y || j.1.y == y.1.y)
            &&& j.1.z >= x.1.z && j.1.z >= y.1.z && (j.1.z == x.1.z || j.1.z == y.1.z)
        }),
{
}

/// Queue entry `k`'s area, as a box of volume `v`.
spec fn area_box(q: EditQueue, v: int, k: int) -> EditBox {
    EditBox {
        volume: v as usize,
        chunk: q.data@[k].chunk,
        lo: (q.areas@[k]->0).0,
        hi: (q.areas@[k]->0).1,
    }
}

proof fn lemma_areas_of(q: EditQueue, v: int, n: nat, k: int)
    requires
        n <= q.areas.len(),
        n <= q.data.len(),
        0 <= k < n,
        q.areas@[k] is Some,
    ensures
        areas_of(q, v, n).contains(area_box(q, v, k)),
    decreases n,
{
    let m = (n - 1) as nat;
    let e = area_box(q, v, k);
    if k < m {
        lemma_areas_of(q, v, m, k);
        let i = choose|i: int| 0 <= i < areas_of(q, v, m).len() && areas_of(q, v, m)[i] == e;
        assert(areas_of(q, v, n)[i] == e);
    } else {
        assert(areas_of(q, v, n)[areas_of(q, v, n).len() - 1] == e);
    }
}

proof fn lemma_area_of(q: EditQueue, v: int, n: nat, i: int) -> (k: int)
    requires
        n <= q.areas.len(),
        n <= q.data.len(),
        0 <= i < areas_of(q, v, n).len(),
    ensures
        0 <= k < n,
        q.areas@[k] is Some,
        areas_of(q, v, n)[i] == area_box(q, v, k),
    decreases n,
{
    let m = (n - 1) as nat;
    if i < areas_of(q, v, m).len() {
        lemma_area_of(q, v, m, i)
    } else {
        n - 1
    }
}

/// The first `n` edits of every queue are taken, each with its area where that is known, and the first
/// `n` component chunks: each under its volume's number and for its own chunk.
pub proof fn lemma_first_are_taken(q: Seq<EditQueue>, n: int, nv: nat, v: int, k: int)
    requires
        nv <= q.len(),
        q.len() <= usize::MAX,
        0 <= v < nv,
        q[v].wf(),
        0 <= k < n,
    ensures
        k < q[v].data.len() ==> taken_data(q, n, nv).contains(q[v].data@[k]),
        k < q[v].data.len() && q[v].areas@[k] is Some ==> exists|i: int|
            0 <= i < taken_areas(q, n, nv).len() && ({
                let b = #[trigger] taken_areas(q, n, nv)[i];
                &&& b.volume == v
                &&& b.chunk == q[v].data@[k].chunk
                &&& b.lo == (q[v].areas@[k]->0).0
                &&& b.hi == (q[v].areas@[k]->0).1
            }),
        k < q[v].comp.len() ==> taken_comps(q, n, nv).contains((v as usize, q[v].comp@[k])),
    decreases nv,
{
    let m = (nv - 1) as nat;
    let (d0, d) = (taken_data(q, n, m), taken_data(q, n, nv));
    let (a0, a) = (taken_areas(q, n, m), taken_areas(q, n, nv));
    let (c0, c) = (taken_comps(q, n, m), taken_comps(q, n, nv));
    if v < m {
        lemma_first_are_taken(q, n, m, v, k);
        if k < q[v].data.len() {
            let i = choose|i: int| 0 <= i < d0.len() && d0[i] == q[v].data@[k];
            assert(d[i] == d0[i]);
            if q[v].areas@[k] is Some {
                let i = choose|i: int|
                    0 <= i < a0.len() && ({
                        let b = #[trigger] a0[i];
                        &&& b.volume == v
                        &&& b.chunk == q[v].data@[k].chunk
                        &&& b.lo == (q[v].areas@[k]->0).0
                        &&& b.hi == (q[v].areas@[k]->0).1
                    });
                assert(a[i] == a0[i]);
            }
        }
        if k < q[v].comp.len() {
            let i = choose|i: int| 0 <= i < c0.len() && c0[i] == (v as usize, q[v].comp@[k]);
            assert(c[i] == c0[i]);
        }
    } else {
        if k < q[v].data.len() {
            assert(d[d0.len() + k] == q[v].data@[k]);
            if q[v].areas@[k] is Some {
                let len = least(n, q[v].data.len() as int) as nat;
                lemma_areas_of(q[v], v, len, k);
                let e = area_box(q[v], v, k);
                let part = areas_of(q[v], v, len);
                assert(part.contains(e));
                let i = choose|i: int| 0 <= i < part.len() && part[i] == e;
                assert(a[a0.len() + i] == e);
            }
        }
        if k < q[v].comp.len() {
            assert(c[c0.len() + k] == (v as usize, q[v].comp@[k]));
        }
    }
}

/// No box is reported but the known areas of edits that are taken: box `i` is that of entry `k`.
pub proof fn lemma_only_known_areas_are_taken(q: Seq<EditQueue>, n: int, nv: nat, i: int) -> (k: int)
    requires
        nv <= q.len(),
        q.len() <= usize::MAX,
        0 <= n,
        forall|v: int| 0 <= v < q.len() ==> (#[trigger] q[v]).wf(),
        0 <= i < taken_areas(q, n, nv).len(),
    ensures
        taken_areas(q, n, nv)[i].volume < nv,
        0 <= k < n,
        k < q[taken_areas(q, n, nv)[i].volume as int].data.len(),
        q[taken_areas(q, n, nv)[i].volume as int].data@[k].chunk == taken_areas(q, n, nv)[i].chunk,
        q[taken_areas(q, n, nv)[i].volume as int].areas@[k] == Some(
            (taken_areas(q, n, nv)[i].lo, taken_areas(q, n, nv)[i].hi),
        ),
    decreases nv,
{
    let m = (nv - 1) as nat;
    let a0 = taken_areas(q, n, m);
    let a = taken_areas(q, n, nv);
    if i < a0.len() {
        assert(a[i] == a0[i]);
        lemma_only_known_areas_are_taken(q, n, m, i)
    } else {
        let v = m as int;
        assert(q[v].wf());
        let len = least(n, q[v].data.len() as int) as nat;
        let part = areas_of(q[v], v, len);
        assert(a == a0 + part);
        assert(a[i] == part[i - a0.len()]);
        lemma_area_of(q[v], v, len, i - a0.len())
    }
}

/// A frame takes at most its budget, unless more than three times that much waits: then it takes
/// everything, so that the backlog never outlives its frame. The components follow the same budget.
pub proof fn lemma_frame_counts(budget: UploadBudget, q: Seq<EditQueue>)
    requires
        backlog_of(data_waiting(q), q.len()) <= usize::MAX,
        backlog_of(comp_waiting(q), q.len()) <= usize::MAX,
        0 <= backlog_of(comp_waiting(q), q.len()),
    ensures
        ({
            let n = chunk_budget(budget.max_bytes_per_frame);
            let (d, c) = frame_counts(budget, q);
            let waiting = backlog_of(data_waiting(q), q.len());
            let comps = backlog_of(comp_waiting(q), q.len());
            &&& waiting > 3 * n ==> d >= waiting && c >= comps && c >= n
            &&& waiting <= 3 * n ==> d == n && 1 <= c <= n
            &&& waiting <= 3 * n && 1 <= comps <= n ==> c >= comps
        }),
{
}

/// A joined report speaks of what either spoke of: it asks for a new installation when one of them did,
/// and it lists the nodes of both and no others.
pub proof fn lemma_joined_report(a: TreeDirty, b: TreeDirty, r: TreeDirty, x: (u8, u32))
    requires
        is_joined(a, b, r),
    ensures
        r.reset <==> a.reset || b.reset,
        r.nodes@.contains(x) <==> a.nodes@.contains(x) || b.nodes@.contains(x),
        deepest_first(a.nodes@) ==> deepest_first(r.nodes@),
{
    lemma_joined_nodes(a.nodes@, b.nodes@, b.nodes@.len());
    assert(b.nodes@.take(b.nodes@.len() as int) =~= b.nodes@);
}

} // verus!
