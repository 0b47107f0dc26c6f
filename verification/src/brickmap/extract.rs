//! From edits to a snapshot: what waits is worked into the builders, and what changed is reported.

use super::builder::{anew, content_words, len_ok, BrickMapBuilder, ChunkUpdate};
use super::grid::{TreeDirty, VolumeGrid};
use super::tree::content_len;
use super::upload::{at_most, DirtyBox};
use super::volumes::{
    can_build, grid_kept, palette_step, reserve_words, struct_before, totals_ok, updated,
    VolumesBuilder, VolumesSnapshot,
};
use super::wire::{CHUNK_SIZE, PALETTE_WORDS, TREE_BASE};
use crate::math::{ChunkCoord, IVec3};
use vstd::prelude::*;

verus! {

/// A chunk whose voxels changed, with the nodes that changed.
#[derive(Debug)]
pub struct PendingEdit {
    /// Volume: 0 is the main world.
    pub volume: usize,
    pub chunk: ChunkCoord,
    pub dirty: TreeDirty,
}

/// The voxels of a chunk that an edit touched, closed below and open above.
#[derive(Debug, Clone, Copy, PartialEq, Eq, Structural)]
pub struct EditBox {
    pub volume: usize,
    pub chunk: ChunkCoord,
    pub lo: IVec3,
    pub hi: IVec3,
}

/// A volume's changed voxels, in the volume's own space.
#[derive(Debug, Clone, Copy, PartialEq, Eq, Structural)]
pub struct VolumeBox {
    pub volume: usize,
    pub area: DirtyBox,
}

/// What a frame hands over.
#[derive(Debug)]
pub struct MainPending {
    pub force_full: bool,
    pub data_chunks: Vec<PendingEdit>,
    /// Chunks whose components changed.
    pub comp_chunks: Vec<(usize, ChunkCoord)>,
    pub data_aabbs: Vec<EditBox>,
}

/// The builders, with what has not been worked in yet.
pub struct BuilderMirror {
    pub builder: Option<VolumesBuilder>,
    pub pending_full: bool,
    pub pending_data_chunks: Vec<PendingEdit>,
    pub pending_data_aabbs: Vec<EditBox>,
    pub pending_comp_chunks: Vec<(usize, ChunkCoord)>,
    /// Palette versions at the last snapshot.
    pub palette_versions: Vec<u64>,
}

/// What this frame's upload changes.
#[derive(Debug)]
pub struct BrickMapDirty {
    /// Everything is uploaded.
    pub full: bool,
    /// A palette changed: there is no telling which voxels it touches.
    pub palette_changed: bool,
    /// One box per volume with changes.
    pub boxes: Vec<VolumeBox>,
}

/// What a frame's extraction gives.
#[derive(Debug)]
pub struct Extracted {
    pub dirty: BrickMapDirty,
    /// `None` when nothing changed.
    pub snapshot: Option<VolumesSnapshot>,
}

/// How a frame extracts.
#[derive(Debug, Clone, Copy, PartialEq, Eq, Structural)]
pub struct ExtractMode {
    /// Upload changes only.
    pub incremental: bool,
    /// All edits lie inside solid matter: nothing that can be seen has changed.
    pub interior_only_edit: bool,
    /// No stroke is under way and nothing else waits: blocks may be moved.
    pub quiet: bool,
}

/// The voxels of a chunk.
pub open spec fn chunk_box(c: ChunkCoord) -> DirtyBox {
    DirtyBox {
        lo: IVec3 {
            x: (c.0.x * 256) as i32,
            y: (c.0.y * 256) as i32,
            z: (c.0.z * 256) as i32,
        },
        hi: IVec3 {
            x: (c.0.x * 256 + 256) as i32,
            y: (c.0.y * 256 + 256) as i32,
            z: (c.0.z * 256 + 256) as i32,
        },
    }
}

/// The chunk's voxels have coordinates.
pub open spec fn chunk_fits(c: ChunkCoord) -> bool {
    &&& -0x80_0000 <= c.0.x < 0x7F_FFFF
    &&& -0x80_0000 <= c.0.y < 0x7F_FFFF
    &&& -0x80_0000 <= c.0.z < 0x7F_FFFF
}

/// The changed voxels of a chunk: the first of the boxes from `i` on that is about it, or else the
/// whole chunk.
pub open spec fn edit_area(boxes: Seq<EditBox>, i: int, v: usize, c: ChunkCoord) -> DirtyBox
    decreases boxes.len() - i,
{
    if i >= boxes.len() {
        chunk_box(c)
    } else if boxes[i].volume == v && boxes[i].chunk == c {
        DirtyBox { lo: boxes[i].lo, hi: boxes[i].hi }
    } else {
        edit_area(boxes, i + 1, v, c)
    }
}

fn find_area(boxes: &Vec<EditBox>, v: usize, c: ChunkCoord) -> (r: DirtyBox)
    requires
        chunk_fits(c),
    ensures
        r == edit_area(boxes@, 0, v, c),
{
    let mut i: usize = 0;
    while i < boxes.len()
        invariant
            i <= boxes.len(),
            edit_area(boxes@, 0, v, c) == edit_area(boxes@, i as int, v, c),
        decreases boxes.len() - i,
    {
        if boxes[i].volume == v && boxes[i].chunk == c {
            return DirtyBox { lo: boxes[i].lo, hi: boxes[i].hi };
        }
        i += 1;
    }
    let lo: IVec3 = IVec3::new(c.0.x * CHUNK_SIZE, c.0.y * CHUNK_SIZE, c.0.z * CHUNK_SIZE);
    let hi: IVec3 = IVec3::new(lo.x + CHUNK_SIZE, lo.y + CHUNK_SIZE, lo.z + CHUNK_SIZE);
    DirtyBox { lo, hi }
}

/// Chunks with changes: edited voxels first, then components.
pub open spec fn touched(edits: Seq<PendingEdit>, comps: Seq<(usize, ChunkCoord)>) -> Seq<
    (usize, ChunkCoord),
> {
    edits.map_values(|e: PendingEdit| (e.volume, e.chunk)) + comps
}

pub open spec fn has_volume(g: Seq<VolumeBox>, v: usize) -> bool {
    exists|i: int| 0 <= i < g.len() && (#[trigger] g[i]).volume == v
}

/// `g` with `area` joined to the box of volume `v`.
pub open spec fn joined_in(g: Seq<VolumeBox>, v: usize, area: DirtyBox) -> Seq<VolumeBox> {
    g.map_values(
        |e: VolumeBox|
            if e.volume == v {
                VolumeBox { volume: v, area: e.area.joined(area) }
            } else {
                e
            },
    )
}

/// One box per volume around the first `n` changed chunks, in order of their first change.
pub open spec fn gathered(
    chunks: Seq<(usize, ChunkCoord)>,
    boxes: Seq<EditBox>,
    n: nat,
) -> Seq<VolumeBox>
    decreases n,
{
    if n == 0 {
        Seq::empty()
    } else {
        let g = gathered(chunks, boxes, (n - 1) as nat);
        let (v, c) = chunks[n - 1];
        let area = edit_area(boxes, 0, v, c);
        if has_volume(g, v) {
            joined_in(g, v, area)
        } else {
            g.push(VolumeBox { volume: v, area })
        }
    }
}

/// The boxes of volumes below `nv`, among the first `n`.
pub open spec fn known(g: Seq<VolumeBox>, nv: int, n: nat) -> Seq<VolumeBox>
    decreases n,
{
    if n == 0 {
        Seq::empty()
    } else {
        let k = known(g, nv, (n - 1) as nat);
        if g[n - 1].volume < nv {
            k.push(g[n - 1])
        } else {
            k
        }
    }
}

/// One box per volume around its changed chunks.
pub open spec fn changed_boxes(
    edits: Seq<PendingEdit>,
    comps: Seq<(usize, ChunkCoord)>,
    boxes: Seq<EditBox>,
    nv: int,
) -> Seq<VolumeBox> {
    let t = touched(edits, comps);
    let g = gathered(t, boxes, t.len());
    known(g, nv, g.len())
}

proof fn lemma_gathered_distinct(chunks: Seq<(usize, ChunkCoord)>, boxes: Seq<EditBox>, n: nat)
    ensures
        forall|i: int, j: int|
            #![trigger gathered(chunks, boxes, n)[i], gathered(chunks, boxes, n)[j]]
            0 <= i < j < gathered(chunks, boxes, n).len() ==> gathered(chunks, boxes, n)[i].volume
                != gathered(chunks, boxes, n)[j].volume,
    decreases n,
{
    if n > 0 {
        lemma_gathered_distinct(chunks, boxes, (n - 1) as nat);
        let g0 = gathered(chunks, boxes, (n - 1) as nat);
        let g = gathered(chunks, boxes, n);
        assert forall|i: int, j: int| #![trigger g[i], g[j]] 0 <= i < j < g.len() implies g[i].volume
            != g[j].volume by {
            assert(i < g0.len());
            assert(g[i].volume == g0[i].volume);
            if j < g0.len() {
                assert(g[j].volume == g0[j].volume);
                assert(g0[i].volume != g0[j].volume);
            } else {
                assert(!has_volume(g0, chunks[n - 1].0));
            }
        }
    }
}

fn gather_one(g: &mut Vec<VolumeBox>, v: usize, area: DirtyBox)
    requires
        forall|i: int, j: int|
            #![trigger old(g)@[i], old(g)@[j]]
            0 <= i < j < old(g).len() ==> old(g)@[i].volume != old(g)@[j].volume,
    ensures
        final(g)@ == (if has_volume(old(g)@, v) {
            joined_in(old(g)@, v, area)
        } else {
            old(g)@.push(VolumeBox { volume: v, area })
        }),
{
    let ghost g0 = g@;
    let mut i: usize = 0;
    while i < g.len()
        invariant
            i <= g.len(),
            g@ == g0,
            g0 == old(g)@,
            forall|k: int, j: int|
                #![trigger g0[k], g0[j]]
                0 <= k < j < g0.len() ==> g0[k].volume != g0[j].volume,
            forall|k: int| 0 <= k < i ==> (#[trigger] g0[k]).volume != v,
        decreases g.len() - i,
    {
        if g[i].volume == v {
            let mut joined: DirtyBox = g[i].area;
            joined.union_with(&area);
            g[i] = VolumeBox { volume: v, area: joined };
            proof {
                assert(g0[i as int].volume == v);
                assert forall|k: int| 0 <= k < g0.len() && k != i implies (#[trigger] g0[k]).volume != v by {
                    if k > i {
                        assert(g0[i as int].volume != g0[k].volume);
                    }
                }
                assert(g@ =~= joined_in(g0, v, area));
            }
            return ;
        }
        i += 1;
    }
    g.push(VolumeBox { volume: v, area });
}

/// One box per volume around its changed chunks.
pub fn collect_boxes(
    edits: &Vec<PendingEdit>,
    comps: &Vec<(usize, ChunkCoord)>,
    boxes: &Vec<EditBox>,
    volumes: usize,
) -> (r: Vec<VolumeBox>)
    requires
        forall|k: int|
            0 <= k < touched(edits@, comps@).len() ==> chunk_fits(
                (#[trigger] touched(edits@, comps@)[k]).1,
            ),
    ensures
        r@ == changed_boxes(edits@, comps@, boxes@, volumes as int),
{
    let ghost t = touched(edits@, comps@);
    let mut g: Vec<VolumeBox> = Vec::new();
    let mut i: usize = 0;
    while i < edits.len()
        invariant
            i <= edits.len(),
            t == touched(edits@, comps@),
            g@ == gathered(t, boxes@, i as nat),
            forall|k: int| 0 <= k < t.len() ==> chunk_fits((#[trigger] t[k]).1),
        decreases edits.len() - i,
    {
        proof {
            lemma_gathered_distinct(t, boxes@, i as nat);
            assert(t[i as int] == (edits@[i as int].volume, edits@[i as int].chunk));
        }
        let area: DirtyBox = find_area(boxes, edits[i].volume, edits[i].chunk);
        gather_one(&mut g, edits[i].volume, area);
        i += 1;
    }
    let mut j: usize = 0;
    while j < comps.len()
        invariant
            j <= comps.len(),
            t == touched(edits@, comps@),
            g@ == gathered(t, boxes@, (edits.len() + j) as nat),
            forall|k: int| 0 <= k < t.len() ==> chunk_fits((#[trigger] t[k]).1),
        decreases comps.len() - j,
    {
        proof {
            lemma_gathered_distinct(t, boxes@, (edits.len() + j) as nat);
            assert(t[edits.len() + j] == comps@[j as int]);
        }
        let area: DirtyBox = find_area(boxes, comps[j].0, comps[j].1);
        gather_one(&mut g, comps[j].0, area);
        j += 1;
    }
    let mut r: Vec<VolumeBox> = Vec::new();
    let mut k: usize = 0;
    while k < g.len()
        invariant
            k <= g.len(),
            r@ == known(g@, volumes as int, k as nat),
        decreases g.len() - k,
    {
        if g[k].volume < volumes {
            r.push(g[k]);
        }
        k += 1;
    }
    r
}

/// `outer` reaches at least as far as `inner` on every side.
pub open spec fn covers(outer: DirtyBox, inner: DirtyBox) -> bool {
    at_most(outer.lo, inner.lo) && at_most(inner.hi, outer.hi)
}

proof fn lemma_gathered_covers(chunks: Seq<(usize, ChunkCoord)>, boxes: Seq<EditBox>, n: nat, k: int) -> (
    i: int)
    requires
        0 <= k < n <= chunks.len(),
    ensures
        0 <= i < gathered(chunks, boxes, n).len(),
        gathered(chunks, boxes, n)[i].volume == chunks[k].0,
        covers(
            gathered(chunks, boxes, n)[i].area,
            edit_area(boxes, 0, chunks[k].0, chunks[k].1),
        ),
    decreases n,
{
    let g0 = gathered(chunks, boxes, (n - 1) as nat);
    let g = gathered(chunks, boxes, n);
    let v = chunks[n - 1].0;
    if k == n - 1 {
        if has_volume(g0, v) {
            let i = choose|i: int| 0 <= i < g0.len() && (#[trigger] g0[i]).volume == v;
            assert(g[i].volume == v);
            i
        } else {
            g0.len() as int
        }
    } else {
        let i = lemma_gathered_covers(chunks, boxes, (n - 1) as nat, k);
        assert(g[i].volume == g0[i].volume);
        i
    }
}

proof fn lemma_known(g: Seq<VolumeBox>, nv: int, n: nat, i: int) -> (j: int)
    requires
        0 <= i < n <= g.len(),
        g[i].volume < nv,
    ensures
        0 <= j < known(g, nv, n).len(),
        known(g, nv, n)[j] == g[i],
    decreases n,
{
    if i == n - 1 {
        known(g, nv, n).len() - 1
    } else {
        lemma_known(g, nv, (n - 1) as nat, i)
    }
}

/// No change goes unreported: the changed voxels of every chunk lie in the box of its volume.
pub proof fn lemma_boxes_cover(
    edits: Seq<PendingEdit>,
    comps: Seq<(usize, ChunkCoord)>,
    boxes: Seq<EditBox>,
    nv: int,
    k: int,
)
    requires
        0 <= k < touched(edits, comps).len(),
        touched(edits, comps)[k].0 < nv,
    ensures
        exists|j: int|
            0 <= j < changed_boxes(edits, comps, boxes, nv).len() && (#[trigger] changed_boxes(
                edits,
                comps,
                boxes,
                nv,
            )[j]).volume == touched(edits, comps)[k].0 && covers(
                changed_boxes(edits, comps, boxes, nv)[j].area,
                edit_area(boxes, 0, touched(edits, comps)[k].0, touched(edits, comps)[k].1),
            ),
{
    let t = touched(edits, comps);
    let g = gathered(t, boxes, t.len());
    let i = lemma_gathered_covers(t, boxes, t.len(), k);
    let j = lemma_known(g, nv, g.len(), i);
    assert(changed_boxes(edits, comps, boxes, nv)[j].volume == t[k].0);
}

/// The box of a chunk holds the voxels whose coordinates, divided by the chunk's edge and rounded
/// down, are the chunk's on all three axes, and no others.
pub proof fn lemma_chunk_box(c: ChunkCoord, x: int, y: int, z: int)
    requires
        chunk_fits(c),
    ensures
        chunk_box(c).holds((x, y, z)) <==> x / CHUNK_SIZE as int == c.0.x && y / CHUNK_SIZE as int
            == c.0.y && z / CHUNK_SIZE as int == c.0.z,
        chunk_box(c).lo.x <= x < chunk_box(c).hi.x <==> x / CHUNK_SIZE as int == c.0.x,
        chunk_box(c).lo.y <= y < chunk_box(c).hi.y <==> y / CHUNK_SIZE as int == c.0.y,
        chunk_box(c).lo.z <= z < chunk_box(c).hi.z <==> z / CHUNK_SIZE as int == c.0.z,
{
}

/// No box is about chunk `c` of volume `v`.
pub open spec fn no_box(boxes: Seq<EditBox>, v: usize, c: ChunkCoord) -> bool {
    forall|i: int| 0 <= i < boxes.len() && (#[trigger] boxes[i]).volume == v ==> boxes[i].chunk != c
}

/// Without a box about it the whole chunk has changed, and with one the voxels of the first.
proof fn lemma_edit_area(boxes: Seq<EditBox>, from: int, v: usize, c: ChunkCoord)
    requires
        0 <= from <= boxes.len(),
    ensures
        no_box(boxes, v, c) ==> edit_area(boxes, from, v, c) == chunk_box(c),
        forall|i: int|
            from <= i < boxes.len() && (#[trigger] boxes[i]).volume == v && boxes[i].chunk == c && (
            forall|j: int|
                from <= j < i && (#[trigger] boxes[j]).volume == v ==> boxes[j].chunk != c)
                ==> edit_area(boxes, from, v, c) == (DirtyBox { lo: boxes[i].lo, hi: boxes[i].hi }),
    decreases boxes.len() - from,
{
    if from < boxes.len() {
        lemma_edit_area(boxes, from + 1, v, c);
        assert forall|i: int|
            from <= i < boxes.len() && (#[trigger] boxes[i]).volume == v && boxes[i].chunk == c && (
            forall|j: int|
                from <= j < i && (#[trigger] boxes[j]).volume == v ==> boxes[j].chunk != c) implies edit_area(
            boxes,
            from,
            v,
            c,
        ) == (DirtyBox { lo: boxes[i].lo, hi: boxes[i].hi }) by {
            if i > from {
                assert(boxes[from].volume == v ==> boxes[from].chunk != c);
            }
        }
    }
}

/// A changed chunk without a recorded box is reported whole: every voxel whose coordinates, divided
/// by the chunk's edge and rounded down, are the chunk's lies in the box of its volume.
pub proof fn lemma_whole_chunk_is_reported(
    edits: Seq<PendingEdit>,
    comps: Seq<(usize, ChunkCoord)>,
    boxes: Seq<EditBox>,
    nv: int,
    v: usize,
    c: ChunkCoord,
    x: int,
    y: int,
    z: int,
)
    requires
        comps.contains((v, c)) || exists|e: PendingEdit| #[trigger]
            edits.contains(e) && e.volume == v && e.chunk == c,
        v < nv,
        chunk_fits(c),
        no_box(boxes, v, c),
        x / CHUNK_SIZE as int == c.0.x,
        y / CHUNK_SIZE as int == c.0.y,
        z / CHUNK_SIZE as int == c.0.z,
    ensures
        exists|j: int|
            0 <= j < changed_boxes(edits, comps, boxes, nv).len() && ({
                let b = #[trigger] changed_boxes(edits, comps, boxes, nv)[j];
                &&& b.volume == v
                &&& b.area.lo.x <= x < b.area.hi.x
                &&& b.area.lo.y <= y < b.area.hi.y
                &&& b.area.lo.z <= z < b.area.hi.z
            }),
{
    let k = lemma_touched(edits, comps, v, c);
    lemma_boxes_cover(edits, comps, boxes, nv, k);
    lemma_edit_area(boxes, 0, v, c);
    lemma_chunk_box(c, x, y, z);
    let j = choose|j: int|
        0 <= j < changed_boxes(edits, comps, boxes, nv).len() && (#[trigger] changed_boxes(
            edits,
            comps,
            boxes,
            nv,
        )[j]).volume == v && covers(
            changed_boxes(edits, comps, boxes, nv)[j].area,
            edit_area(boxes, 0, v, c),
        );
    assert(changed_boxes(edits, comps, boxes, nv)[j].volume == v);
}

/// A changed chunk with a recorded box has the voxels of the first such box reported.
pub proof fn lemma_recorded_box_is_reported(
    edits: Seq<PendingEdit>,
    comps: Seq<(usize, ChunkCoord)>,
    boxes: Seq<EditBox>,
    nv: int,
    i: int,
    x: int,
    y: int,
    z: int,
)
    requires
        0 <= i < boxes.len(),
        comps.contains((boxes[i].volume, boxes[i].chunk)) || exists|e: PendingEdit| #[trigger]
            edits.contains(e) && e.volume == boxes[i].volume && e.chunk == boxes[i].chunk,
        boxes[i].volume < nv,
        no_box(boxes.subrange(0, i), boxes[i].volume, boxes[i].chunk),
        boxes[i].lo.x <= x < boxes[i].hi.x,
        boxes[i].lo.y <= y < boxes[i].hi.y,
        boxes[i].lo.z <= z < boxes[i].hi.z,
    ensures
        exists|j: int|
            0 <= j < changed_boxes(edits, comps, boxes, nv).len() && ({
                let b = #[trigger] changed_boxes(edits, comps, boxes, nv)[j];
                &&& b.volume == boxes[i].volume
                &&& b.area.lo.x <= x < b.area.hi.x
                &&& b.area.lo.y <= y < b.area.hi.y
                &&& b.area.lo.z <= z < b.area.hi.z
            }),
{
    let (v, c) = (boxes[i].volume, boxes[i].chunk);
    let k = lemma_touched(edits, comps, v, c);
    lemma_boxes_cover(edits, comps, boxes, nv, k);
    lemma_edit_area(boxes, 0, v, c);
    assert forall|j: int| 0 <= j < i && (#[trigger] boxes[j]).volume == v implies boxes[j].chunk
        != c by {
        assert(boxes.subrange(0, i)[j] == boxes[j]);
    }
    let j = choose|j: int|
        0 <= j < changed_boxes(edits, comps, boxes, nv).len() && (#[trigger] changed_boxes(
            edits,
            comps,
            boxes,
            nv,
        )[j]).volume == v && covers(
            changed_boxes(edits, comps, boxes, nv)[j].area,
            edit_area(boxes, 0, v, c),
        );
    assert(changed_boxes(edits, comps, boxes, nv)[j].volume == v);
}

/// Boxes are reported of volumes that are there, and of each only one.
pub proof fn lemma_one_box_per_volume(
    edits: Seq<PendingEdit>,
    comps: Seq<(usize, ChunkCoord)>,
    boxes: Seq<EditBox>,
    nv: int,
    i: int,
    j: int,
)
    requires
        0 <= i < j < changed_boxes(edits, comps, boxes, nv).len(),
    ensures
        changed_boxes(edits, comps, boxes, nv)[i].volume < nv,
        changed_boxes(edits, comps, boxes, nv)[j].volume < nv,
        changed_boxes(edits, comps, boxes, nv)[i].volume != changed_boxes(
            edits,
            comps,
            boxes,
            nv,
        )[j].volume,
{
    let t = touched(edits, comps);
    let g = gathered(t, boxes, t.len());
    lemma_gathered_distinct(t, boxes, t.len());
    let (a, b) = lemma_known_pair(g, nv, g.len(), i, j);
    assert(g[a].volume != g[b].volume);
}

proof fn lemma_known_pair(g: Seq<VolumeBox>, nv: int, n: nat, i: int, j: int) -> (r: (int, int))
    requires
        n <= g.len(),
        0 <= i < j < known(g, nv, n).len(),
    ensures
        0 <= r.0 < r.1 < n,
        g[r.0] == known(g, nv, n)[i],
        g[r.1] == known(g, nv, n)[j],
        g[r.0].volume < nv,
        g[r.1].volume < nv,
    decreases n,
{
    let m = (n - 1) as nat;
    if j < known(g, nv, m).len() {
        lemma_known_pair(g, nv, m, i, j)
    } else {
        (lemma_known_place(g, nv, m, i), n - 1)
    }
}

proof fn lemma_known_place(g: Seq<VolumeBox>, nv: int, n: nat, i: int) -> (a: int)
    requires
        n <= g.len(),
        0 <= i < known(g, nv, n).len(),
    ensures
        0 <= a < n,
        g[a] == known(g, nv, n)[i],
        g[a].volume < nv,
    decreases n,
{
    let m = (n - 1) as nat;
    if i < known(g, nv, m).len() {
        lemma_known_place(g, nv, m, i)
    } else {
        n - 1
    }
}

/// A single changed chunk without a recorded box is reported alone: one box, of its volume, which
/// holds no voxel of another chunk.
pub proof fn lemma_single_chunk_is_reported_alone(
    edits: Seq<PendingEdit>,
    comps: Seq<(usize, ChunkCoord)>,
    boxes: Seq<EditBox>,
    nv: int,
    v: usize,
    c: ChunkCoord,
)
    requires
        (edits.len() == 0 && comps == seq![(v, c)]) || (comps.len() == 0 && edits.len() == 1
            && edits[0].volume == v && edits[0].chunk == c),
        v < nv,
        chunk_fits(c),
        no_box(boxes, v, c),
    ensures
        changed_boxes(edits, comps, boxes, nv).len() == 1,
        changed_boxes(edits, comps, boxes, nv)[0].volume == v,
        forall|x: int, y: int, z: int|
            #![trigger changed_boxes(edits, comps, boxes, nv)[0].area.holds((x, y, z))]
            ({
                let b = changed_boxes(edits, comps, boxes, nv)[0].area;
                b.lo.x <= x < b.hi.x && b.lo.y <= y < b.hi.y && b.lo.z <= z < b.hi.z
            }) <==> x / CHUNK_SIZE as int == c.0.x && y / CHUNK_SIZE as int == c.0.y && z
                / CHUNK_SIZE as int == c.0.z,
{
    let t = touched(edits, comps);
    assert(t =~= seq![(v, c)]);
    reveal_with_fuel(gathered, 2);
    reveal_with_fuel(known, 2);
    let g = gathered(t, boxes, 1);
    assert(!has_volume(gathered(t, boxes, 0), v));
    lemma_edit_area(boxes, 0, v, c);
    assert(g =~= seq![VolumeBox { volume: v, area: chunk_box(c) }]);
    assert(known(g, nv, 1) =~= g);
    assert forall|x: int, y: int, z: int|
        #![trigger changed_boxes(edits, comps, boxes, nv)[0].area.holds((x, y, z))]
        ({
            let b = changed_boxes(edits, comps, boxes, nv)[0].area;
            b.lo.x <= x < b.hi.x && b.lo.y <= y < b.hi.y && b.lo.z <= z < b.hi.z
        }) <==> x / CHUNK_SIZE as int == c.0.x && y / CHUNK_SIZE as int == c.0.y && z
            / CHUNK_SIZE as int == c.0.z by {
        lemma_chunk_box(c, x, y, z);
    }
}

proof fn lemma_touched(
    edits: Seq<PendingEdit>,
    comps: Seq<(usize, ChunkCoord)>,
    v: usize,
    c: ChunkCoord,
) -> (k: int)
    requires
        comps.contains((v, c)) || exists|e: PendingEdit| #[trigger]
            edits.contains(e) && e.volume == v && e.chunk == c,
    ensures
        0 <= k < touched(edits, comps).len(),
        touched(edits, comps)[k] == (v, c),
{
    let t = touched(edits, comps);
    if comps.contains((v, c)) {
        let i = choose|i: int| 0 <= i < comps.len() && comps[i] == (v, c);
        assert(t[edits.len() + i] == (v, c));
        edits.len() + i
    } else {
        let e = choose|e: PendingEdit| #[trigger]
            edits.contains(e) && e.volume == v && e.chunk == c;
        let i = choose|i: int| 0 <= i < edits.len() && edits[i] == e;
        assert(t[i] == (v, c));
        i
    }
}

/// Nothing unchanged is reported without need: a box around the changed voxels of every changed chunk
/// of a volume is around what is reported of it.
pub proof fn lemma_boxes_are_tight(
    edits: Seq<PendingEdit>,
    comps: Seq<(usize, ChunkCoord)>,
    boxes: Seq<EditBox>,
    nv: int,
    j: int,
    outer: DirtyBox,
)
    requires
        0 <= j < changed_boxes(edits, comps, boxes, nv).len(),
        forall|k: int|
            0 <= k < touched(edits, comps).len() && (#[trigger] touched(edits, comps)[k]).0
                == changed_boxes(edits, comps, boxes, nv)[j].volume ==> covers(
                outer,
                edit_area(boxes, 0, touched(edits, comps)[k].0, touched(edits, comps)[k].1),
            ),
    ensures
        ({
            let b = changed_boxes(edits, comps, boxes, nv)[j].area;
            &&& outer.lo.x <= b.lo.x && outer.lo.y <= b.lo.y && outer.lo.z <= b.lo.z
            &&& b.hi.x <= outer.hi.x && b.hi.y <= outer.hi.y && b.hi.z <= outer.hi.z
        }),
{
    let t = touched(edits, comps);
    let g = gathered(t, boxes, t.len());
    lemma_known_of(g, nv, g.len(), j);
    let i = choose|i: int| 0 <= i < g.len() && g[i] == known(g, nv, g.len())[j];
    lemma_gathered_tight(t, boxes, t.len(), i, outer);
}

proof fn lemma_known_of(g: Seq<VolumeBox>, nv: int, n: nat, j: int)
    requires
        n <= g.len(),
        0 <= j < known(g, nv, n).len(),
    ensures
        exists|i: int| 0 <= i < n && g[i] == known(g, nv, n)[j],
    decreases n,
{
    if j < known(g, nv, (n - 1) as nat).len() {
        lemma_known_of(g, nv, (n - 1) as nat, j);
        let i = choose|i: int| 0 <= i < n - 1 && g[i] == known(g, nv, (n - 1) as nat)[j];
        assert(g[i] == known(g, nv, n)[j]);
    } else {
        assert(g[n - 1] == known(g, nv, n)[j]);
    }
}

proof fn lemma_gathered_tight(
    chunks: Seq<(usize, ChunkCoord)>,
    boxes: Seq<EditBox>,
    n: nat,
    i: int,
    outer: DirtyBox,
)
    requires
        n <= chunks.len(),
        0 <= i < gathered(chunks, boxes, n).len(),
        forall|k: int|
            0 <= k < n && (#[trigger] chunks[k]).0 == gathered(chunks, boxes, n)[i].volume ==> covers(
                outer,
                edit_area(boxes, 0, chunks[k].0, chunks[k].1),
            ),
    ensures
        covers(outer, gathered(chunks, boxes, n)[i].area),
    decreases n,
{
    let g0 = gathered(chunks, boxes, (n - 1) as nat);
    let g = gathered(chunks, boxes, n);
    assert(chunks[n - 1].0 == g[i].volume ==> covers(
        outer,
        edit_area(boxes, 0, chunks[n - 1].0, chunks[n - 1].1),
    ));
    if i < g0.len() {
        assert(g[i].volume == g0[i].volume);
        lemma_gathered_tight(chunks, boxes, (n - 1) as nat, i, outer);
    }
}


/// Words by which an edit can lengthen its volume.
pub open spec fn edit_cost(b: BrickMapBuilder, g: VolumeGrid, e: PendingEdit) -> int {
    if g.content(e.chunk) && b.pos_of(e.chunk) is Some {
        b.update_cost(&g.chunks.at(e.chunk), e.chunk, &e.dirty)
    } else {
        0
    }
}

/// Words by which the first `n` edits can lengthen volume `v`.
pub open spec fn edits_cost(
    b: BrickMapBuilder,
    g: VolumeGrid,
    edits: Seq<PendingEdit>,
    v: int,
    n: nat,
) -> int
    decreases n,
{
    if n == 0 {
        0
    } else {
        edits_cost(b, g, edits, v, (n - 1) as nat) + (if edits[n - 1].volume == v {
            edit_cost(b, g, edits[n - 1])
        } else {
            0
        })
    }
}

/// Words that volume `v` can come to.
pub open spec fn ceiling(
    bs: Seq<BrickMapBuilder>,
    volumes: Seq<VolumeGrid>,
    edits: Seq<PendingEdit>,
    v: int,
) -> int {
    bs[v].words().len() + (if v < volumes.len() {
        edits_cost(bs[v], volumes[v], edits, v, edits.len())
    } else {
        0
    })
}

/// Words that the first `n` volumes can come to.
pub open spec fn ceilings(
    bs: Seq<BrickMapBuilder>,
    volumes: Seq<VolumeGrid>,
    edits: Seq<PendingEdit>,
    n: nat,
) -> int
    decreases n,
{
    if n == 0 {
        0
    } else {
        ceilings(bs, volumes, edits, (n - 1) as nat) + ceiling(bs, volumes, edits, n - 1)
    }
}

/// What a batch of edits asks of the caller: each chunk once, reports that keep their promises, and
/// 32-bit addresses.
pub open spec fn batch_ok(
    bs: Seq<BrickMapBuilder>,
    volumes: Seq<VolumeGrid>,
    edits: Seq<PendingEdit>,
) -> bool {
    &&& 1 <= bs.len()
    &&& volumes.len() <= bs.len()
    &&& forall|k: int| 0 <= k < edits.len() ==> (#[trigger] edits[k]).volume < volumes.len()
    &&& forall|k: int, l: int|
        0 <= k < l < edits.len() ==> (#[trigger] edits[k]).volume != (#[trigger] edits[l]).volume
            || edits[k].chunk != edits[l].chunk
    &&& forall|k: int|
        0 <= k < edits.len() && volumes[edits[k].volume as int].content(edits[k].chunk)
            && bs[edits[k].volume as int].pos_of(edits[k].chunk) is Some ==> (
        #[trigger] bs[edits[k].volume as int]).report_ok(
            &volumes[edits[k].volume as int].chunks.at(edits[k].chunk),
            edits[k].chunk,
            &edits[k].dirty,
        )
    &&& len_ok(ceilings(bs, volumes, edits, bs.len()))
    &&& len_ok(bs.len() * PALETTE_WORDS)
}

/// Chunk `c` of volume `v` is among the first `n` edits.
pub open spec fn edited(edits: Seq<PendingEdit>, n: int, v: int, c: ChunkCoord) -> bool {
    exists|k: int| 0 <= k < n && (#[trigger] edits[k]).volume == v && edits[k].chunk == c
}

/// The trees of volume `v` after the first `n` edits.
pub open spec fn trees_after(
    a: BrickMapBuilder,
    b: BrickMapBuilder,
    g: VolumeGrid,
    edits: Seq<PendingEdit>,
    v: int,
    n: int,
) -> bool {
    &&& forall|c: ChunkCoord|
        edited(edits, n, v, c) && a.pos_of(c) is Some ==> {
            &&& #[trigger] b.resident(c) <==> g.content(c)
            &&& b.resident(c) ==> b.tree_of(c) == g.chunks.at(c).model()
        }
    &&& forall|c: ChunkCoord|
        !(edited(edits, n, v, c) && a.pos_of(c) is Some) ==> {
            &&& #[trigger] b.resident(c) <==> a.resident(c)
            &&& b.resident(c) ==> b.tree_of(c) == a.tree_of(c) && b.cap_of(c) == a.cap_of(c)
                && b.used_of(c) == a.used_of(c)
        }
}

/// After edit `e` the block of its chunk is a new installation.
pub open spec fn whole_at(a: BrickMapBuilder, g: VolumeGrid, e: PendingEdit) -> bool {
    !a.resident(e.chunk) || anew(&e.dirty, &g.chunks.at(e.chunk))
}

/// One of the first `n` edits installs the block of chunk `c` of volume `v` anew.
pub open spec fn whole_edit(
    a: BrickMapBuilder,
    g: VolumeGrid,
    edits: Seq<PendingEdit>,
    v: int,
    n: int,
    c: ChunkCoord,
) -> bool {
    exists|k: int|
        0 <= k < n && (#[trigger] edits[k]).volume == v && edits[k].chunk == c && whole_at(
            a,
            g,
            edits[k],
        )
}

/// Edit `e` accounts for a mark on word `w`: the word is content of a node that it reports and that
/// reads otherwise than before, or belongs to a block that it gave back or installed anew.
pub open spec fn edit_mark(
    a: BrickMapBuilder,
    b: BrickMapBuilder,
    g: VolumeGrid,
    e: PendingEdit,
    w: int,
) -> bool {
    if b.resident(e.chunk) {
        (whole_at(a, g, e) && b.near(e.chunk, w)) || BrickMapBuilder::path_word(
            &a,
            &b,
            e.chunk,
            e.dirty.nodes@,
            w,
        )
    } else {
        b.near(e.chunk, w)
    }
}

/// A mark on word `w` is due to a block that moved or grew, or to one of the first `n` edits.
pub open spec fn mark_due(
    a: BrickMapBuilder,
    b: BrickMapBuilder,
    g: VolumeGrid,
    edits: Seq<PendingEdit>,
    v: int,
    n: int,
    w: int,
) -> bool {
    ||| exists|c: ChunkCoord| #[trigger]
        b.resident(c) && BrickMapBuilder::moved(&a, &b, c) && b.near(c, w)
    ||| exists|k: int|
        0 <= k < n && (#[trigger] edits[k]).volume == v && edit_mark(a, b, g, edits[k], w)
}

/// The blocks of volume `v` after the first `n` edits: those of other chunks are as they were, and
/// stand where they stood unless the frame is quiet, and nothing is marked without need.
pub open spec fn blocks_after(
    a: BrickMapBuilder,
    b: BrickMapBuilder,
    g: VolumeGrid,
    edits: Seq<PendingEdit>,
    v: int,
    n: int,
    quiet: bool,
) -> bool {
    &&& forall|c: ChunkCoord|
        !edited(edits, n, v, c) && #[trigger] b.resident(c) ==> BrickMapBuilder::pushed_down(&a, &b, c)
            && (!quiet ==> b.base_of(c) == a.base_of(c))
    &&& forall|c: ChunkCoord| #[trigger]
        b.resident(c) && a.resident(c) && !whole_edit(a, g, edits, v, n, c) && b.cap_of(c)
            == a.cap_of(c) ==> b.base_of(c) <= a.base_of(c) && (!quiet ==> b.base_of(c)
            == a.base_of(c))
    &&& forall|w: int| #[trigger]
        b.dirty_word(w) && !a.dirty_word(w) ==> mark_due(a, b, g, edits, v, n, w)
}

/// `b` is `a` once the first `n` edits are worked in, one by one, as far as they are of volume `v`.
pub open spec fn chained(
    a: BrickMapBuilder,
    b: BrickMapBuilder,
    g: VolumeGrid,
    edits: Seq<PendingEdit>,
    v: int,
    n: nat,
    quiet: bool,
) -> bool
    decreases n,
{
    if n == 0 {
        b == a
    } else if edits[n - 1].volume != v {
        chained(a, b, g, edits, v, (n - 1) as nat, quiet)
    } else {
        exists|m: BrickMapBuilder, h0: VolumeGrid, h1: VolumeGrid, out: ChunkUpdate|
            {
                &&& chained(a, m, g, edits, v, (n - 1) as nat, quiet)
                &&& grid_kept(g, h0)
                &&& #[trigger] updated(
                    m,
                    b,
                    h0,
                    h1,
                    edits[n - 1].chunk,
                    edits[n - 1].dirty,
                    quiet,
                    out,
                )
            }
    }
}

/// Volume `v` after the first `n` edits. Its palette may not have been looked at yet.
pub open spec fn volume_after(
    a: BrickMapBuilder,
    b: BrickMapBuilder,
    g0: VolumeGrid,
    g1: VolumeGrid,
    edits: Seq<PendingEdit>,
    v: int,
    n: int,
    quiet: bool,
) -> bool {
    &&& b.wf()
    &&& g1.wf()
    &&& b.same_setup(&a)
    &&& BrickMapBuilder::marks_changes(&a, &b)
    &&& a.fresh_globals() ==> b.fresh_globals()
    &&& trees_after(a, b, g0, edits, v, n)
    &&& blocks_after(a, b, g0, edits, v, n, quiet)
    &&& grid_kept(g0, g1)
    &&& (b.same_palette(&a) && g1.palette == g0.palette) || BrickMapBuilder::synced(
        &a,
        &b,
        g0.palette,
        g1.palette,
    )
}

/// `b` is `a` once all edits are worked in and the palette is up to date.
pub open spec fn worked(
    a: BrickMapBuilder,
    b: BrickMapBuilder,
    g0: VolumeGrid,
    g1: VolumeGrid,
    edits: Seq<PendingEdit>,
    v: int,
    quiet: bool,
) -> bool {
    exists|m: BrickMapBuilder, h: VolumeGrid|
        chained(a, m, g0, edits, v, edits.len(), quiet) && #[trigger] palette_step(m, b, h, g1)
}

/// The builders and volumes after a batch: every edited chunk in a window shows its volume's tree,
/// the others show what they showed, the palettes are up to date, no change went unmarked, and what
/// is marked are the paths of the edits and blocks that moved. Unless the frame is quiet, the blocks
/// of other chunks stay where they are.
pub open spec fn batch_done(
    a: Seq<BrickMapBuilder>,
    b: Seq<BrickMapBuilder>,
    g0: Seq<VolumeGrid>,
    g1: Seq<VolumeGrid>,
    edits: Seq<PendingEdit>,
    quiet: bool,
) -> bool {
    &&& b.len() == a.len()
    &&& g1.len() == g0.len()
    &&& forall|v: int|
        0 <= v < g0.len() && v < a.len() ==> volume_after(
            a[v],
            #[trigger] b[v],
            g0[v],
            g1[v],
            edits,
            v,
            edits.len() as int,
            quiet,
        ) && BrickMapBuilder::synced(&a[v], &b[v], g0[v].palette, g1[v].palette)
    // edit by edit, then the palette
    &&& forall|v: int|
        0 <= v < g0.len() && v < a.len() ==> worked(a[v], #[trigger] b[v], g0[v], g1[v], edits, v, quiet)
    &&& forall|v: int| g0.len() <= v < a.len() ==> #[trigger] b[v] == a[v]
}

proof fn lemma_edits_cost(
    b: BrickMapBuilder,
    g: VolumeGrid,
    edits: Seq<PendingEdit>,
    v: int,
    m: nat,
    n: nat,
)
    requires
        m <= n,
        g.wf(),
    ensures
        0 <= edits_cost(b, g, edits, v, m) <= edits_cost(b, g, edits, v, n),
    decreases n,
{
    if n > 0 {
        lemma_edits_cost(b, g, edits, v, if m < n { m } else { (n - 1) as nat }, (n - 1) as nat);
        lemma_edit_cost(b, g, edits[n - 1]);
    }
}

proof fn lemma_edit_cost(b: BrickMapBuilder, g: VolumeGrid, e: PendingEdit)
    requires
        g.wf(),
    ensures
        0 <= edit_cost(b, g, e),
{
    if g.content(e.chunk) {
        let tree = g.chunks.at(e.chunk);
        super::tree::lemma_rooms_nonneg(tree.nodes@, tree.nodes@.len());
        if b.resident(e.chunk) && !e.dirty.reset {
            b.lemma_cap(e.chunk);
        }
    }
}

proof fn lemma_ceilings(
    bs: Seq<BrickMapBuilder>,
    volumes: Seq<VolumeGrid>,
    edits: Seq<PendingEdit>,
    v: int,
    n: nat,
)
    requires
        0 <= v < n <= bs.len(),
        forall|i: int| 0 <= i < volumes.len() ==> (#[trigger] volumes[i]).wf(),
    ensures
        0 <= ceiling(bs, volumes, edits, v) <= ceilings(bs, volumes, edits, n),
        0 <= ceilings(bs, volumes, edits, (n - 1) as nat),
    decreases n,
{
    if n - 1 < volumes.len() {
        lemma_edits_cost(bs[n - 1], volumes[n - 1], edits, n - 1, 0, edits.len());
    }
    if n > 1 {
        lemma_ceilings(bs, volumes, edits, if v < n - 1 { v } else { 0 }, (n - 1) as nat);
    }
}

/// Before an edit, its chunk shows what it showed at the start of the batch.
proof fn lemma_can_update(
    bs: Seq<BrickMapBuilder>,
    cur: BrickMapBuilder,
    volumes: Seq<VolumeGrid>,
    g1: VolumeGrid,
    edits: Seq<PendingEdit>,
    k: int,
    quiet: bool,
)
    requires
        batch_ok(bs, volumes, edits),
        0 <= k < edits.len(),
        forall|i: int| 0 <= i < volumes.len() ==> (#[trigger] volumes[i]).wf(),
        ({
            let v = edits[k].volume as int;
            volume_after(bs[v], cur, volumes[v], g1, edits, v, k, quiet) && cur.words().len()
                <= bs[v].words().len() + edits_cost(bs[v], volumes[v], edits, v, k as nat)
        }),
    ensures
        ({
            let v = edits[k].volume as int;
            let e = edits[k];
            &&& g1.content(e.chunk) <==> volumes[v].content(e.chunk)
            &&& cur.pos_of(e.chunk) == bs[v].pos_of(e.chunk)
            &&& g1.content(e.chunk) && cur.pos_of(e.chunk) is Some ==> cur.can_update(
                &g1.chunks.at(e.chunk),
                e.chunk,
                &e.dirty,
            ) && cur.update_cost(&g1.chunks.at(e.chunk), e.chunk, &e.dirty) == edit_cost(
                bs[v],
                volumes[v],
                e,
            )
        }),
{
    let v = edits[k].volume as int;
    let e = edits[k];
    let b = bs[v];
    assert(!edited(edits, k, v, e.chunk)) by {
        if edited(edits, k, v, e.chunk) {
            let l = choose|l: int|
                0 <= l < k && (#[trigger] edits[l]).volume == v && edits[l].chunk == e.chunk;
            assert(edits[l].volume != edits[k].volume || edits[l].chunk != edits[k].chunk);
        }
    }
    assert(cur.resident(e.chunk) <==> b.resident(e.chunk));
    if volumes[v].content(e.chunk) && b.pos_of(e.chunk) is Some {
        let tree = volumes[v].chunks.at(e.chunk);
        assert(bs[edits[k].volume as int].report_ok(&tree, e.chunk, &e.dirty));
        lemma_edits_cost(b, volumes[v], edits, v, (k + 1) as nat, edits.len());
        lemma_ceilings(bs, volumes, edits, v, bs.len());
        lemma_edit_cost(b, volumes[v], e);
    }
}

/// One more edit.
proof fn lemma_step(
    a: BrickMapBuilder,
    b: BrickMapBuilder,
    c: BrickMapBuilder,
    g0: VolumeGrid,
    g1: VolumeGrid,
    g2: VolumeGrid,
    edits: Seq<PendingEdit>,
    k: int,
    quiet: bool,
    out: ChunkUpdate,
)
    requires
        a.wf(),
        0 <= k < edits.len(),
        forall|l: int|
            0 <= l < k ==> (#[trigger] edits[l]).volume != edits[k].volume || edits[l].chunk
                != edits[k].chunk,
        volume_after(a, b, g0, g1, edits, edits[k].volume as int, k, quiet),
        updated(b, c, g1, g2, edits[k].chunk, edits[k].dirty, quiet, out),
    ensures
        volume_after(a, c, g0, g2, edits, edits[k].volume as int, k + 1, quiet),
{
    let v = edits[k].volume as int;
    let d = edits[k].chunk;
    BrickMapBuilder::lemma_marks_trans(&a, &b, &c);
    assert forall|x: ChunkCoord| #[trigger] edited(edits, k + 1, v, x) <==> edited(edits, k, v, x) || x
        == d by {
        if edited(edits, k, v, x) {
            let l = choose|l: int|
                0 <= l < k && (#[trigger] edits[l]).volume == v && edits[l].chunk == x;
            assert(edits[l].volume == v);
        }
        if x == d {
            assert(edits[k].volume == v && edits[k].chunk == x);
        }
    }
    assert(a.pos_of(d) == b.pos_of(d));
    assert(forall|x: ChunkCoord| #[trigger] g1.content(x) <==> g0.content(x));
    if out is OutsideWindow {
        lemma_more_edits(a, b, g0, edits, v, k, quiet);
    } else {
        lemma_blocks_step(a, b, c, g0, g1, g2, edits, k, quiet, out);
    }
    assert(trees_after(a, c, g0, edits, v, k + 1)) by {
        assert forall|x: ChunkCoord| edited(edits, k + 1, v, x) && a.pos_of(x) is Some implies {
            &&& #[trigger] c.resident(x) <==> g0.content(x)
            &&& c.resident(x) ==> c.tree_of(x) == g0.chunks.at(x).model()
        } by {
            if x != d {
                assert(edited(edits, k, v, x));
                assert(b.resident(x) <==> g0.content(x));
            }
        }
        assert forall|x: ChunkCoord| !(edited(edits, k + 1, v, x) && a.pos_of(x) is Some) implies {
            &&& #[trigger] c.resident(x) <==> a.resident(x)
            &&& c.resident(x) ==> c.tree_of(x) == a.tree_of(x) && c.cap_of(x) == a.cap_of(x)
                && c.used_of(x) == a.used_of(x)
        } by {
            assert(b.resident(x) <==> a.resident(x));
            if x == d {
                assert(a.pos_of(x) is None);
            }
        }
    }
}

/// An edit that changes nothing here changes nothing in what is said of the blocks.
proof fn lemma_more_edits(
    a: BrickMapBuilder,
    b: BrickMapBuilder,
    g: VolumeGrid,
    edits: Seq<PendingEdit>,
    v: int,
    k: int,
    quiet: bool,
)
    requires
        0 <= k < edits.len(),
        b.wf(),
        blocks_after(a, b, g, edits, v, k, quiet),
        edits[k].volume != v || b.pos_of(edits[k].chunk) is None,
    ensures
        blocks_after(a, b, g, edits, v, k + 1, quiet),
{
    assert forall|c: ChunkCoord| #[trigger] b.resident(c) implies (edited(edits, k + 1, v, c) <==> edited(
        edits,
        k,
        v,
        c,
    )) && (whole_edit(a, g, edits, v, k + 1, c) <==> whole_edit(a, g, edits, v, k, c)) by {
        b.lemma_block_reads(c, 0);
        if edited(edits, k, v, c) {
            let l = choose|l: int|
                0 <= l < k && (#[trigger] edits[l]).volume == v && edits[l].chunk == c;
            assert(edits[l].volume == v);
        }
        if edited(edits, k + 1, v, c) {
            let l = choose|l: int|
                0 <= l < k + 1 && (#[trigger] edits[l]).volume == v && edits[l].chunk == c;
            assert(l < k);
            assert(edits[l].volume == v);
        }
        if whole_edit(a, g, edits, v, k, c) {
            let l = choose|l: int|
                0 <= l < k && (#[trigger] edits[l]).volume == v && edits[l].chunk == c && whole_at(
                    a,
                    g,
                    edits[l],
                );
            assert(edits[l].volume == v);
        }
        if whole_edit(a, g, edits, v, k + 1, c) {
            let l = choose|l: int|
                0 <= l < k + 1 && (#[trigger] edits[l]).volume == v && edits[l].chunk == c && whole_at(
                    a,
                    g,
                    edits[l],
                );
            assert(l < k);
            assert(edits[l].volume == v);
        }
    }
    assert forall|w: int| #[trigger] b.dirty_word(w) && !a.dirty_word(w) implies mark_due(
        a,
        b,
        g,
        edits,
        v,
        k + 1,
        w,
    ) by {
        lemma_due_more(a, b, g, edits, v, k, w);
    }
}

proof fn lemma_due_more(
    a: BrickMapBuilder,
    b: BrickMapBuilder,
    g: VolumeGrid,
    edits: Seq<PendingEdit>,
    v: int,
    k: int,
    w: int,
)
    requires
        mark_due(a, b, g, edits, v, k, w),
    ensures
        mark_due(a, b, g, edits, v, k + 1, w),
{
    if exists|l: int|
        0 <= l < k && (#[trigger] edits[l]).volume == v && edit_mark(a, b, g, edits[l], w) {
        let l = choose|l: int|
            0 <= l < k && (#[trigger] edits[l]).volume == v && edit_mark(a, b, g, edits[l], w);
        assert(edits[l].volume == v);
    }
}

/// Where a chunk's block went in one edit, as far as others rely on it.
#[verifier::rlimit(50)]
#[verifier::spinoff_prover]
proof fn lemma_block_went(
    a: BrickMapBuilder,
    b: BrickMapBuilder,
    c: BrickMapBuilder,
    g0: VolumeGrid,
    g1: VolumeGrid,
    g2: VolumeGrid,
    edits: Seq<PendingEdit>,
    k: int,
    quiet: bool,
    out: ChunkUpdate,
    x: ChunkCoord,
)
    requires
        a.wf(),
        0 <= k < edits.len(),
        forall|l: int|
            0 <= l < k ==> (#[trigger] edits[l]).volume != edits[k].volume || edits[l].chunk
                != edits[k].chunk,
        volume_after(a, b, g0, g1, edits, edits[k].volume as int, k, quiet),
        updated(b, c, g1, g2, edits[k].chunk, edits[k].dirty, quiet, out),
        !(out is OutsideWindow),
        c.resident(x),
    ensures
        ({
            let v = edits[k].volume as int;
            let d = edits[k].chunk;
            let whole = whole_edit(a, g0, edits, v, k + 1, x);
            &&& b.resident(x) && !(x == d && whole) && c.cap_of(x) == b.cap_of(x) ==> c.base_of(x)
                <= b.base_of(x) && (!quiet ==> c.base_of(x) == b.base_of(x))
            &&& x != d ==> b.resident(x) && c.cap_of(x) == b.cap_of(x)
            &&& x != d && whole ==> whole_edit(a, g0, edits, v, k, x)
            &&& whole_edit(a, g0, edits, v, k, x) ==> whole
            &&& x == d ==> whole == whole_at(a, g0, edits[k]) && !edited(edits, k, v, d) && (
            a.resident(d) <==> b.resident(d))
            // a block that moved now has moved since the start
            &&& b.resident(x) && !whole && BrickMapBuilder::moved(&b, &c, x) ==> BrickMapBuilder::moved(
                &a,
                &c,
                x,
            )
            &&& b.resident(x) && !whole && BrickMapBuilder::moved(&a, &b, x) ==> BrickMapBuilder::moved(
                &a,
                &c,
                x,
            )
        }),
{
    let v = edits[k].volume as int;
    let d = edits[k].chunk;
    let m = choose|m: BrickMapBuilder| #[trigger]
        BrickMapBuilder::edited(&b, &m, &g1, d, &edits[k].dirty) && BrickMapBuilder::settled(
            &m,
            &c,
            quiet,
        );
    assert(c.resident(x) <==> m.resident(x));
    assert(BrickMapBuilder::pushed_down(&m, &c, x));
    assert(!edited(edits, k, v, d)) by {
        if edited(edits, k, v, d) {
            let l = choose|l: int|
                0 <= l < k && (#[trigger] edits[l]).volume == v && edits[l].chunk == d;
            assert(edits[l].volume != edits[k].volume || edits[l].chunk != edits[k].chunk);
        }
    }
    assert(b.resident(d) <==> a.resident(d));
    if whole_edit(a, g0, edits, v, k, x) {
        let l = choose|l: int|
            0 <= l < k && (#[trigger] edits[l]).volume == v && edits[l].chunk == x && whole_at(
                a,
                g0,
                edits[l],
            );
        assert(edits[l].volume == v);
        assert(whole_edit(a, g0, edits, v, k + 1, x));
    }
    if whole_edit(a, g0, edits, v, k + 1, x) {
        let l = choose|l: int|
            0 <= l < k + 1 && (#[trigger] edits[l]).volume == v && edits[l].chunk == x && whole_at(
                a,
                g0,
                edits[l],
            );
        if x != d {
            assert(l < k);
            assert(edits[l].volume == v);
            assert(whole_edit(a, g0, edits, v, k, x));
        } else if l < k {
            assert(edits[l].volume != edits[k].volume || edits[l].chunk != edits[k].chunk);
        }
    }
    if x == d && whole_at(a, g0, edits[k]) {
        assert(edits[k].volume == v);
        assert(whole_edit(a, g0, edits, v, k + 1, x));
    }
    if x != d {
        assert(m.resident(x));
        assert(b.resident(x));
    }
    if b.resident(x) && !whole_edit(a, g0, edits, v, k + 1, x) && !a.resident(x) {
        // the chunk got its block from one of the edits
        if edited(edits, k, v, x) {
            let l = choose|l: int|
                0 <= l < k && (#[trigger] edits[l]).volume == v && edits[l].chunk == x;
            assert(whole_at(a, g0, edits[l]));
            assert(edits[l].volume == v);
        }
        assert(false);
    }
}

/// A mark near a block that moved, or was installed anew, is due.
proof fn lemma_due_near(
    a: BrickMapBuilder,
    b: BrickMapBuilder,
    c: BrickMapBuilder,
    g0: VolumeGrid,
    g1: VolumeGrid,
    g2: VolumeGrid,
    edits: Seq<PendingEdit>,
    k: int,
    quiet: bool,
    out: ChunkUpdate,
    x: ChunkCoord,
    w: int,
)
    requires
        a.wf(),
        0 <= k < edits.len(),
        forall|l: int|
            0 <= l < k ==> (#[trigger] edits[l]).volume != edits[k].volume || edits[l].chunk
                != edits[k].chunk,
        volume_after(a, b, g0, g1, edits, edits[k].volume as int, k, quiet),
        updated(b, c, g1, g2, edits[k].chunk, edits[k].dirty, quiet, out),
        !(out is OutsideWindow),
        c.resident(x),
        c.near(x, w),
        !b.resident(x) || BrickMapBuilder::moved(&b, &c, x) || BrickMapBuilder::moved(&a, &b, x)
            || whole_edit(a, g0, edits, edits[k].volume as int, k + 1, x),
    ensures
        mark_due(a, c, g0, edits, edits[k].volume as int, k + 1, w),
{
    let v = edits[k].volume as int;
    lemma_block_went(a, b, c, g0, g1, g2, edits, k, quiet, out, x);
    if whole_edit(a, g0, edits, v, k + 1, x) {
        let l = choose|l: int|
            0 <= l < k + 1 && (#[trigger] edits[l]).volume == v && edits[l].chunk == x && whole_at(
                a,
                g0,
                edits[l],
            );
        assert(edit_mark(a, c, g0, edits[l], w));
    } else {
        assert(b.resident(x));
        assert(BrickMapBuilder::moved(&a, &c, x));
    }
}

/// What was near a block before the edit is near it after, or its mark is due.
proof fn lemma_still_near(
    a: BrickMapBuilder,
    b: BrickMapBuilder,
    c: BrickMapBuilder,
    g0: VolumeGrid,
    g1: VolumeGrid,
    g2: VolumeGrid,
    edits: Seq<PendingEdit>,
    k: int,
    quiet: bool,
    out: ChunkUpdate,
    x: ChunkCoord,
    w: int,
)
    requires
        a.wf(),
        0 <= k < edits.len(),
        forall|l: int|
            0 <= l < k ==> (#[trigger] edits[l]).volume != edits[k].volume || edits[l].chunk
                != edits[k].chunk,
        volume_after(a, b, g0, g1, edits, edits[k].volume as int, k, quiet),
        updated(b, c, g1, g2, edits[k].chunk, edits[k].dirty, quiet, out),
        !(out is OutsideWindow),
        b.near(x, w),
    ensures
        c.near(x, w) || mark_due(a, c, g0, edits, edits[k].volume as int, k + 1, w),
{
    if !c.near(x, w) {
        let y = choose|y: ChunkCoord| y != x && #[trigger] c.resident(y) && c.block_has(y, w);
        c.lemma_near(y, w);
        assert(b.resident(y) ==> !b.block_has(y, w));
        lemma_due_near(a, b, c, g0, g1, g2, edits, k, quiet, out, y, w);
    }
}

/// A word of the path since a later state is one since an earlier state in which the block read the
/// same.
proof fn lemma_path_since(
    a: BrickMapBuilder,
    b: BrickMapBuilder,
    c: BrickMapBuilder,
    d: ChunkCoord,
    nodes: Seq<(u8, u32)>,
    w: int,
)
    requires
        a.wf(),
        a.resident(d),
        BrickMapBuilder::pushed_down(&a, &b, d),
        BrickMapBuilder::path_word(&b, &c, d, nodes, w),
    ensures
        BrickMapBuilder::path_word(&a, &c, d, nodes, w),
{
    let i = choose|i: int|
        0 <= i < nodes.len() && c.node_word(d, (#[trigger] nodes[i]).1, w)
            && BrickMapBuilder::rewritten(&b, &c, d, nodes[i].1);
    let id = nodes[i].1;
    if !BrickMapBuilder::rewritten(&a, &c, d, id) {
        a.lemma_node_in_block(d, id);
        assert forall|j: int| 0 <= j < content_len(c.tree_of(d)[id]) implies #[trigger] c.words()[
        c.base_of(d) + c.offset_of(d, id) + j] == b.words()[b.base_of(d) + b.offset_of(d, id) + j] by {
            let q = a.offset_of(d, id) + j;
            assert(b.words()[b.base_of(d) + q] == a.words()[a.base_of(d) + q]);
            assert(c.words()[c.base_of(d) + c.offset_of(d, id) + j] == a.words()[a.base_of(d)
                + a.offset_of(d, id) + j]);
        }
    }
}

/// Marks are due after one more edit.
#[verifier::rlimit(40)]
#[verifier::spinoff_prover]
proof fn lemma_mark_step(
    a: BrickMapBuilder,
    b: BrickMapBuilder,
    c: BrickMapBuilder,
    g0: VolumeGrid,
    g1: VolumeGrid,
    g2: VolumeGrid,
    edits: Seq<PendingEdit>,
    k: int,
    quiet: bool,
    out: ChunkUpdate,
    w: int,
)
    requires
        a.wf(),
        0 <= k < edits.len(),
        forall|l: int|
            0 <= l < k ==> (#[trigger] edits[l]).volume != edits[k].volume || edits[l].chunk
                != edits[k].chunk,
        volume_after(a, b, g0, g1, edits, edits[k].volume as int, k, quiet),
        updated(b, c, g1, g2, edits[k].chunk, edits[k].dirty, quiet, out),
        !(out is OutsideWindow),
        c.dirty_word(w),
        !a.dirty_word(w),
    ensures
        mark_due(a, c, g0, edits, edits[k].volume as int, k + 1, w),
{
    let v = edits[k].volume as int;
    let d = edits[k].chunk;
    assert(edits[k].volume == v && edits[k].chunk == d);
    if b.dirty_word(w) {
        assert(mark_due(a, b, g0, edits, v, k, w));
        if exists|x: ChunkCoord| #[trigger]
            b.resident(x) && BrickMapBuilder::moved(&a, &b, x) && b.near(x, w) {
            let x = choose|x: ChunkCoord| #[trigger]
                b.resident(x) && BrickMapBuilder::moved(&a, &b, x) && b.near(x, w);
            lemma_still_near(a, b, c, g0, g1, g2, edits, k, quiet, out, x, w);
            if c.near(x, w) {
                if c.resident(x) {
                    lemma_due_near(a, b, c, g0, g1, g2, edits, k, quiet, out, x, w);
                } else {
                    assert(x == d);
                    assert(edit_mark(a, c, g0, edits[k], w));
                }
            }
        } else {
            let l = choose|l: int|
                0 <= l < k && (#[trigger] edits[l]).volume == v && edit_mark(a, b, g0, edits[l], w);
            let x = edits[l].chunk;
            assert(edits[l].volume != edits[k].volume || edits[l].chunk != edits[k].chunk);
            assert(x != d);
            assert(c.resident(x) <==> b.resident(x));
            let nodes = edits[l].dirty.nodes@;
            if b.resident(x) && BrickMapBuilder::path_word(&a, &b, x, nodes, w) {
                let i = choose|i: int|
                    0 <= i < nodes.len() && b.node_word(x, (#[trigger] nodes[i]).1, w)
                        && BrickMapBuilder::rewritten(&a, &b, x, nodes[i].1);
                b.lemma_node_in_block(x, nodes[i].1);
                assert(b.block_has(x, w));
                b.lemma_near(x, w);
                lemma_still_near(a, b, c, g0, g1, g2, edits, k, quiet, out, x, w);
                if c.near(x, w) {
                    if BrickMapBuilder::moved(&b, &c, x) {
                        lemma_due_near(a, b, c, g0, g1, g2, edits, k, quiet, out, x, w);
                    } else {
                        assert(BrickMapBuilder::pushed_down(&b, &c, x));
                        BrickMapBuilder::lemma_path_kept(&a, &b, &c, x, nodes, w);
                        assert(edit_mark(a, c, g0, edits[l], w));
                    }
                }
            } else {
                lemma_still_near(a, b, c, g0, g1, g2, edits, k, quiet, out, x, w);
                if c.near(x, w) {
                    assert(edit_mark(a, c, g0, edits[l], w));
                }
            }
        }
    } else {
        let nodes = edits[k].dirty.nodes@;
        if exists|x: ChunkCoord| #[trigger]
            c.resident(x) && BrickMapBuilder::moved(&b, &c, x) && c.near(x, w) {
            let x = choose|x: ChunkCoord| #[trigger]
                c.resident(x) && BrickMapBuilder::moved(&b, &c, x) && c.near(x, w);
            lemma_due_near(a, b, c, g0, g1, g2, edits, k, quiet, out, x, w);
        } else if !c.resident(d) {
            assert(edit_mark(a, c, g0, edits[k], w));
        } else {
            lemma_block_went(a, b, c, g0, g1, g2, edits, k, quiet, out, d);
            if whole_at(a, g0, edits[k]) {
                if BrickMapBuilder::path_word(&b, &c, d, nodes, w) {
                    let i = choose|i: int|
                        0 <= i < nodes.len() && c.node_word(d, (#[trigger] nodes[i]).1, w)
                            && BrickMapBuilder::rewritten(&b, &c, d, nodes[i].1);
                    c.lemma_node_in_block(d, nodes[i].1);
                    c.lemma_near(d, w);
                }
                assert(edit_mark(a, c, g0, edits[k], w));
            } else {
                assert(BrickMapBuilder::path_word(&b, &c, d, nodes, w));
                assert(BrickMapBuilder::pushed_down(&a, &b, d));
                lemma_path_since(a, b, c, d, nodes, w);
                assert(BrickMapBuilder::path_word(&a, &c, d, nodes, w));
                assert(edit_mark(a, c, g0, edits[k], w));
            }
        }
    }
}

/// What is said of the blocks holds after one more edit.
#[verifier::rlimit(50)]
#[verifier::spinoff_prover]
proof fn lemma_blocks_step(
    a: BrickMapBuilder,
    b: BrickMapBuilder,
    c: BrickMapBuilder,
    g0: VolumeGrid,
    g1: VolumeGrid,
    g2: VolumeGrid,
    edits: Seq<PendingEdit>,
    k: int,
    quiet: bool,
    out: ChunkUpdate,
)
    requires
        a.wf(),
        0 <= k < edits.len(),
        forall|l: int|
            0 <= l < k ==> (#[trigger] edits[l]).volume != edits[k].volume || edits[l].chunk
                != edits[k].chunk,
        volume_after(a, b, g0, g1, edits, edits[k].volume as int, k, quiet),
        updated(b, c, g1, g2, edits[k].chunk, edits[k].dirty, quiet, out),
        !(out is OutsideWindow),
    ensures
        blocks_after(a, c, g0, edits, edits[k].volume as int, k + 1, quiet),
{
    let v = edits[k].volume as int;
    let d = edits[k].chunk;
    assert(edits[k].volume == v && edits[k].chunk == d);
    assert forall|x: ChunkCoord| #[trigger] edited(edits, k + 1, v, x) <==> edited(edits, k, v, x) || x
        == d by {
        if edited(edits, k, v, x) {
            let l = choose|l: int|
                0 <= l < k && (#[trigger] edits[l]).volume == v && edits[l].chunk == x;
            assert(edits[l].volume == v);
        }
    }
    assert forall|x: ChunkCoord| !edited(edits, k + 1, v, x) && #[trigger] c.resident(x) implies BrickMapBuilder::pushed_down(
    &a, &c, x) && (!quiet ==> c.base_of(x) == a.base_of(x)) by {
        lemma_block_went(a, b, c, g0, g1, g2, edits, k, quiet, out, x);
        assert(BrickMapBuilder::pushed_down(&a, &b, x));
        assert(BrickMapBuilder::pushed_down(&b, &c, x));
        assert forall|i: int| 0 <= i < c.cap_of(x) implies #[trigger] c.words()[c.base_of(x) + i]
            == a.words()[a.base_of(x) + i] by {
            assert(b.words()[b.base_of(x) + i] == a.words()[a.base_of(x) + i]);
        }
        if whole_edit(a, g0, edits, v, k + 1, x) {
            let l = choose|l: int|
                0 <= l < k + 1 && (#[trigger] edits[l]).volume == v && edits[l].chunk == x && whole_at(
                    a,
                    g0,
                    edits[l],
                );
            assert(edited(edits, k + 1, v, x));
        }
    }
    assert forall|x: ChunkCoord| #[trigger]
        c.resident(x) && a.resident(x) && !whole_edit(a, g0, edits, v, k + 1, x) && c.cap_of(x)
            == a.cap_of(x) implies c.base_of(x) <= a.base_of(x) && (!quiet ==> c.base_of(x)
        == a.base_of(x)) by {
        lemma_block_went(a, b, c, g0, g1, g2, edits, k, quiet, out, x);
        assert(x == d ==> BrickMapBuilder::pushed_down(&a, &b, d));
    }
    assert forall|w: int| #[trigger] c.dirty_word(w) && !a.dirty_word(w) implies mark_due(
        a,
        c,
        g0,
        edits,
        v,
        k + 1,
        w,
    ) by {
        lemma_mark_step(a, b, c, g0, g1, g2, edits, k, quiet, out, w);
    }
}

proof fn lemma_volume_start(b: BrickMapBuilder, g: VolumeGrid, edits: Seq<PendingEdit>, v: int, quiet: bool)
    requires
        b.wf(),
        g.wf(),
    ensures
        volume_after(b, b, g, g, edits, v, 0, quiet),
{
}

/// An edit of another volume changes nothing here.
proof fn lemma_elsewhere(
    a: BrickMapBuilder,
    b: BrickMapBuilder,
    g0: VolumeGrid,
    g1: VolumeGrid,
    edits: Seq<PendingEdit>,
    v: int,
    k: int,
    quiet: bool,
)
    requires
        0 <= k < edits.len(),
        edits[k].volume != v,
        volume_after(a, b, g0, g1, edits, v, k, quiet),
    ensures
        volume_after(a, b, g0, g1, edits, v, k + 1, quiet),
{
    lemma_more_edits(a, b, g0, edits, v, k, quiet);
    assert forall|x: ChunkCoord| #[trigger] edited(edits, k + 1, v, x) <==> edited(edits, k, v, x) by {
        if edited(edits, k, v, x) {
            let l = choose|l: int|
                0 <= l < k && (#[trigger] edits[l]).volume == v && edits[l].chunk == x;
            assert(edits[l].volume == v);
        }
        if edited(edits, k + 1, v, x) {
            let l = choose|l: int|
                0 <= l < k + 1 && (#[trigger] edits[l]).volume == v && edits[l].chunk == x;
            assert(l < k);
            assert(edits[l].volume == v);
        }
    }
    assert(trees_after(a, b, g0, edits, v, k + 1)) by {
        assert forall|x: ChunkCoord| edited(edits, k + 1, v, x) && a.pos_of(x) is Some implies {
            &&& #[trigger] b.resident(x) <==> g0.content(x)
            &&& b.resident(x) ==> b.tree_of(x) == g0.chunks.at(x).model()
        } by {
            assert(edited(edits, k, v, x));
        }
        assert forall|x: ChunkCoord| !(edited(edits, k + 1, v, x) && a.pos_of(x) is Some) implies {
            &&& #[trigger] b.resident(x) <==> a.resident(x)
            &&& b.resident(x) ==> b.tree_of(x) == a.tree_of(x) && b.cap_of(x) == a.cap_of(x)
                && b.used_of(x) == a.used_of(x)
        } by {
            assert(!(edited(edits, k, v, x) && a.pos_of(x) is Some));
        }
    }
}

/// The words after a batch can be addressed.
proof fn lemma_totals(
    a: Seq<BrickMapBuilder>,
    b: Seq<BrickMapBuilder>,
    volumes: Seq<VolumeGrid>,
    edits: Seq<PendingEdit>,
)
    requires
        batch_ok(a, volumes, edits),
        b.len() == a.len(),
        forall|i: int| 0 <= i < volumes.len() ==> (#[trigger] volumes[i]).wf(),
        forall|v: int|
            0 <= v < a.len() ==> (#[trigger] b[v]).words().len() <= ceiling(a, volumes, edits, v),
    ensures
        totals_ok(b),
{
    lemma_sum_bound(a, b, volumes, edits, b.len() as int);
    super::volumes::lemma_struct_before(b, 1, b.len() as int);
}

proof fn lemma_sum_bound(
    a: Seq<BrickMapBuilder>,
    b: Seq<BrickMapBuilder>,
    volumes: Seq<VolumeGrid>,
    edits: Seq<PendingEdit>,
    n: int,
)
    requires
        1 <= n <= a.len(),
        b.len() == a.len(),
        forall|v: int|
            0 <= v < a.len() ==> (#[trigger] b[v]).words().len() <= ceiling(a, volumes, edits, v),
    ensures
        struct_before(b, n) + b[0].words().len() <= ceilings(a, volumes, edits, n as nat),
    decreases n,
{
    if n > 1 {
        lemma_sum_bound(a, b, volumes, edits, n - 1);
        assert(b[n - 1].words().len() <= ceiling(a, volumes, edits, n - 1));
    } else {
        assert(ceilings(a, volumes, edits, 0) == 0);
        assert(b[0].words().len() <= ceiling(a, volumes, edits, 0));
    }
}

/// Works a batch of edits into the builders and brings the palettes up to date.
#[verifier::rlimit(50)]
#[verifier::spinoff_prover]
pub fn apply_edits(
    builder: &mut VolumesBuilder,
    volumes: &mut Vec<VolumeGrid>,
    edits: &Vec<PendingEdit>,
    quiet: bool,
)
    requires
        old(builder).wf(),
        forall|i: int| 0 <= i < old(volumes).len() ==> (#[trigger] old(volumes)@[i]).wf(),
        batch_ok(old(builder).builders(), old(volumes)@, edits@),
    ensures
        final(builder).wf(),
        final(builder).same_state(old(builder)),
        batch_done(
            old(builder).builders(),
            final(builder).builders(),
            old(volumes)@,
            final(volumes)@,
            edits@,
            quiet,
        ),
        totals_ok(final(builder).builders()),
{
    let ghost bs = builder.builders();
    let ghost g0 = volumes@;
    let ghost b0 = *builder;
    proof {
        builder.lemma_wf();
        assert forall|v: int| 0 <= v < g0.len() implies volume_after(
            bs[v],
            #[trigger] builder.builders()[v],
            g0[v],
            volumes@[v],
            edits@,
            v,
            0,
            quiet,
        ) by {
            lemma_volume_start(bs[v], g0[v], edits@, v, quiet);
        }
    }
    let mut k: usize = 0;
    while k < edits.len()
        invariant
            k <= edits.len(),
            builder.wf(),
            builder.same_state(&b0),
            builder.builders().len() == bs.len(),
            volumes.len() == g0.len(),
            b0.builders() == bs,
            b0.wf(),
            forall|i: int| 0 <= i < g0.len() ==> (#[trigger] g0[i]).wf(),
            batch_ok(bs, g0, edits@),
            forall|v: int|
                0 <= v < g0.len() ==> volume_after(
                    bs[v],
                    #[trigger] builder.builders()[v],
                    g0[v],
                    volumes@[v],
                    edits@,
                    v,
                    k as int,
                    quiet,
                ) && chained(
                    bs[v],
                    builder.builders()[v],
                    g0[v],
                    edits@,
                    v,
                    k as nat,
                    quiet,
                ) && builder.builders()[v].words().len() <= bs[v].words().len() + edits_cost(
                    bs[v],
                    g0[v],
                    edits@,
                    v,
                    k as nat,
                ),
            forall|v: int| g0.len() <= v < bs.len() ==> #[trigger] builder.builders()[v] == bs[v],
        decreases edits.len() - k,
    {
        let e: &PendingEdit = &edits[k];
        let ghost cur = builder.builders();
        let ghost gk = volumes@;
        let ghost v = e.volume as int;
        proof {
            builder.lemma_wf();
            b0.lemma_wf();
            assert(edits@[k as int].volume < g0.len());
            assert(volume_after(bs[v], cur[v], g0[v], gk[v], edits@, v, k as int, quiet));
            lemma_can_update(bs, cur[v], g0, gk[v], edits@, k as int, quiet);
        }
        let out = builder.update_chunk(volumes, e.volume, e.chunk, &e.dirty, quiet);
        proof {
            lemma_step(
                bs[v],
                cur[v],
                builder.builders()[v],
                g0[v],
                gk[v],
                volumes@[v],
                edits@,
                k as int,
                quiet,
                out,
            );
            lemma_edit_cost(bs[v], g0[v], edits@[k as int]);
            assert forall|u: int| 0 <= u < g0.len() implies volume_after(
                bs[u],
                #[trigger] builder.builders()[u],
                g0[u],
                volumes@[u],
                edits@,
                u,
                k + 1,
                quiet,
            ) && chained(
                bs[u],
                builder.builders()[u],
                g0[u],
                edits@,
                u,
                (k + 1) as nat,
                quiet,
            ) && builder.builders()[u].words().len() <= bs[u].words().len() + edits_cost(
                bs[u],
                g0[u],
                edits@,
                u,
                (k + 1) as nat,
            ) by {
                assert(volume_after(bs[u], cur[u], g0[u], gk[u], edits@, u, k as int, quiet));
                if u == v {
                    assert(updated(
                        cur[v],
                        builder.builders()[v],
                        gk[v],
                        volumes@[v],
                        e.chunk,
                        e.dirty,
                        quiet,
                        out,
                    ));
                } else {
                    assert(builder.builders()[u] == cur[u]);
                    assert(volumes@[u] == gk[u]);
                    lemma_elsewhere(bs[u], cur[u], g0[u], gk[u], edits@, u, k as int, quiet);
                }
            }
        }
        k += 1;
    }
    let ghost mid = builder.builders();
    let ghost g1 = volumes@;
    proof {
        builder.lemma_wf();
        b0.lemma_wf();
        assert forall|i: int| 0 <= i < volumes.len() implies (#[trigger] volumes@[i]).wf() by {
            assert(volume_after(bs[i], mid[i], g0[i], g1[i], edits@, i, k as int, quiet));
        }
    }
    builder.sync_palettes(volumes);
    proof {
        let end = builder.builders();
        builder.lemma_wf();
        assert forall|v: int| 0 <= v < g0.len() && v < bs.len() implies volume_after(
            bs[v],
            #[trigger] end[v],
            g0[v],
            volumes@[v],
            edits@,
            v,
            edits@.len() as int,
            quiet,
        ) && BrickMapBuilder::synced(&bs[v], &end[v], g0[v].palette, volumes@[v].palette) && worked(
            bs[v],
            end[v],
            g0[v],
            volumes@[v],
            edits@,
            v,
            quiet,
        ) by {
            assert(volume_after(bs[v], mid[v], g0[v], g1[v], edits@, v, edits@.len() as int, quiet));
            lemma_after_sync(bs[v], mid[v], end[v], g0[v], g1[v], volumes@[v], edits@, v, quiet);
            assert(palette_step(mid[v], end[v], g1[v], volumes@[v]));
        }
        assert forall|v: int| 0 <= v < bs.len() implies (#[trigger] end[v]).words().len() <= ceiling(
            bs,
            g0,
            edits@,
            v,
        ) by {
            if v < g0.len() {
                assert(volume_after(
                    bs[v],
                    mid[v],
                    g0[v],
                    g1[v],
                    edits@,
                    v,
                    edits@.len() as int,
                    quiet,
                ));
                assert(palette_step(mid[v], end[v], g1[v], volumes@[v]));
            } else {
                assert(end[v] == mid[v]);
            }
        }
        lemma_totals(bs, end, g0, edits@);
    }
}

/// What is said of the blocks is a matter of words, blocks and marks.
proof fn lemma_blocks_same(
    a: BrickMapBuilder,
    b: BrickMapBuilder,
    c: BrickMapBuilder,
    g: VolumeGrid,
    edits: Seq<PendingEdit>,
    v: int,
    n: int,
    quiet: bool,
)
    requires
        blocks_after(a, b, g, edits, v, n, quiet),
        c.same_blocks(&b),
        c.same_setup(&b),
    ensures
        blocks_after(a, c, g, edits, v, n, quiet),
{
    assert forall|x: ChunkCoord| #[trigger] c.resident(x) <==> b.resident(x) by {}
    assert forall|x: ChunkCoord| !edited(edits, n, v, x) && #[trigger] c.resident(x) implies BrickMapBuilder::pushed_down(
    &a, &c, x) && (!quiet ==> c.base_of(x) == a.base_of(x)) by {
        assert(b.resident(x));
        assert(BrickMapBuilder::pushed_down(&a, &b, x));
    }
    assert forall|x: ChunkCoord| #[trigger]
        c.resident(x) && a.resident(x) && !whole_edit(a, g, edits, v, n, x) && c.cap_of(x) == a.cap_of(
            x,
        ) implies c.base_of(x) <= a.base_of(x) && (!quiet ==> c.base_of(x) == a.base_of(x)) by {
        assert(b.resident(x));
    }
    assert forall|x: ChunkCoord, w: int| #[trigger] b.near(x, w) implies c.near(x, w) by {
        if b.pos_of(x) != Some(w) {
            assert forall|y: ChunkCoord| y != x && #[trigger] c.resident(y) implies !c.block_has(y, w) by {
                assert(b.resident(y));
            }
        }
    }
    assert forall|w: int| #[trigger] c.dirty_word(w) && !a.dirty_word(w) implies mark_due(
        a,
        c,
        g,
        edits,
        v,
        n,
        w,
    ) by {
        assert(b.dirty_word(w));
        assert(mark_due(a, b, g, edits, v, n, w));
        if exists|x: ChunkCoord| #[trigger]
            b.resident(x) && BrickMapBuilder::moved(&a, &b, x) && b.near(x, w) {
            let x = choose|x: ChunkCoord| #[trigger]
                b.resident(x) && BrickMapBuilder::moved(&a, &b, x) && b.near(x, w);
            assert(c.resident(x) && BrickMapBuilder::moved(&a, &c, x) && c.near(x, w));
        } else {
            let k = choose|k: int|
                0 <= k < n && (#[trigger] edits[k]).volume == v && edit_mark(a, b, g, edits[k], w);
            let x = edits[k].chunk;
            let nodes = edits[k].dirty.nodes@;
            assert(c.resident(x) <==> b.resident(x));
            if b.near(x, w) {
                assert(c.near(x, w));
            }
            if b.resident(x) && BrickMapBuilder::path_word(&a, &b, x, nodes, w) {
                let i = choose|i: int|
                    0 <= i < nodes.len() && b.node_word(x, (#[trigger] nodes[i]).1, w)
                        && BrickMapBuilder::rewritten(&a, &b, x, nodes[i].1);
                assert(c.node_word(x, nodes[i].1, w));
                assert(BrickMapBuilder::rewritten(&a, &c, x, nodes[i].1));
                assert(BrickMapBuilder::path_word(&a, &c, x, nodes, w));
            }
            assert(edit_mark(a, c, g, edits[k], w));
        }
    }
}

proof fn lemma_after_sync(
    a: BrickMapBuilder,
    b: BrickMapBuilder,
    c: BrickMapBuilder,
    g0: VolumeGrid,
    g1: VolumeGrid,
    g2: VolumeGrid,
    edits: Seq<PendingEdit>,
    v: int,
    quiet: bool,
)
    requires
        a.wf(),
        volume_after(a, b, g0, g1, edits, v, edits.len() as int, quiet),
        palette_step(b, c, g1, g2),
    ensures
        volume_after(a, c, g0, g2, edits, v, edits.len() as int, quiet),
        BrickMapBuilder::synced(&a, &c, g0.palette, g2.palette),
{
    assert(BrickMapBuilder::marks_changes(&b, &c)) by {
        assert forall|w: int| #[trigger] c.live(w) implies b.live(w) by {
            if !(0 <= w < TREE_BASE) {
                let (d, id) = choose|d: ChunkCoord, id: u32| c.node_word(d, id, w);
                assert(b.node_word(d, id, w));
            }
        }
    }
    BrickMapBuilder::lemma_marks_trans(&a, &b, &c);
    assert forall|x: ChunkCoord| #[trigger] c.resident(x) <==> b.resident(x) by {}
    assert(trees_after(a, c, g0, edits, v, edits.len() as int));
    lemma_blocks_same(a, b, c, g0, edits, v, edits.len() as int, quiet);
    assert(a.fresh_globals() ==> c.fresh_globals());
}

/// A palette has changed since the last snapshot, or a volume has come.
pub open spec fn palettes_changed(versions: Seq<u64>, volumes: Seq<VolumeGrid>) -> bool {
    exists|i: int|
        0 <= i < volumes.len() && (i >= versions.len() || versions[i] != (
        #[trigger] volumes[i]).palette.version)
}

fn palette_dirty(versions: &Vec<u64>, volumes: &Vec<VolumeGrid>) -> (r: bool)
    ensures
        r == palettes_changed(versions@, volumes@),
{
    let mut i: usize = 0;
    while i < volumes.len()
        invariant
            i <= volumes.len(),
            forall|j: int|
                0 <= j < i ==> j < versions.len() && versions@[j] == (#[trigger] volumes@[j]).palette.version,
        decreases volumes.len() - i,
    {
        if i >= versions.len() || versions[i] != volumes[i].palette.version {
            assert(i >= versions.len() || versions@[i as int] != volumes@[i as int].palette.version);
            return true;
        }
        i += 1;
    }
    false
}

fn versions_of(volumes: &Vec<VolumeGrid>) -> (r: Vec<u64>)
    ensures
        shows_versions(r@, volumes@),
{
    let mut r: Vec<u64> = Vec::with_capacity(volumes.len());
    let mut i: usize = 0;
    while i < volumes.len()
        invariant
            i <= volumes.len(),
            r.len() == i,
            forall|j: int| 0 <= j < i ==> #[trigger] r@[j] == volumes@[j].palette.version,
        decreases volumes.len() - i,
    {
        r.push(volumes[i].palette.version);
        i += 1;
    }
    r
}

/// `versions` are the volumes' palette versions.
pub open spec fn shows_versions(versions: Seq<u64>, volumes: Seq<VolumeGrid>) -> bool {
    &&& versions.len() == volumes.len()
    &&& forall|i: int|
        0 <= i < versions.len() ==> #[trigger] versions[i] == volumes[i].palette.version
}

/// Everything is to be built anew.
pub open spec fn needs_full(mirror: BuilderMirror, pending: MainPending, mode: ExtractMode) -> bool {
    mirror.builder is None || mirror.pending_full || pending.force_full || !mode.incremental
}

/// Something is to be uploaded: edits, palettes, or what blocks that came or went since the last frame
/// left marked.
pub open spec fn has_changes(
    mirror: BuilderMirror,
    pending: MainPending,
    mode: ExtractMode,
    volumes: Seq<VolumeGrid>,
) -> bool {
    ||| needs_full(mirror, pending, mode)
    ||| all_edits(mirror, pending).len() > 0
    ||| all_comps(mirror, pending).len() > 0
    ||| palettes_changed(mirror.palette_versions@, volumes)
    ||| mirror.builder is Some && mirror.builder->0.awaits_upload()
}

pub open spec fn all_edits(mirror: BuilderMirror, pending: MainPending) -> Seq<PendingEdit> {
    mirror.pending_data_chunks@ + pending.data_chunks@
}

pub open spec fn all_comps(mirror: BuilderMirror, pending: MainPending) -> Seq<(usize, ChunkCoord)> {
    mirror.pending_comp_chunks@ + pending.comp_chunks@
}

pub open spec fn all_boxes(mirror: BuilderMirror, pending: MainPending) -> Seq<EditBox> {
    mirror.pending_data_aabbs@ + pending.data_aabbs@
}

/// Words that the first `n` volumes take when they are built anew, at most.
pub open spec fn built_words(volumes: Seq<VolumeGrid>, n: nat) -> int
    decreases n,
{
    if n == 0 {
        0
    } else {
        let g = volumes[n - 1];
        built_words(volumes, (n - 1) as nat) + TREE_BASE + reserve_words(g.far) + content_words(
            &g,
            g.chunks.items().len(),
        )
    }
}

/// All volumes can be built, and their words addressed.
pub open spec fn full_fits(volumes: Seq<VolumeGrid>) -> bool {
    &&& 1 <= volumes.len()
    &&& forall|i: int| 0 <= i < volumes.len() ==> can_build(#[trigger] volumes[i])
    &&& len_ok(built_words(volumes, volumes.len()))
    &&& len_ok(volumes.len() * PALETTE_WORDS)
}

proof fn lemma_built_words(b: VolumesBuilder, volumes: Seq<VolumeGrid>, n: nat)
    requires
        b.all_built(volumes),
        n <= volumes.len(),
    ensures
        ceilings(b.builders(), volumes, Seq::empty(), n) <= built_words(volumes, n),
    decreases n,
{
    if n > 0 {
        lemma_built_words(b, volumes, (n - 1) as nat);
        assert(super::volumes::built_from(
            b.builders()[n - 1],
            volumes[n - 1],
            reserve_words(volumes[n - 1].far),
        ));
        assert(edits_cost(b.builders()[n - 1], volumes[n - 1], Seq::empty(), n - 1, 0) == 0);
    }
}

/// The builders take the edits, whatever the new volumes' builders come to be.
pub open spec fn step_fits(
    builder: VolumesBuilder,
    volumes: Seq<VolumeGrid>,
    edits: Seq<PendingEdit>,
) -> bool {
    &&& forall|i: int|
        builder.builders().len() <= i < volumes.len() ==> can_build(#[trigger] volumes[i])
    &&& forall|b: VolumesBuilder| #[trigger]
        b.caught_up(&builder, volumes) ==> batch_ok(b.builders(), volumes, edits)
}

/// The volumes after building those from `from` on: only palette reports were taken.
pub open spec fn volumes_kept(g0: Seq<VolumeGrid>, g1: Seq<VolumeGrid>, from: int) -> bool {
    &&& g1.len() == g0.len()
    &&& forall|i: int| 0 <= i < from && i < g0.len() ==> #[trigger] g1[i] == g0[i]
    &&& forall|i: int| from <= i < g0.len() ==> grid_kept(g0[i], #[trigger] g1[i])
}

/// The builders after a full build, and its snapshot.
pub open spec fn rebuilt(
    end: VolumesBuilder,
    g0: Seq<VolumeGrid>,
    g2: Seq<VolumeGrid>,
    snap: VolumesSnapshot,
    quiet: bool,
) -> bool {
    exists|b1: VolumesBuilder, g1: Seq<VolumeGrid>, b2: VolumesBuilder|
        #![trigger b1.all_built(g0), volumes_kept(g0, g1, 0), end.snapped(&b2, snap)]
        {
            &&& b1.all_built(g0)
            &&& volumes_kept(g0, g1, 0)
            &&& b2.same_state(&b1)
            &&& batch_done(b1.builders(), b2.builders(), g1, g2, Seq::empty(), quiet)
            &&& end.snapped(&b2, snap)
        }
}

/// The builders after a batch of edits, and its snapshot.
pub open spec fn stepped(
    start: VolumesBuilder,
    end: VolumesBuilder,
    g0: Seq<VolumeGrid>,
    g2: Seq<VolumeGrid>,
    edits: Seq<PendingEdit>,
    snap: VolumesSnapshot,
    quiet: bool,
) -> bool {
    exists|b1: VolumesBuilder, g1: Seq<VolumeGrid>, b2: VolumesBuilder|
        #![trigger b1.caught_up(&start, g0), volumes_kept(g0, g1, start.builders().len() as int), end.snapped(&b2, snap)]
        {
            &&& b1.caught_up(&start, g0)
            &&& volumes_kept(g0, g1, start.builders().len() as int)
            &&& b2.same_state(&b1)
            &&& batch_done(b1.builders(), b2.builders(), g1, g2, edits, quiet)
            &&& end.snapped(&b2, snap)
        }
}

/// Volumes have the same chunks.
spec fn same_chunks(g0: Seq<VolumeGrid>, g1: Seq<VolumeGrid>) -> bool {
    &&& g1.len() == g0.len()
    &&& forall|i: int| 0 <= i < g0.len() ==> (#[trigger] g1[i]).chunks == g0[i].chunks
}

proof fn lemma_same_cost(
    b: BrickMapBuilder,
    g0: VolumeGrid,
    g1: VolumeGrid,
    edits: Seq<PendingEdit>,
    v: int,
    n: nat,
)
    requires
        g1.chunks == g0.chunks,
    ensures
        edits_cost(b, g1, edits, v, n) == edits_cost(b, g0, edits, v, n),
    decreases n,
{
    if n > 0 {
        lemma_same_cost(b, g0, g1, edits, v, (n - 1) as nat);
    }
}

proof fn lemma_same_ceilings(
    bs: Seq<BrickMapBuilder>,
    g0: Seq<VolumeGrid>,
    g1: Seq<VolumeGrid>,
    edits: Seq<PendingEdit>,
    n: nat,
)
    requires
        same_chunks(g0, g1),
    ensures
        ceilings(bs, g1, edits, n) == ceilings(bs, g0, edits, n),
    decreases n,
{
    if n > 0 {
        lemma_same_ceilings(bs, g0, g1, edits, (n - 1) as nat);
        if n - 1 < g0.len() {
            assert(g1[n - 1].chunks == g0[n - 1].chunks);
            lemma_same_cost(bs[n - 1], g0[n - 1], g1[n - 1], edits, n - 1, edits.len());
        }
    }
}

proof fn lemma_same_batch(
    bs: Seq<BrickMapBuilder>,
    g0: Seq<VolumeGrid>,
    g1: Seq<VolumeGrid>,
    edits: Seq<PendingEdit>,
)
    requires
        same_chunks(g0, g1),
        batch_ok(bs, g0, edits),
    ensures
        batch_ok(bs, g1, edits),
{
    lemma_same_ceilings(bs, g0, g1, edits, bs.len());
    assert forall|k: int|
        0 <= k < edits.len() && g1[edits[k].volume as int].content(edits[k].chunk)
            && bs[edits[k].volume as int].pos_of(edits[k].chunk) is Some implies (
    #[trigger] bs[edits[k].volume as int]).report_ok(
        &g1[edits[k].volume as int].chunks.at(edits[k].chunk),
        edits[k].chunk,
        &edits[k].dirty,
    ) by {
        assert(edits[k].volume < g0.len());
        assert(g1[edits[k].volume as int].chunks == g0[edits[k].volume as int].chunks);
    }
}

/// One frame: takes over what waits, brings the builders up to date, and gives the upload.
#[verifier::rlimit(50)]
#[verifier::spinoff_prover]
pub fn extract(
    mirror: &mut BuilderMirror,
    volumes: &mut Vec<VolumeGrid>,
    pending: MainPending,
    mode: ExtractMode,
) -> (r: Extracted)
    requires
        old(mirror).builder is Some ==> old(mirror).builder->0.wf(),
        forall|i: int| 0 <= i < old(volumes).len() ==> (#[trigger] old(volumes)@[i]).wf(),
        forall|k: int|
            0 <= k < touched(
                all_edits(*old(mirror), pending),
                all_comps(*old(mirror), pending),
            ).len() ==> chunk_fits(
                (#[trigger] touched(
                    all_edits(*old(mirror), pending),
                    all_comps(*old(mirror), pending),
                )[k]).1,
            ),
        if needs_full(*old(mirror), pending, mode) {
            full_fits(old(volumes)@)
        } else {
            step_fits(
                old(mirror).builder->0,
                old(volumes)@,
                all_edits(*old(mirror), pending),
            )
        },
    ensures
        // nothing waits any more
        !final(mirror).pending_full,
        final(mirror).pending_data_chunks.len() == 0,
        final(mirror).pending_data_aabbs.len() == 0,
        final(mirror).pending_comp_chunks.len() == 0,
        // what changed
        r.dirty.full == needs_full(*old(mirror), pending, mode),
        r.dirty.palette_changed == palettes_changed(
            old(mirror).palette_versions@,
            old(volumes)@,
        ),
        r.dirty.boxes@ == (if r.dirty.full || mode.interior_only_edit {
            Seq::empty()
        } else {
            changed_boxes(
                all_edits(*old(mirror), pending),
                all_comps(*old(mirror), pending),
                all_boxes(*old(mirror), pending),
                old(volumes).len() as int,
            )
        }),
        // the upload
        r.snapshot is Some <==> has_changes(*old(mirror), pending, mode, old(volumes)@),
        r.snapshot is None ==> final(mirror).builder == old(mirror).builder && final(
            mirror).palette_versions == old(mirror).palette_versions && final(volumes)@ == old(
            volumes)@,
        r.snapshot is Some ==> {
            &&& final(mirror).builder is Some
            &&& final(mirror).builder->0.wf()
            &&& shows_versions(final(mirror).palette_versions@, final(volumes)@)
            &&& if r.dirty.full {
                rebuilt(
                    final(mirror).builder->0,
                    old(volumes)@,
                    final(volumes)@,
                    r.snapshot->0,
                    mode.quiet,
                )
            } else {
                stepped(
                    old(mirror).builder->0,
                    final(mirror).builder->0,
                    old(volumes)@,
                    final(volumes)@,
                    all_edits(*old(mirror), pending),
                    r.snapshot->0,
                    mode.quiet,
                )
            }
        },
{
    let ghost m0 = *mirror;
    let ghost g0 = volumes@;
    let ghost p0 = pending;
    let MainPending { force_full, data_chunks, comp_chunks, data_aabbs } = pending;
    let mut data_chunks: Vec<PendingEdit> = data_chunks;
    let mut comp_chunks: Vec<(usize, ChunkCoord)> = comp_chunks;
    let mut data_aabbs: Vec<EditBox> = data_aabbs;
    let need_full: bool = mirror.builder.is_none() || mirror.pending_full || force_full
        || !mode.incremental;
    mirror.pending_full = false;
    let mut edits: Vec<PendingEdit> = Vec::new();
    edits.append(&mut mirror.pending_data_chunks);
    edits.append(&mut data_chunks);
    let mut boxes: Vec<EditBox> = Vec::new();
    boxes.append(&mut mirror.pending_data_aabbs);
    boxes.append(&mut data_aabbs);
    let mut comps: Vec<(usize, ChunkCoord)> = Vec::new();
    comps.append(&mut mirror.pending_comp_chunks);
    comps.append(&mut comp_chunks);
    proof {
        assert(edits@ =~= all_edits(m0, p0));
        assert(comps@ =~= all_comps(m0, p0));
        assert(boxes@ =~= all_boxes(m0, p0));
    }
    let palette_changed: bool = palette_dirty(&mirror.palette_versions, volumes);
    let waiting: bool = match &mirror.builder {
        Some(b) => b.has_dirty(),
        None => false,
    };
    let dirty_any: bool = need_full || edits.len() > 0 || comps.len() > 0 || palette_changed
        || waiting;
    let out_boxes: Vec<VolumeBox> = if need_full || mode.interior_only_edit {
        Vec::new()
    } else {
        collect_boxes(&edits, &comps, &boxes, volumes.len())
    };
    let dirty: BrickMapDirty = BrickMapDirty { full: need_full, palette_changed, boxes: out_boxes };
    if !dirty_any {
        return Extracted { dirty, snapshot: None };
    }
    let mut builder: VolumesBuilder = if need_full {
        let b: VolumesBuilder = VolumesBuilder::build_full(volumes);
        edits.clear();
        b
    } else {
        let mut b: VolumesBuilder = match mirror.builder.take() {
            Some(b) => b,
            None => VolumesBuilder::new_unbuilt(volumes),
        };
        b.sync(volumes);
        b
    };
    let ghost b1 = builder;
    let ghost g1 = volumes@;
    proof {
        assert(edits@ =~= (if need_full {
            Seq::empty()
        } else {
            all_edits(m0, p0)
        }));
        assert(volumes_kept(
            g0,
            g1,
            if need_full {
                0
            } else {
                m0.builder->0.builders().len() as int
            },
        ));
        assert(same_chunks(g0, g1));
        if need_full {
            lemma_built_words(b1, g0, g0.len());
        }
        assert(batch_ok(b1.builders(), g0, edits@));
        lemma_same_batch(b1.builders(), g0, g1, edits@);
        assert forall|i: int| 0 <= i < volumes.len() implies (#[trigger] volumes@[i]).wf() by {
            assert(g0[i].wf());
        }
    }
    apply_edits(&mut builder, volumes, &edits, mode.quiet);
    let ghost b2 = builder;
    let snapshot: VolumesSnapshot = builder.snapshot();
    mirror.palette_versions = versions_of(volumes);
    proof {
        if need_full {
            assert(rebuilt(builder, g0, volumes@, snapshot, mode.quiet));
        } else {
            assert(stepped(m0.builder->0, builder, g0, volumes@, edits@, snapshot, mode.quiet));
        }
    }
    mirror.builder = Some(builder);
    Extracted { dirty, snapshot: Some(snapshot) }
}

/// Versions noted at a snapshot tell later whether a palette has changed: as long as every volume has
/// the version that was noted of it nothing has, and a volume that has come since always counts.
pub proof fn lemma_palette_versions(
    versions: Seq<u64>,
    noted: Seq<VolumeGrid>,
    now: Seq<VolumeGrid>,
)
    requires
        shows_versions(versions, noted),
    ensures
        now.len() > noted.len() ==> palettes_changed(versions, now),
        forall|i: int|
            0 <= i < now.len() && i < noted.len() && (#[trigger] now[i]).palette.version
                != noted[i].palette.version ==> palettes_changed(versions, now),
        now.len() <= noted.len() && (forall|i: int|
            0 <= i < now.len() ==> (#[trigger] now[i]).palette.version == noted[i].palette.version)
            ==> !palettes_changed(versions, now),
{
    if now.len() > noted.len() {
        let i = noted.len() as int;
        assert(i >= versions.len() || versions[i] != now[i].palette.version);
    }
    assert forall|i: int|
        0 <= i < now.len() && i < noted.len() && (#[trigger] now[i]).palette.version
            != noted[i].palette.version implies palettes_changed(versions, now) by {
        assert(versions[i] == noted[i].palette.version);
    }
    if palettes_changed(versions, now) {
        let i = choose|i: int|
            0 <= i < now.len() && (i >= versions.len() || versions[i] != (
            #[trigger] now[i]).palette.version);
        if i < noted.len() {
            assert(versions[i] == noted[i].palette.version);
        }
    }
}

/// What waited comes before what is new, and neither is left out: edits, component chunks and boxes
/// alike.
pub proof fn lemma_pending_is_joined(mirror: BuilderMirror, pending: MainPending, k: int)
    requires
        0 <= k,
    ensures
        ({
            let (a, b) = (mirror.pending_data_chunks@, pending.data_chunks@);
            &&& k < a.len() ==> all_edits(mirror, pending)[k] == a[k]
            &&& k < b.len() ==> all_edits(mirror, pending)[a.len() + k] == b[k]
            &&& all_edits(mirror, pending).len() == a.len() + b.len()
        }),
        ({
            let (a, b) = (mirror.pending_comp_chunks@, pending.comp_chunks@);
            &&& k < a.len() ==> all_comps(mirror, pending)[k] == a[k]
            &&& k < b.len() ==> all_comps(mirror, pending)[a.len() + k] == b[k]
            &&& all_comps(mirror, pending).len() == a.len() + b.len()
        }),
        ({
            let (a, b) = (mirror.pending_data_aabbs@, pending.data_aabbs@);
            &&& k < a.len() ==> all_boxes(mirror, pending)[k] == a[k]
            &&& k < b.len() ==> all_boxes(mirror, pending)[a.len() + k] == b[k]
            &&& all_boxes(mirror, pending).len() == a.len() + b.len()
        }),
{
}

/// Where nothing is to be uploaded, nothing was asked for: no full build, no edit, no component chunk,
/// no palette change and no mark.
pub proof fn lemma_nothing_to_upload(
    mirror: BuilderMirror,
    pending: MainPending,
    mode: ExtractMode,
    volumes: Seq<VolumeGrid>,
)
    requires
        !has_changes(mirror, pending, mode, volumes),
    ensures
        mirror.builder is Some,
        !mirror.pending_full && !pending.force_full,
        mode.incremental,
        mirror.pending_data_chunks.len() == 0 && pending.data_chunks.len() == 0,
        mirror.pending_comp_chunks.len() == 0 && pending.comp_chunks.len() == 0,
        forall|i: int|
            0 <= i < volumes.len() ==> i < mirror.palette_versions.len()
                && mirror.palette_versions@[i] == (#[trigger] volumes[i]).palette.version,
        !mirror.builder->0.awaits_upload(),
{
}

} // verus!
