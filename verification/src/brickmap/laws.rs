//! What holds of the words over several steps.

use super::builder::{
    anew, any_content, axis_of, axis_window, fits_in_place, index_pos, is_highest, is_lowest, is_window,
    lemma_index_entries, tail_free, BrickMapBuilder, ChunkUpdate,
};
use super::dump::{header_word, is_dump, is_reach_table, row_word, stands_at};
use super::extract::{
    batch_done, edited, rebuilt, stepped, trees_after, volume_after, volumes_kept, PendingEdit,
};
use super::grid::{window_ok, TreeDirty, VolumeGrid};
use super::tree::{content_len, is_child, node_at, voxel_in, wire_word, ChunkTree};
use super::upload::{plan_shows, plan_weighs, UploadPlan};
use super::view::{lemma_view_reads_trees, voxel_at};
use super::volumes::{
    bases_of, built_from, in_piece, lemma_base_bound, lemma_layout_apart,
    lemma_marked_words_are_uploaded, lemma_struct_before, marks_before, palette_base_of, spans_before,
    struct_before, struct_pieces, struct_total, taken, totals_ok, tree_base_of, updated, window_step,
    VolumesBuilder, VolumesSnapshot,
};
use super::wire::{
    lemma_packed_flags, lemma_word_bytes, packed_flags, PaletteEntry, CHUNK_SIZE, FLAG_IS_PBR,
    FLAG_TRANSMISSIVE, MARCH_MASK_WORDS, PALETTE_ENTRY_COUNT, PALETTE_WORDS, TREE_BASE,
};
use crate::math::{ChunkCoord, IVec3};
use vstd::prelude::*;

verus! {

/// Chunk `coord` was brought up to date from `a` to `b`, then the region packed where it had to be.
pub open spec fn brought_up(
    a: &BrickMapBuilder,
    b: &BrickMapBuilder,
    g: &VolumeGrid,
    coord: ChunkCoord,
    dirty: &TreeDirty,
    allow_compact: bool,
) -> bool {
    exists|m: BrickMapBuilder| #[trigger]
        BrickMapBuilder::edited(a, &m, g, coord, dirty) && BrickMapBuilder::settled(
            &m,
            b,
            allow_compact,
        )
}

/// An edit that fits where it is, in a tree region of which at most half is free, uploads only its
/// path: no block moves, the words keep their number, and what is written or marked is content of
/// reported nodes that read otherwise than before.
pub proof fn lemma_edit_uploads_its_path(
    a: &BrickMapBuilder,
    b: &BrickMapBuilder,
    g: &VolumeGrid,
    coord: ChunkCoord,
    dirty: &TreeDirty,
    allow_compact: bool,
)
    requires
        a.wf(),
        a.resident(coord),
        g.content(coord),
        !anew(dirty, &g.chunks.at(coord)),
        brought_up(a, b, g, coord, dirty, allow_compact),
        2 * a.free_total() <= a.words().len() - TREE_BASE,
        fits_in_place(a.tree_of(coord), g.chunks.at(coord).model(), dirty.nodes@) || tail_free(
            a.free_in(coord),
            a.cap_of(coord),
            67 * dirty.nodes@.len() as int,
        ),
    ensures
        b.words().len() == a.words().len(),
        forall|c: ChunkCoord| #[trigger] b.resident(c) <==> a.resident(c),
        forall|c: ChunkCoord| #[trigger]
            b.resident(c) ==> b.base_of(c) == a.base_of(c) && b.cap_of(c) == a.cap_of(c),
        BrickMapBuilder::marks_path(a, b, coord, dirty.nodes@),
{
    let m = choose|m: BrickMapBuilder| #[trigger]
        BrickMapBuilder::edited(a, &m, g, coord, dirty) && BrickMapBuilder::settled(
            &m,
            b,
            allow_compact,
        );
    assert(m.resident(coord));
    assert(m.cap_of(coord) == a.cap_of(coord));
    assert(b.same_blocks(&m));
    assert forall|c: ChunkCoord| #[trigger] b.resident(c) <==> a.resident(c) by {
        assert(m.resident(c) <==> a.resident(c));
    }
    assert forall|c: ChunkCoord| #[trigger] b.resident(c) implies b.base_of(c) == a.base_of(c) && b.cap_of(
        c,
    ) == a.cap_of(c) by {
        assert(m.resident(c));
    }
    let nodes = dirty.nodes@;
    assert forall|w: int| #[trigger] BrickMapBuilder::path_word(a, &m, coord, nodes, w) implies BrickMapBuilder::path_word(
        a,
        b,
        coord,
        nodes,
        w,
    ) by {
        let i = choose|i: int|
            0 <= i < nodes.len() && m.node_word(coord, (#[trigger] nodes[i]).1, w)
                && BrickMapBuilder::rewritten(a, &m, coord, nodes[i].1);
        assert(b.node_word(coord, nodes[i].1, w));
        assert(BrickMapBuilder::rewritten(a, b, coord, nodes[i].1));
    }
    assert forall|w: int| #[trigger] b.dirty_word(w) && !a.dirty_word(w) implies BrickMapBuilder::path_word(
        a,
        b,
        coord,
        nodes,
        w,
    ) by {
        assert(m.dirty_word(w));
        assert(BrickMapBuilder::path_word(a, &m, coord, nodes, w));
    }
    assert forall|w: int|
        0 <= w < a.words().len() && #[trigger] b.words()[w] != a.words()[w] implies BrickMapBuilder::path_word(
        a,
        b,
        coord,
        nodes,
        w,
    ) by {
        assert(m.words()[w] != a.words()[w]);
        assert(BrickMapBuilder::path_word(a, &m, coord, nodes, w));
    }
}

/// Bringing a chunk up to date once more changes nothing: no word is written and none is marked.
pub proof fn lemma_edit_again_changes_nothing(
    a: &BrickMapBuilder,
    b: &BrickMapBuilder,
    g: &VolumeGrid,
    coord: ChunkCoord,
    dirty: &TreeDirty,
)
    requires
        a.wf(),
        b.wf(),
        a.resident(coord),
        g.content(coord),
        a.tree_of(coord) == g.chunks.at(coord).model(),
        !anew(dirty, &g.chunks.at(coord)),
        brought_up(a, b, g, coord, dirty, false),
    ensures
        b.words() == a.words(),
        forall|w: int| #[trigger] b.dirty_word(w) <==> a.dirty_word(w),
        a.dirty_list().len() == 0 ==> b.dirty_list().len() == 0,
        forall|c: ChunkCoord| #[trigger] b.resident(c) <==> a.resident(c),
        forall|c: ChunkCoord| #[trigger]
            b.resident(c) ==> b.base_of(c) == a.base_of(c) && b.cap_of(c) == a.cap_of(c) && b.tree_of(c)
                == a.tree_of(c),
{
    let m = choose|m: BrickMapBuilder| #[trigger]
        BrickMapBuilder::edited(a, &m, g, coord, dirty) && BrickMapBuilder::settled(&m, b, false);
    let t = a.tree_of(coord);
    let nodes = dirty.nodes@;
    assert(m.resident(coord));
    assert(fits_in_place(t, t, nodes));
    assert(BrickMapBuilder::keeps_places(a, &m, coord));
    assert forall|w: int| !BrickMapBuilder::path_word(a, &m, coord, nodes, w) by {
        if BrickMapBuilder::path_word(a, &m, coord, nodes, w) {
            let i = choose|i: int|
                0 <= i < nodes.len() && m.node_word(coord, (#[trigger] nodes[i]).1, w)
                    && BrickMapBuilder::rewritten(a, &m, coord, nodes[i].1);
            let id = nodes[i].1;
            a.lemma_block_reads(coord, id);
            m.lemma_block_reads(coord, id);
            let (sa, sm) = (a.blocks()[coord].slots, m.blocks()[coord].slots);
            let at = a.base_of(coord) + a.offset_of(coord, id);
            assert forall|j: int| 0 <= j < content_len(t[id]) implies #[trigger] m.words()[m.base_of(coord)
                + m.offset_of(coord, id) + j] == a.words()[a.base_of(coord) + a.offset_of(coord, id) + j] by {
                assert(m.words()[at + j] == wire_word(t[id], sm, j));
                assert(a.words()[at + j] == wire_word(t[id], sa, j));
                if j >= 3 && t[id].level < 3 {
                    let c = t[id].children[j - 3];
                    assert(is_child(t, id, j - 3, c));
                    assert(t.dom().contains(c));
                    assert(m.offset_of(coord, c) == a.offset_of(coord, c));
                }
            }
        }
    }
    assert(m.words() =~= a.words());
    assert forall|w: int| #[trigger] b.dirty_word(w) <==> a.dirty_word(w) by {
        assert(b.dirty_word(w) <==> m.dirty_word(w));
        if a.dirty_word(w) {
            assert(m.dirty_word(w));
        }
    }
    assert forall|c: ChunkCoord| #[trigger] b.resident(c) <==> a.resident(c) by {
        assert(m.resident(c) <==> a.resident(c));
    }
    assert forall|c: ChunkCoord| #[trigger] b.resident(c) implies b.base_of(c) == a.base_of(c) && b.cap_of(
        c,
    ) == a.cap_of(c) && b.tree_of(c) == a.tree_of(c) by {
        assert(m.resident(c));
    }
    b.lemma_len();
    if a.dirty_list().len() == 0 && b.dirty_list().len() > 0 {
        let d = b.dirty_list();
        assert(d[0].0 < d[0].1 && d[0].0 % 4 == 0 && d[0].1 % 4 == 0);
        let w = d[0].0 as int / 4;
        assert(b.dirty_word(w));
        assert(a.dirty_word(w));
    }
}

/// Every chunk that the window reaches shows its volume's tree, and chunks without content none.
pub open spec fn mirrors(b: BrickMapBuilder, g: VolumeGrid) -> bool {
    forall|c: ChunkCoord|
        b.pos_of(c) is Some ==> (#[trigger] b.resident(c) <==> g.content(c)) && (b.resident(c)
            ==> b.tree_of(c) == g.chunks.at(c).model())
}

/// From `g0` to `g1` no chunk but `coord` changed.
pub open spec fn one_changed(g0: VolumeGrid, g1: VolumeGrid, coord: ChunkCoord) -> bool {
    forall|c: ChunkCoord|
        c != coord ==> (#[trigger] g1.content(c) <==> g0.content(c)) && (g1.content(c)
            ==> g1.chunks.at(c).model() == g0.chunks.at(c).model())
}

/// From `b0` to `b1` an edit of one chunk, which led from volume `g0` to `g1`, was worked in.
pub open spec fn worked_in(
    b0: BrickMapBuilder,
    b1: BrickMapBuilder,
    g0: VolumeGrid,
    g1: VolumeGrid,
) -> bool {
    exists|g: VolumeGrid, coord: ChunkCoord, dirty: TreeDirty, quiet: bool, out: ChunkUpdate|
        one_changed(g0, g1, coord) && #[trigger] updated(b0, b1, g1, g, coord, dirty, quiet, out)
}

/// However many edits follow a full build, each reported with the nodes that it changed, the words
/// show the volume as it is: the index leads to every chunk with content in the window, and the
/// words there are those of its tree, node by node.
pub proof fn lemma_edits_survive(bs: Seq<BrickMapBuilder>, gs: Seq<VolumeGrid>, reserve: int, n: int)
    requires
        0 <= n < bs.len(),
        bs.len() == gs.len(),
        built_from(bs[0], gs[0], reserve),
        forall|i: int|
            0 <= i < n ==> worked_in(#[trigger] bs[i], bs[i + 1], gs[i], gs[i + 1]),
    ensures
        bs[n].wf(),
        bs[n].same_setup(&bs[0]),
        mirrors(bs[n], gs[n]),
        forall|c: ChunkCoord, id: u32|
            bs[n].pos_of(c) is Some && gs[n].content(c) && #[trigger] gs[n].chunks.at(
                c,
            ).model().dom().contains(id) ==> {
                &&& bs[n].words()[bs[n].pos_of(c)->0] == bs[n].base_of(c) + 1
                &&& node_at(
                    bs[n].words(),
                    bs[n].base_of(c) + bs[n].offset_of(c, id),
                    gs[n].chunks.at(c).model()[id],
                    bs[n].blocks()[c].slots,
                )
            },
    decreases n,
{
    let (b, g) = (bs[n], gs[n]);
    if n == 0 {
        lemma_build_mirrors(b, g, reserve);
    } else {
        lemma_edits_survive(bs, gs, reserve, n - 1);
        let (a, h) = (bs[n - 1], gs[n - 1]);
        assert(worked_in(bs[n - 1], bs[n - 1 + 1], gs[n - 1], gs[n - 1 + 1]));
        let (g2, coord, dirty, quiet, out) = choose|
            g2: VolumeGrid,
            coord: ChunkCoord,
            dirty: TreeDirty,
            quiet: bool,
            out: ChunkUpdate,
        |
            one_changed(h, g, coord) && #[trigger] updated(a, b, g, g2, coord, dirty, quiet, out);
        assert forall|c: ChunkCoord| b.pos_of(c) is Some implies (#[trigger] b.resident(c) <==> g.content(
            c,
        )) && (b.resident(c) ==> b.tree_of(c) == g.chunks.at(c).model()) by {
            assert(a.pos_of(c) is Some);
            assert(a.resident(c) <==> h.content(c));
            assert(c != coord ==> (g.content(c) <==> h.content(c)));
        }
    }
    assert forall|c: ChunkCoord, id: u32|
        b.pos_of(c) is Some && g.content(c) && #[trigger] g.chunks.at(c).model().dom().contains(
            id,
        ) implies {
        &&& b.words()[b.pos_of(c)->0] == b.base_of(c) + 1
        &&& node_at(
            b.words(),
            b.base_of(c) + b.offset_of(c, id),
            g.chunks.at(c).model()[id],
            b.blocks()[c].slots,
        )
    } by {
        assert(b.resident(c));
        b.lemma_block_reads(c, id);
    }
}

/// Nothing happened, or one chunk's block came or went.
pub open spec fn streamed(a: BrickMapBuilder, b: BrickMapBuilder) -> bool {
    &&& b.wf()
    &&& b.same_setup(&a)
    &&& {
        ||| b == a
        ||| exists|c: ChunkCoord, tree: ChunkTree| #[trigger]
            BrickMapBuilder::installed(&a, &b, c, &tree)
        ||| exists|c: ChunkCoord| #[trigger] BrickMapBuilder::evicted(&a, &b, c)
    }
}

proof fn lemma_streamed_marks(bs: Seq<BrickMapBuilder>, i: int, n: int)
    requires
        0 <= i <= n < bs.len(),
        forall|k: int| i <= k < n ==> streamed(#[trigger] bs[k], bs[k + 1]),
    ensures
        BrickMapBuilder::marks_writes(&bs[i], &bs[n]),
    decreases n - i,
{
    if i < n {
        lemma_streamed_marks(bs, i, n - 1);
        assert(streamed(bs[n - 1], bs[n - 1 + 1]));
        BrickMapBuilder::lemma_writes_trans(&bs[i], &bs[n - 1], &bs[n]);
    }
}

proof fn lemma_streamed_whole(bs: Seq<BrickMapBuilder>, i: int, n: int, c: ChunkCoord)
    requires
        0 <= i <= n < bs.len(),
        forall|k: int| i <= k < n ==> streamed(#[trigger] bs[k], bs[k + 1]),
        bs[i].marked_whole(c),
        forall|k: int| i <= k <= n ==> (#[trigger] bs[k]).resident(c),
    ensures
        bs[n].marked_whole(c),
    decreases n - i,
{
    if i < n {
        lemma_streamed_whole(bs, i, n - 1, c);
        let (a, b) = (bs[n - 1], bs[n]);
        assert(streamed(bs[n - 1], bs[n - 1 + 1]));
        assert(a.resident(c) && b.resident(c));
        if !b.marked_whole(c) {
            assert(BrickMapBuilder::marks_writes(&a, &b));
            assert(b.blocks()[c] == a.blocks()[c]) by {
                if exists|d: ChunkCoord| #[trigger] BrickMapBuilder::evicted(&a, &b, d) {
                } else if b != a {
                    let (d, tree) = choose|d: ChunkCoord, tree: ChunkTree| #[trigger]
                        BrickMapBuilder::installed(&a, &b, d, &tree);
                    assert(d != c);
                }
            }
            assert(b.pos_of(c) == a.pos_of(c));
            assert(a.dirty_word(a.pos_of(c)->0));
            assert forall|id: u32, w: int| #[trigger] b.node_word(c, id, w) implies b.dirty_word(w) by {
                assert(a.node_word(c, id, w));
                assert(a.dirty_word(w));
            }
        }
    }
}

/// What streaming leaves for the next upload: after any number of blocks that came and went since
/// state `0`, every index entry that changed is in an upload piece, and so is every word of the tree,
/// and the index entry, of a chunk that was installed in step `i` and has stayed since.
pub proof fn lemma_streamed_trees_are_uploaded(
    bs: Seq<BrickMapBuilder>,
    i: int,
    n: int,
    c: ChunkCoord,
    tree: ChunkTree,
    all: Seq<BrickMapBuilder>,
    v: int,
    blobs: Seq<(usize, Vec<u8>)>,
)
    requires
        0 <= i < n < bs.len(),
        forall|k: int| 0 <= k < n ==> streamed(#[trigger] bs[k], bs[k + 1]),
        bs[0].wf(),
        BrickMapBuilder::installed(&bs[i], &bs[i + 1], c, &tree),
        forall|k: int| i < k <= n ==> (#[trigger] bs[k]).resident(c),
        0 <= v < all.len(),
        all[v] == bs[n],
        forall|u: int| 0 <= u < all.len() ==> (#[trigger] all[u]).wf(),
        struct_pieces(blobs, all),
    ensures
        forall|p: int|
            0 <= p < TREE_BASE && #[trigger] bs[n].words()[p] != bs[0].words()[p] ==> in_piece(
                blobs,
                all,
                v,
                p,
            ),
        in_piece(blobs, all, v, bs[n].pos_of(c)->0),
        forall|id: u32, w: int| #[trigger] bs[n].node_word(c, id, w) ==> in_piece(blobs, all, v, w),
{
    lemma_streamed_marks(bs, 0, n);
    bs[0].lemma_len();
    lemma_streamed_whole(bs, i + 1, n, c);
    lemma_marked_words_are_uploaded(blobs, all, v, bs[n].pos_of(c)->0);
    assert forall|p: int| 0 <= p < TREE_BASE && #[trigger] bs[n].words()[p] != bs[0].words()[p] implies in_piece(
        blobs,
        all,
        v,
        p,
    ) by {
        lemma_marked_words_are_uploaded(blobs, all, v, p);
    }
    assert forall|id: u32, w: int| #[trigger] bs[n].node_word(c, id, w) implies in_piece(
        blobs,
        all,
        v,
        w,
    ) by {
        lemma_marked_words_are_uploaded(blobs, all, v, w);
    }
}

/// The first words of volumes depend on their numbers of words alone.
proof fn lemma_same_bases(a: Seq<BrickMapBuilder>, b: Seq<BrickMapBuilder>, n: int)
    requires
        a.len() == b.len(),
        0 <= n <= a.len(),
        forall|i: int| 0 <= i < a.len() ==> (#[trigger] a[i]).words().len() == b[i].words().len(),
    ensures
        struct_before(a, n) == struct_before(b, n),
    decreases n,
{
    if n > 0 {
        lemma_same_bases(a, b, n - 1);
        assert(a[n - 1].words().len() == b[n - 1].words().len());
    }
}

/// Without marks there are no pieces.
proof fn lemma_no_marks(bs: Seq<BrickMapBuilder>, n: int)
    requires
        0 <= n <= bs.len(),
        forall|i: int|
            0 <= i < bs.len() ==> (#[trigger] bs[i]).dirty_list().len() == 0
                && bs[i].dirty_entries() is None,
    ensures
        marks_before(bs, n) == 0,
        spans_before(bs, n) == 0,
    decreases n,
{
    if n > 0 {
        lemma_no_marks(bs, n - 1);
        assert(bs[n - 1].dirty_list().len() == 0 && bs[n - 1].dirty_entries() is None);
    }
}

/// A snapshot right after another is incremental and empty, with the same descriptors and sizes, and
/// nothing awaits an upload.
pub proof fn lemma_second_snapshot_is_empty(
    a: &VolumesBuilder,
    b: &VolumesBuilder,
    c: &VolumesBuilder,
    s1: VolumesSnapshot,
    s2: VolumesSnapshot,
)
    requires
        a.builders().len() >= 1,
        b.snapped(a, s1),
        c.snapped(b, s2),
    ensures
        !b.awaits_upload(),
        !c.awaits_upload(),
        !s2.full,
        s2.b_struct.len() == 0,
        s2.b_palette.len() == 0,
        s2.struct_blobs.len() == 0,
        s2.palette_blobs.len() == 0,
        s2.dirty_chunks == 0,
        s2.grid_descs@ == s1.grid_descs@,
        s2.struct_total_bytes == s1.struct_total_bytes,
        s2.palette_total_bytes == s1.palette_total_bytes,
{
    let (x, y) = (a.builders(), b.builders());
    assert forall|i: int| 0 <= i < x.len() implies (#[trigger] x[i]).words().len() == y[i].words().len() by {
        assert(taken(x[i], y[i]));
    }
    assert forall|i: int| 0 <= i < y.len() implies (#[trigger] y[i]).dirty_list().len() == 0
        && y[i].dirty_entries() is None by {
        assert(taken(x[i], y[i]));
    }
    lemma_no_marks(y, y.len() as int);
    lemma_same_bases(x, y, x.len() as int);
    assert forall|i: int| 0 <= i < x.len() implies tree_base_of(x, i) == tree_base_of(y, i)
        && palette_base_of(x, i) == palette_base_of(y, i) by {
        lemma_same_bases(x, y, i);
        assert(x[i].words().len() == y[i].words().len());
    }
    assert(x[0].words().len() == y[0].words().len());
    assert(b.bases_kept());
    assert forall|i: int| 0 <= i < s1.grid_descs.len() implies #[trigger] s1.grid_descs@[i]
        == s2.grid_descs@[i] by {
        assert(taken(x[i], y[i]));
        assert(tree_base_of(x, i) == tree_base_of(y, i));
    }
    assert(s2.grid_descs@ =~= s1.grid_descs@);
    let z = c.builders();
    assert forall|i: int| 0 <= i < z.len() implies (#[trigger] z[i]).dirty_list().len() == 0
        && z[i].dirty_entries() is None by {
        assert(taken(y[i], z[i]));
    }
}

/// What any call but a snapshot leaves of the snapshot state: the bases of the last snapshot, and a
/// demand for a full one.
pub open spec fn carried(a: VolumesBuilder, b: VolumesBuilder) -> bool {
    &&& b.last_bases() == a.last_bases()
    &&& a.forced() ==> b.forced()
}

/// The call from `a` to `b` asked for a full snapshot.
pub open spec fn demanded(a: VolumesBuilder, b: VolumesBuilder) -> bool {
    !a.forced() && b.forced()
}

/// The volumes stand where they stood.
pub open spec fn same_places(a: Seq<BrickMapBuilder>, b: Seq<BrickMapBuilder>) -> bool {
    &&& a.len() == b.len()
    &&& forall|i: int|
        0 <= i < a.len() ==> #[trigger] tree_base_of(b, i) == tree_base_of(a, i) && palette_base_of(b, i)
            == palette_base_of(a, i)
}

proof fn lemma_carried(vs: Seq<VolumesBuilder>, n: int)
    requires
        0 <= n < vs.len(),
        !vs[0].forced(),
        forall|k: int| 0 <= k < n ==> carried(#[trigger] vs[k], vs[k + 1]),
    ensures
        vs[n].last_bases() == vs[0].last_bases(),
        vs[n].forced() <==> exists|k: int| 0 <= k < n && demanded(#[trigger] vs[k], vs[k + 1]),
    decreases n,
{
    if n > 0 {
        lemma_carried(vs, n - 1);
        assert(carried(vs[n - 1], vs[n - 1 + 1]));
        if vs[n].forced() && !vs[n - 1].forced() {
            assert(demanded(vs[n - 1], vs[n - 1 + 1]));
        }
        if vs[n - 1].forced() {
            let k = choose|k: int| 0 <= k < n - 1 && demanded(#[trigger] vs[k], vs[k + 1]);
            assert(demanded(vs[k], vs[k + 1]));
        }
        if exists|k: int| 0 <= k < n && demanded(#[trigger] vs[k], vs[k + 1]) {
            let k = choose|k: int| 0 <= k < n && demanded(#[trigger] vs[k], vs[k + 1]);
            if k < n - 1 {
                assert(demanded(vs[k], vs[k + 1]));
            }
        }
    }
}

/// A snapshot is full exactly when a call since the last one asked for it, as one does that adds a
/// volume, or when the volumes do not stand where they stood at the last one. `vs` are the builders
/// from the last snapshot on, which took `a` to the first of them.
pub proof fn lemma_full_when_due(
    a: &VolumesBuilder,
    s: VolumesSnapshot,
    vs: Seq<VolumesBuilder>,
    n: int,
    end: &VolumesBuilder,
    r: VolumesSnapshot,
)
    requires
        0 <= n < vs.len(),
        vs[0].snapped(a, s),
        forall|k: int| 0 <= k < n ==> carried(#[trigger] vs[k], vs[k + 1]),
        end.snapped(&vs[n], r),
    ensures
        r.full <==> (exists|k: int| 0 <= k < n && demanded(#[trigger] vs[k], vs[k + 1]))
            || !same_places(a.builders(), vs[n].builders()),
{
    lemma_carried(vs, n);
    let (t, p) = vs[n].last_bases();
    let (x, y) = (a.builders(), vs[n].builders());
    assert(bases_of(x, t, p));
    if vs[n].bases_kept() {
        assert forall|i: int| 0 <= i < x.len() implies #[trigger] tree_base_of(y, i) == tree_base_of(x, i)
            && palette_base_of(y, i) == palette_base_of(x, i) by {
            assert(t[i] == tree_base_of(x, i) && t[i] == tree_base_of(y, i));
            assert(p[i] == palette_base_of(x, i) && p[i] == palette_base_of(y, i));
        }
    }
    if same_places(x, y) {
        assert forall|i: int| 0 <= i < y.len() implies #[trigger] t[i] == tree_base_of(y, i) by {
            assert(tree_base_of(y, i) == tree_base_of(x, i));
        }
        assert forall|i: int| 0 <= i < y.len() && i < p.len() implies #[trigger] p[i] == palette_base_of(
            y,
            i,
        ) by {
            assert(tree_base_of(y, i) == tree_base_of(x, i));
        }
        assert(vs[n].bases_kept());
    }
}

/// The voxel of a volume at `v`: 0 is air.
pub open spec fn volume_voxel(g: VolumeGrid, v: IVec3) -> u16 {
    let c = chunk_of(v);
    if g.chunks.has(c) {
        voxel_in(
            g.chunks.at(c).model(),
            0,
            v.x as int % 256,
            v.y as int % 256,
            v.z as int % 256,
        )
    } else {
        0
    }
}

/// The chunk of a voxel.
pub open spec fn chunk_of(v: IVec3) -> ChunkCoord {
    ChunkCoord(
        IVec3 {
            x: (v.x as int / 256) as i32,
            y: (v.y as int / 256) as i32,
            z: (v.z as int / 256) as i32,
        },
    )
}

/// A view of words that show a volume reads the volume's voxels: what is not air, in chunks that the
/// window reaches, and `None` for all else.
pub proof fn lemma_view_reads_volume(b: BrickMapBuilder, g: VolumeGrid, v: IVec3)
    requires
        b.wf(),
        g.wf(),
        mirrors(b, g),
    ensures
        voxel_at(b.words(), b.window_spec().0, b.window_spec().1, v) == (if b.pos_of(chunk_of(v)) is Some
            && volume_voxel(g, v) != 0 {
            Some(volume_voxel(g, v))
        } else {
            None
        }),
{
    let c = chunk_of(v);
    lemma_view_reads_trees(&b, v);
    if b.resident(c) {
        b.lemma_block_reads(c, 0);
    }
    if b.pos_of(c) is Some {
        assert(b.resident(c) <==> g.content(c));
        if g.chunks.has(c) && !g.content(c) {
            let m = g.chunks.at(c).model();
            assert(m[0].mask == 0);
            assert(volume_voxel(g, v) == m[0].palette);
        }
    }
}

/// A full build shows its volume.
pub proof fn lemma_build_mirrors(b: BrickMapBuilder, g: VolumeGrid, reserve: int)
    requires
        built_from(b, g, reserve),
    ensures
        b.wf(),
        mirrors(b, g),
{
    assert forall|c: ChunkCoord| b.pos_of(c) is Some implies (#[trigger] b.resident(c) <==> g.content(c))
        && (b.resident(c) ==> b.tree_of(c) == g.chunks.at(c).model()) by {
        if b.resident(c) {
            assert(b.laid_out(c, &g.chunks.at(c)));
        }
    }
}

/// A volume has one window.
proof fn lemma_one_window(g: &VolumeGrid, o1: IVec3, d1: IVec3, o2: IVec3, d2: IVec3)
    requires
        is_window(g, o1, d1),
        is_window(g, o2, d2),
    ensures
        o1 == o2,
        d1 == d2,
{
    if g.stream_window is None && any_content(g) {
        assert forall|axis: int| 0 <= axis < 3 implies axis_of(o1, axis) == axis_of(o2, axis) && axis_of(
            d1,
            axis,
        ) == axis_of(d2, axis) by {
            let (a1, b1) = (axis_of(o1, axis) as int, axis_of(d1, axis) as int);
            let (a2, b2) = (axis_of(o2, axis) as int, axis_of(d2, axis) as int);
            assert(axis_window(g, axis, a1, b1));
            assert(axis_window(g, axis, a2, b2));
            assert(is_lowest(g, axis, a1 + 1) && is_lowest(g, axis, a2 + 1));
            let h1 = choose|h: int| #[trigger]
                is_highest(g, axis, h) && b1 == (if h - (a1 + 1) + 3 < 64 {
                    h - (a1 + 1) + 3
                } else {
                    64
                });
            let h2 = choose|h: int| #[trigger]
                is_highest(g, axis, h) && b2 == (if h - (a2 + 1) + 3 < 64 {
                    h - (a2 + 1) + 3
                } else {
                    64
                });
            assert(h1 == h2);
        }
        assert(axis_of(o1, 0) == axis_of(o2, 0) && axis_of(o1, 1) == axis_of(o2, 1) && axis_of(o1, 2)
            == axis_of(o2, 2));
        assert(axis_of(d1, 0) == axis_of(d2, 0) && axis_of(d1, 1) == axis_of(d2, 1) && axis_of(d1, 2)
            == axis_of(d2, 2));
    }
}

/// In two builds of one volume, a block is the same.
proof fn lemma_same_block(a: BrickMapBuilder, b: BrickMapBuilder, g: VolumeGrid, reserve: int, c: ChunkCoord)
    requires
        built_from(a, g, reserve),
        built_from(b, g, reserve),
        a.window_spec() == b.window_spec(),
        a.resident(c),
    ensures
        b.resident(c),
        b.base_of(c) == a.base_of(c),
        b.cap_of(c) == a.cap_of(c),
        b.tree_of(c) == a.tree_of(c),
        b.blocks()[c].slots == a.blocks()[c].slots,
        forall|id: u32, w: int| #[trigger] a.node_word(c, id, w) <==> b.node_word(c, id, w),
{
    assert(g.content(c) && b.pos_of(c) is Some);
    assert(b.resident(c));
    assert(a.laid_out(c, &g.chunks.at(c)) && b.laid_out(c, &g.chunks.at(c)));
    let i = g.chunks.index_of(c);
    assert(0 <= i < g.chunks.items().len() && g.chunks.items()[i].0 == c);
    assert(a.resident(g.chunks.items()[i].0) && b.resident(g.chunks.items()[i].0));
}

/// In two builds of one volume, a word is the same.
proof fn lemma_same_word(a: BrickMapBuilder, b: BrickMapBuilder, g: VolumeGrid, reserve: int, w: int)
    requires
        built_from(a, g, reserve),
        built_from(b, g, reserve),
        a.window_spec() == b.window_spec(),
        0 <= w < a.words().len(),
        0 <= w < b.words().len(),
        a.live(w),
        a.words()[w] != 0,
    ensures
        b.words()[w] == a.words()[w],
{
    if w < TREE_BASE {
        let c = a.lemma_index_entry(w);
        lemma_same_block(a, b, g, reserve, c);
        a.lemma_block_reads(c, 0);
        b.lemma_block_reads(c, 0);
    } else {
        let (c, id) = choose|c: ChunkCoord, id: u32| a.node_word(c, id, w);
        lemma_same_block(a, b, g, reserve, c);
        assert(b.node_word(c, id, w));
        a.lemma_block_reads(c, id);
        b.lemma_block_reads(c, id);
        let at = a.base_of(c) + a.offset_of(c, id);
        let k = w - at;
        assert(a.words()[at + k] == wire_word(a.tree_of(c)[id], a.blocks()[c].slots, k));
        assert(b.words()[at + k] == wire_word(b.tree_of(c)[id], b.blocks()[c].slots, k));
    }
}

/// A full build is a function of the volume: two builds of the same volume have the same words,
/// the same palette words, the same globals and the same blocks.
pub proof fn lemma_build_is_deterministic(a: BrickMapBuilder, b: BrickMapBuilder, g: VolumeGrid, reserve: int)
    requires
        built_from(a, g, reserve),
        built_from(b, g, reserve),
    ensures
        a.window_spec() == b.window_spec(),
        a.words() == b.words(),
        a.palette_words() == b.palette_words(),
        a.globals() == b.globals(),
        forall|c: ChunkCoord| #[trigger] a.resident(c) <==> b.resident(c),
        forall|c: ChunkCoord| #[trigger]
            a.resident(c) ==> b.base_of(c) == a.base_of(c) && b.cap_of(c) == a.cap_of(c),
{
    let (w1, w2) = (a.window_spec(), b.window_spec());
    lemma_one_window(&g, w1.0, w1.1, w2.0, w2.1);
    assert forall|c: ChunkCoord| #[trigger] a.resident(c) <==> b.resident(c) by {
        assert(a.pos_of(c) == b.pos_of(c));
        assert(b.resident(c) <==> g.content(c) && b.pos_of(c) is Some);
    }
    assert forall|c: ChunkCoord| #[trigger] a.resident(c) implies b.base_of(c) == a.base_of(c) && b.cap_of(
        c,
    ) == a.cap_of(c) by {
        lemma_same_block(a, b, g, reserve, c);
    }
    assert forall|w: int| 0 <= w < a.words().len() implies #[trigger] a.words()[w] == b.words()[w] by {
        if a.words()[w] != 0 {
            assert(a.live(w));
            lemma_same_word(a, b, g, reserve, w);
        } else if b.words()[w] != 0 {
            assert(b.live(w));
            lemma_same_word(b, a, g, reserve, w);
        }
    }
    assert(a.words() =~= b.words());
    assert forall|w: int| 0 <= w < PALETTE_WORDS implies #[trigger] a.palette_words()[w]
        == b.palette_words()[w] by {
        assert(b.palette_words()[w] == b.palette_words()[w]);
    }
    assert(a.palette_words() =~= b.palette_words());
    a.lemma_len();
    b.lemma_len();
    assert(a.blocks().dom() =~= b.blocks().dom()) by {
        assert forall|c: ChunkCoord| a.blocks().dom().contains(c) <==> b.blocks().dom().contains(c) by {
            assert(a.resident(c) <==> b.resident(c));
        }
    }
}

/// The descriptors of a snapshot say where each volume's window lies and how large it is, on each of
/// the three axes, which volumes are far ones, how many levels lead from a chunk down to a voxel, and
/// how many chunks have a block, where the builder's count is up to date. The words of two volumes
/// stand apart, the main world's last.
pub proof fn lemma_descriptors(
    a: VolumesBuilder,
    b: VolumesBuilder,
    r: VolumesSnapshot,
    i: int,
    j: int,
)
    requires
        a.wf(),
        totals_ok(a.builders()),
        b.snapped(&a, r),
        0 <= i < a.builders().len(),
        0 <= j < a.builders().len(),
    ensures
        r.grid_descs.len() == a.builders().len(),
        ({
            let d = r.grid_descs@[i];
            let (o, w) = a.builders()[i].window_spec();
            &&& d.index_origin_x == o.x && d.index_dims_x == w.x
            &&& d.index_origin_y == o.y && d.index_dims_y == w.y
            &&& d.index_origin_z == o.z && d.index_dims_z == w.z
            &&& d.grid_flags % 2 == 1 <==> a.far_flags()[i]
            &&& d.grid_flags < 2
            &&& vstd::arithmetic::power::pow(4, d.tree_depth as nat) == CHUNK_SIZE
            &&& a.builders()[i].fresh_globals() ==> d.chunk_count == a.builders()[i].resident_count()
        }),
        ({
            let (d, e) = (r.grid_descs@[i], r.grid_descs@[j]);
            let (m, n) = (a.builders()[i].words().len(), a.builders()[j].words().len());
            &&& 4 * (d.tree_base + m) <= r.struct_total_bytes
            &&& 4 * (d.palette_base + PALETTE_WORDS) <= r.palette_total_bytes
            &&& i != j ==> d.tree_base + m <= e.tree_base || e.tree_base + n <= d.tree_base
            &&& i != j ==> d.palette_base + PALETTE_WORDS <= e.palette_base || e.palette_base
                + PALETTE_WORDS <= d.palette_base
            &&& i == 0 && j > 0 ==> e.tree_base + n <= d.tree_base && e.palette_base + PALETTE_WORDS
                <= d.palette_base
            &&& 0 < i < j ==> d.tree_base + m <= e.tree_base && d.palette_base + PALETTE_WORDS
                <= e.palette_base
        }),
{
    let bs = a.builders();
    a.lemma_wf();
    bs[i].lemma_len();
    lemma_base_bound(bs, i);
    lemma_base_bound(bs, j);
    if i != j {
        lemma_layout_apart(bs, i, j);
        if i == 0 {
            lemma_struct_before(bs, j, bs.len() as int);
        } else if i < j {
            lemma_struct_before(bs, i, j);
        }
    }
    assert(vstd::arithmetic::power::pow(4, 4) == 256) by {
        reveal_with_fuel(vstd::arithmetic::power::pow, 5);
    }
    assert(r.grid_descs@[i].tree_depth == 4);
}

/// The voxel of the tree of its chunk, where the volume has a block for it and the voxel is not air.
pub open spec fn tree_voxel(b: BrickMapBuilder, v: IVec3) -> Option<u16> {
    let t = voxel_in(
        b.tree_of(chunk_of(v)),
        0,
        v.x as int % 256,
        v.y as int % 256,
        v.z as int % 256,
    );
    if b.resident(chunk_of(v)) && t != 0 {
        Some(t)
    } else {
        None
    }
}

/// What a full snapshot uploads reads back through its descriptors: in each volume, each voxel read
/// from the words at the descriptor's place, with the descriptor's own window, is the voxel of the
/// volume's tree where its chunk has a block, and nothing is read elsewhere.
pub proof fn lemma_snapshot_reads_back(
    a: VolumesBuilder,
    b: VolumesBuilder,
    r: VolumesSnapshot,
    i: int,
    v: IVec3,
)
    requires
        a.wf(),
        totals_ok(a.builders()),
        b.snapped(&a, r),
        r.full,
        0 <= i < a.builders().len(),
    ensures
        ({
            let d = r.grid_descs@[i];
            let n = a.builders()[i].words().len();
            let origin = IVec3 { x: d.index_origin_x, y: d.index_origin_y, z: d.index_origin_z };
            let dims = IVec3 {
                x: d.index_dims_x as i32,
                y: d.index_dims_y as i32,
                z: d.index_dims_z as i32,
            };
            &&& d.tree_base + n <= r.b_struct.len()
            &&& voxel_at(
                r.b_struct@.subrange(d.tree_base as int, d.tree_base + n),
                origin,
                dims,
                v,
            ) == tree_voxel(a.builders()[i], v)
        }),
{
    let bs = a.builders();
    let d = r.grid_descs@[i];
    let n = bs[i].words().len();
    a.lemma_wf();
    bs[i].lemma_len();
    lemma_base_bound(bs, i);
    lemma_descriptors(a, b, r, i, i);
    assert(r.b_struct@.subrange(d.tree_base as int, d.tree_base + n) =~= bs[i].words()) by {
        assert forall|w: int| 0 <= w < n implies r.b_struct@[d.tree_base + w]
            == #[trigger] bs[i].words()[w] by {}
    }
    lemma_view_reads_trees(&bs[i], v);
}

/// The palette of each volume reads back from a full snapshot: the eight bytes of entry `e` stand at
/// the descriptor's place, colour and roughness in one word, emission, transmission, flags and metal in
/// the next. The flags are the entry's, and the transmissive one is added where light passes.
pub proof fn lemma_snapshot_palette_reads_back(
    a: VolumesBuilder,
    b: VolumesBuilder,
    r: VolumesSnapshot,
    i: int,
    entries: Seq<PaletteEntry>,
    e: int,
)
    requires
        a.wf(),
        totals_ok(a.builders()),
        b.snapped(&a, r),
        r.full,
        0 <= i < a.builders().len(),
        a.builders()[i].shows_entries(entries),
        0 <= e < PALETTE_ENTRY_COUNT,
    ensures
        ({
            let at = r.grid_descs@[i].palette_base + 2 * e;
            let (w0, w1) = (r.b_palette@[at] as int, r.b_palette@[at + 1] as int);
            let p = entries[e];
            let flags = (w1 / 65536 % 256) as u8;
            &&& at + 1 < r.b_palette.len()
            &&& w0 % 256 == p.color[0]
            &&& w0 / 256 % 256 == p.color[1]
            &&& w0 / 65536 % 256 == p.color[2]
            &&& w0 / 16777216 == p.roughness
            &&& w1 % 256 == p.emissive
            &&& w1 / 256 % 256 == p.transmission
            &&& w1 / 16777216 == p.metallic
            &&& flags | FLAG_TRANSMISSIVE == p.flags.0 | FLAG_TRANSMISSIVE
            &&& flags & FLAG_TRANSMISSIVE != 0 <==> p.flags.0 & FLAG_TRANSMISSIVE != 0 || (p.flags.0
                & FLAG_IS_PBR == 0 && p.transmission > 0)
        }),
{
    let bs = a.builders();
    a.lemma_wf();
    lemma_base_bound(bs, i);
    let d = r.grid_descs@[i];
    let p = entries[e];
    assert(d.palette_base == palette_base_of(bs, i));
    assert(r.b_palette@[palette_base_of(bs, i) + 2 * e] == bs[i].palette_words()[2 * e]);
    assert(r.b_palette@[palette_base_of(bs, i) + (2 * e + 1)] == bs[i].palette_words()[2 * e + 1]);
    lemma_word_bytes(p.color[0], p.color[1], p.color[2], p.roughness);
    lemma_word_bytes(p.emissive, p.transmission, packed_flags(p), p.metallic);
    lemma_packed_flags(p);
}

/// Requests and the index number the chunks of a window alike: the chunk that a request names by the
/// number of an index entry is the chunk of that entry.
pub proof fn lemma_requests_number_like_the_index(origin: IVec3, dims: IVec3, c: IVec3)
    requires
        window_ok(dims),
        crate::requests::window_fits(origin),
        index_pos(origin, dims, c) is Some,
    ensures
        crate::requests::chunk_at(origin, index_pos(origin, dims, c)->0) == c,
{
    let (x, y, z) = (c.x - origin.x, c.y - origin.y, c.z - origin.z);
    lemma_index_entries(origin, dims, c, x, y, z);
    crate::requests::lemma_window_position(origin, x, y, z);
}

/// What is uploaded beside the words shows the main world: its window, on each of the three axes, both
/// in the globals and in the plan, its chunks, and the number of volumes.
pub proof fn lemma_plan_shows_main_world(
    a: VolumesBuilder,
    b: VolumesBuilder,
    r: VolumesSnapshot,
    plan: UploadPlan,
)
    requires
        a.wf(),
        totals_ok(a.builders()),
        b.snapped(&a, r),
        plan_shows(plan, r.grid_descs@),
    ensures
        ({
            let (o, d) = a.builders()[0].window_spec();
            let g = plan.globals;
            &&& g.index_origin_x == o.x && g.index_dims_x == d.x
            &&& g.index_origin_y == o.y && g.index_dims_y == d.y
            &&& g.index_origin_z == o.z && g.index_dims_z == d.z
            &&& plan.window_origin == o
            &&& plan.window_dims.x == d.x && plan.window_dims.y == d.y && plan.window_dims.z == d.z
            &&& g.grid_count == a.builders().len() && plan.grid_count == a.builders().len()
            &&& a.builders()[0].fresh_globals() ==> g.tile_count == a.builders()[0].resident_count()
        }),
{
    lemma_descriptors(a, b, r, 0, 0);
}

/// A dump can be read with what it says of itself alone. Word 2 counts the volumes, whose rows follow
/// the header. A row says how far behind the rows the volume's words stand, and how many they are, and
/// gives its window: each voxel read there is that of the volume's tree, where its chunk has a block.
/// The palettes follow the words of all volumes, the reach table follows the palettes, and words 3, 4
/// and 5 give the lengths of these parts.
pub proof fn lemma_dump_reads_back(w: Seq<u32>, bs: Seq<BrickMapBuilder>, i: int, v: IVec3)
    requires
        is_dump(w, bs),
        totals_ok(bs),
        16 + 16 * bs.len() <= u32::MAX,
        forall|k: int| 0 <= k < bs.len() ==> (#[trigger] bs[k]).wf(),
        0 <= i < bs.len(),
    ensures
        ({
            let head = 16 + 16 * w[2];
            let row = 16 + 16 * i;
            let at = head + w[row];
            let pal = head + w[3] + w[row + 1];
            let lut = head + w[3] + w[4];
            let origin = IVec3 {
                x: w[row + 4] as i32,
                y: w[row + 5] as i32,
                z: w[row + 6] as i32,
            };
            let dims = IVec3 {
                x: w[row + 7] as i32,
                y: w[row + 8] as i32,
                z: w[row + 9] as i32,
            };
            &&& w[2] == bs.len()
            &&& voxel_at(w.subrange(at, at + w[row + 2]), origin, dims, v) == tree_voxel(bs[i], v)
            &&& w.subrange(pal, pal + w[row + 3]) == bs[i].palette_words()
            &&& w.len() == lut + w[5]
            &&& is_reach_table(w.subrange(lut, lut + w[5]))
        }),
{
    let row = 16 + 16 * i;
    let b = bs[i];
    b.lemma_len();
    lemma_base_bound(bs, i);
    lemma_row(w, bs, i);
    let head = 16 + 16 * (bs.len() as int);
    let at = head + tree_base_of(bs, i);
    let pal = head + struct_total(bs) + palette_base_of(bs, i);
    assert(w[2] == bs.len());
    assert(stands_at(w, at, bs[i].words()));
    assert(stands_at(w, pal, bs[i].palette_words()));
    assert(w.subrange(at, at + b.words().len()) =~= b.words());
    assert(w.subrange(pal, pal + PALETTE_WORDS) =~= b.palette_words());
    lemma_view_reads_trees(&b, v);
}

proof fn lemma_row(w: Seq<u32>, bs: Seq<BrickMapBuilder>, i: int)
    requires
        is_dump(w, bs),
        totals_ok(bs),
        16 + 16 * bs.len() <= u32::MAX,
        0 <= i < bs.len(),
        bs[i].wf(),
    ensures
        ({
            let row = 16 + 16 * i;
            let (o, d) = bs[i].window_spec();
            &&& w[2] == bs.len()
            &&& w[3] == struct_total(bs)
            &&& w[4] == bs.len() * PALETTE_WORDS
            &&& w[5] == MARCH_MASK_WORDS
            &&& w[row] == tree_base_of(bs, i)
            &&& w[row + 1] == palette_base_of(bs, i)
            &&& w[row + 2] == bs[i].words().len()
            &&& w[row + 3] == PALETTE_WORDS
            &&& w[row + 4] as i32 == o.x && w[row + 5] as i32 == o.y && w[row + 6] as i32 == o.z
            &&& w[row + 7] as i32 == d.x && w[row + 8] as i32 == d.y && w[row + 9] as i32 == d.z
        }),
{
    let b = bs[i];
    b.lemma_len();
    lemma_base_bound(bs, i);
    assert(forall|k: int| 0 <= k < 16 ==> #[trigger] w[k] == header_word(bs, k));
    assert(forall|k: int|
        0 <= k < 16 ==> w[16 + 16 * i + k] == #[trigger] row_word(bs, i, k));
    assert(w[16 + 16 * i + 0] == row_word(bs, i, 0));
    assert(w[16 + 16 * i + 1] == row_word(bs, i, 1));
    assert(w[16 + 16 * i + 2] == row_word(bs, i, 2));
    assert(w[16 + 16 * i + 3] == row_word(bs, i, 3));
    assert(w[16 + 16 * i + 4] == row_word(bs, i, 4));
    assert(w[16 + 16 * i + 5] == row_word(bs, i, 5));
    assert(w[16 + 16 * i + 6] == row_word(bs, i, 6));
    assert(w[16 + 16 * i + 7] == row_word(bs, i, 7));
    assert(w[16 + 16 * i + 8] == row_word(bs, i, 8));
    assert(w[16 + 16 * i + 9] == row_word(bs, i, 9));
    assert(forall|a: i32| #[trigger] ((a as u32) as i32) == a) by (bit_vector);
}

/// The counts of a dump's rows are those of the volumes, and the header repeats the window and the
/// counts of the main world.
pub proof fn lemma_dump_counts(w: Seq<u32>, bs: Seq<BrickMapBuilder>, i: int)
    requires
        is_dump(w, bs),
        totals_ok(bs),
        0 <= i < bs.len(),
        bs[i].wf(),
        bs[i].fresh_globals(),
    ensures
        ({
            let row = 16 + 16 * i;
            &&& w[row + 10] == bs[i].resident_count()
            &&& w[row + 11] == bs[i].words().len() - TREE_BASE
            &&& w[row + 12] == bs[i].free_total()
            &&& w[row + 13] == bs[i].rejected()
            &&& w[row + 14] == 0 && w[row + 15] == 0
        }),
        forall|k: int| 0 <= k < 10 ==> #[trigger] w[6 + k] == w[20 + k],
        w[0] % 256 == 'V' as u32,
        w[0] / 256 % 256 == 'O' as u32,
        w[0] / 65536 % 256 == 'X' as u32,
        w[0] / 16777216 == 'D' as u32,
{
    assert(forall|k: int| 0 <= k < 16 ==> #[trigger] w[k] == header_word(bs, k));
    assert(forall|k: int|
        0 <= k < 16 ==> w[16 + 16 * i + k] == #[trigger] row_word(bs, i, k));
    assert(w[16 + 16 * i + 10] == row_word(bs, i, 10));
    assert(w[16 + 16 * i + 11] == row_word(bs, i, 11));
    assert(w[16 + 16 * i + 12] == row_word(bs, i, 12));
    assert(w[16 + 16 * i + 13] == row_word(bs, i, 13));
    assert(w[16 + 16 * i + 14] == row_word(bs, i, 14));
    assert(w[16 + 16 * i + 15] == row_word(bs, i, 15));
    assert forall|k: int| 0 <= k < 10 implies #[trigger] w[6 + k] == w[20 + k] by {
        assert(w[16 + 16 * 0 + (4 + k)] == row_word(bs, 0, 4 + k));
        assert(w[6 + k] == header_word(bs, 6 + k));
    }
}

/// A window that moves takes nothing from the chunks that it keeps: each voxel whose chunk the new
/// window reaches reads as before, and nothing is read outside it.
pub proof fn lemma_window_keeps_voxels(a: BrickMapBuilder, b: BrickMapBuilder, o: IVec3, d: IVec3, v: IVec3)
    requires
        a.wf(),
        window_step(a, b, Some((o, d))),
    ensures
        b.window_spec() == (o, d),
        voxel_at(b.words(), o, d, v) == (if index_pos(o, d, chunk_of(v).0) is Some {
            tree_voxel(a, v)
        } else {
            None
        }),
{
    lemma_view_reads_trees(&b, v);
    let c = chunk_of(v);
    assert(b.resident(c) <==> a.resident(c) && index_pos(o, d, c.0) is Some);
}

/// A full upload counts the bytes of everything.
pub proof fn lemma_full_plan_weighs_everything(
    a: VolumesBuilder,
    b: VolumesBuilder,
    r: VolumesSnapshot,
    plan: UploadPlan,
)
    requires
        b.snapped(&a, r),
        plan_weighs(plan, r),
        r.full,
    ensures
        plan.is_full,
        plan.struct_tx_bytes == r.struct_total_bytes,
        plan.palette_tx_bytes == r.palette_total_bytes,
        plan.grid_descs_tx_bytes == 144 * a.builders().len(),
{
}

/// Whatever is marked awaits its upload, and where nothing awaits one, a snapshot that is not full has
/// nothing to upload.
pub proof fn lemma_marks_await_upload(
    a: VolumesBuilder,
    b: VolumesBuilder,
    r: VolumesSnapshot,
    i: int,
    w: int,
)
    requires
        a.wf(),
        b.snapped(&a, r),
        0 <= i < a.builders().len(),
    ensures
        a.builders()[i].dirty_word(w) ==> a.awaits_upload(),
        a.builders()[i].dirty_entries() is Some ==> a.awaits_upload(),
        !a.awaits_upload() && !r.full ==> r.struct_blobs.len() == 0 && r.palette_blobs.len() == 0,
        !b.awaits_upload(),
{
    let bs = a.builders();
    assert(bs[i].dirty_list().len() > 0 || bs[i].dirty_list().len() == 0);
    if !a.awaits_upload() {
        lemma_no_marks(bs, bs.len() as int);
    }
    if b.awaits_upload() {
        let k = choose|k: int|
            0 <= k < b.builders().len() && ((#[trigger] b.builders()[k]).dirty_list().len() > 0
                || b.builders()[k].dirty_entries() is Some);
        assert(taken(bs[k], b.builders()[k]));
    }
}

/// The first snapshot after a full build uploads the world: it is full, and in each volume, each voxel
/// read from the words at the descriptor's place, with the descriptor's own window, is the volume's
/// voxel, where it is not air and the window reaches its chunk. The flags tell the far volumes.
pub proof fn lemma_full_build_uploads_the_world(
    a: VolumesBuilder,
    b: VolumesBuilder,
    r: VolumesSnapshot,
    volumes: Seq<VolumeGrid>,
    i: int,
    v: IVec3,
)
    requires
        a.all_built(volumes),
        totals_ok(a.builders()),
        b.snapped(&a, r),
        0 <= i < volumes.len(),
        volumes[i].wf(),
    ensures
        r.full,
        r.grid_descs.len() == volumes.len(),
        ({
            let d = r.grid_descs@[i];
            let n = a.builders()[i].words().len();
            let origin = IVec3 { x: d.index_origin_x, y: d.index_origin_y, z: d.index_origin_z };
            let dims = IVec3 {
                x: d.index_dims_x as i32,
                y: d.index_dims_y as i32,
                z: d.index_dims_z as i32,
            };
            &&& voxel_at(
                r.b_struct@.subrange(d.tree_base as int, d.tree_base + n),
                origin,
                dims,
                v,
            ) == (if index_pos(origin, dims, chunk_of(v).0) is Some && volume_voxel(volumes[i], v) != 0 {
                Some(volume_voxel(volumes[i], v))
            } else {
                None
            })
            &&& d.grid_flags % 2 == 1 <==> volumes[i].far
        }),
{
    let bi = a.builders()[i];
    assert(built_from(bi, volumes[i], super::volumes::reserve_words(volumes[i].far)));
    lemma_build_mirrors(bi, volumes[i], super::volumes::reserve_words(volumes[i].far));
    lemma_snapshot_reads_back(a, b, r, i, v);
    lemma_descriptors(a, b, r, i, i);
    lemma_view_reads_trees(&bi, v);
    lemma_view_reads_volume(bi, volumes[i], v);
}

/// An extraction that builds everything uploads the world: its snapshot is full, and in each volume,
/// each voxel read from the words at the descriptor's place, with the descriptor's own window, is the
/// volume's voxel, where it is not air and the window reaches its chunk.
pub proof fn lemma_full_extraction_uploads_the_world(
    end: VolumesBuilder,
    g0: Seq<VolumeGrid>,
    g2: Seq<VolumeGrid>,
    snap: VolumesSnapshot,
    quiet: bool,
    i: int,
    v: IVec3,
)
    requires
        rebuilt(end, g0, g2, snap, quiet),
        forall|k: int| 0 <= k < g0.len() ==> (#[trigger] g0[k]).wf(),
        0 <= i < g0.len(),
        snap.struct_total_bytes < 4 * u32::MAX,
        snap.palette_total_bytes < 4 * u32::MAX,
    ensures
        snap.full,
        snap.grid_descs.len() == g0.len(),
        ({
            let d = snap.grid_descs@[i];
            let n = end.builders()[i].words().len();
            let origin = IVec3 { x: d.index_origin_x, y: d.index_origin_y, z: d.index_origin_z };
            let dims = IVec3 {
                x: d.index_dims_x as i32,
                y: d.index_dims_y as i32,
                z: d.index_dims_z as i32,
            };
            voxel_at(
                snap.b_struct@.subrange(d.tree_base as int, d.tree_base + n),
                origin,
                dims,
                v,
            ) == (if index_pos(origin, dims, chunk_of(v).0) is Some && volume_voxel(g0[i], v) != 0 {
                Some(volume_voxel(g0[i], v))
            } else {
                None
            })
        }),
{
    let (b1, g1, b2) = choose|b1: VolumesBuilder, g1: Seq<VolumeGrid>, b2: VolumesBuilder|
        #![trigger b1.all_built(g0), volumes_kept(g0, g1, 0), end.snapped(&b2, snap)]
        {
            &&& b1.all_built(g0)
            &&& volumes_kept(g0, g1, 0)
            &&& b2.same_state(&b1)
            &&& batch_done(b1.builders(), b2.builders(), g1, g2, Seq::empty(), quiet)
            &&& end.snapped(&b2, snap)
        };
    let none = Seq::<PendingEdit>::empty();
    let (x, y) = (b1.builders()[i], b2.builders()[i]);
    b1.lemma_wf();
    let reserve = super::volumes::reserve_words(g0[i].far);
    assert(built_from(x, g0[i], reserve));
    lemma_build_mirrors(x, g0[i], reserve);
    assert(volume_after(x, y, g1[i], g2[i], none, i, 0, quiet));
    assert(trees_after(x, y, g1[i], none, i, 0));
    assert forall|c: ChunkCoord| y.pos_of(c) is Some implies (#[trigger] y.resident(c)
        <==> g0[i].content(c)) && (y.resident(c) ==> y.tree_of(c) == g0[i].chunks.at(c).model()) by {
        assert(!edited(none, 0, i, c));
        assert(y.resident(c) <==> x.resident(c));
        assert(x.pos_of(c) is Some);
    }
    assert(mirrors(y, g0[i]));
    assert(y.wf());
    lemma_view_reads_volume(y, g0[i], v);
    lemma_view_reads_trees(&y, v);
    lemma_parts_wf(b1, b2, g1, g2, quiet);
    assert(taken(b2.builders()[i], end.builders()[i]));
    lemma_reads_back(b2, end, snap, i, v);
}

/// What a batch without edits leaves of well-formed builders is well-formed.
proof fn lemma_parts_wf(
    b1: VolumesBuilder,
    b2: VolumesBuilder,
    g1: Seq<VolumeGrid>,
    g2: Seq<VolumeGrid>,
    quiet: bool,
)
    requires
        b1.wf(),
        b1.builders().len() <= g1.len(),
        batch_done(b1.builders(), b2.builders(), g1, g2, Seq::empty(), quiet),
    ensures
        forall|k: int| 0 <= k < b2.builders().len() ==> (#[trigger] b2.builders()[k]).wf(),
{
    assert forall|k: int| 0 <= k < b2.builders().len() implies (#[trigger] b2.builders()[k]).wf() by {
        assert(volume_after(
            b1.builders()[k],
            b2.builders()[k],
            g1[k],
            g2[k],
            Seq::empty(),
            k,
            0,
            quiet,
        ));
    }
}

/// Reading a full snapshot of well-formed builders back, volume by volume.
proof fn lemma_reads_back(a: VolumesBuilder, b: VolumesBuilder, r: VolumesSnapshot, i: int, v: IVec3)
    requires
        forall|k: int| 0 <= k < a.builders().len() ==> (#[trigger] a.builders()[k]).wf(),
        totals_ok(a.builders()),
        b.snapped(&a, r),
        r.full,
        0 <= i < a.builders().len(),
    ensures
        ({
            let d = r.grid_descs@[i];
            let (o, w) = a.builders()[i].window_spec();
            let n = a.builders()[i].words().len();
            &&& d.index_origin_x == o.x && d.index_dims_x == w.x
            &&& d.index_origin_y == o.y && d.index_dims_y == w.y
            &&& d.index_origin_z == o.z && d.index_dims_z == w.z
            &&& window_ok(w)
            &&& r.b_struct@.subrange(d.tree_base as int, d.tree_base + n) == a.builders()[i].words()
        }),
{
    let bs = a.builders();
    let d = r.grid_descs@[i];
    let n = bs[i].words().len();
    assert(bs[i].wf());
    bs[i].lemma_len();
    lemma_base_bound(bs, i);
    assert forall|w: int| 0 <= w < n implies r.b_struct@[d.tree_base + w]
        == #[trigger] bs[i].words()[w] by {}
    assert(r.b_struct@.subrange(d.tree_base as int, d.tree_base + n) =~= bs[i].words());
}

/// No edit of the list is about chunk `c` of volume `v`.
pub open spec fn no_edit(edits: Seq<PendingEdit>, v: int, c: ChunkCoord) -> bool {
    forall|k: int| 0 <= k < edits.len() && (#[trigger] edits[k]).volume == v ==> edits[k].chunk != c
}

/// An extraction of edits brings the words up to date: where they showed every chunk of a volume that
/// no edit is about, they show all of it afterwards. Each voxel read from them is the volume's, where
/// it is not air and the window reaches its chunk; the window stays.
pub proof fn lemma_extraction_takes_edits_up(
    start: VolumesBuilder,
    end: VolumesBuilder,
    g0: Seq<VolumeGrid>,
    g2: Seq<VolumeGrid>,
    edits: Seq<PendingEdit>,
    snap: VolumesSnapshot,
    quiet: bool,
    i: int,
    v: IVec3,
)
    requires
        stepped(start, end, g0, g2, edits, snap, quiet),
        0 <= i < g0.len(),
        i < start.builders().len(),
        g0[i].wf(),
        forall|c: ChunkCoord| #[trigger]
            no_edit(edits, i, c) && start.builders()[i].pos_of(c) is Some ==> (
            start.builders()[i].resident(c) <==> g0[i].content(c)) && (start.builders()[i].resident(c)
                ==> start.builders()[i].tree_of(c) == g0[i].chunks.at(c).model()),
    ensures
        end.builders()[i].window_spec() == start.builders()[i].window_spec(),
        ({
            let (o, d) = start.builders()[i].window_spec();
            voxel_at(end.builders()[i].words(), o, d, v) == (if index_pos(o, d, chunk_of(v).0) is Some
                && volume_voxel(g0[i], v) != 0 {
                Some(volume_voxel(g0[i], v))
            } else {
                None
            })
        }),
{
    let n0 = start.builders().len() as int;
    let (b1, g1, b2) = choose|b1: VolumesBuilder, g1: Seq<VolumeGrid>, b2: VolumesBuilder|
        #![trigger b1.caught_up(&start, g0), volumes_kept(g0, g1, n0), end.snapped(&b2, snap)]
        {
            &&& b1.caught_up(&start, g0)
            &&& volumes_kept(g0, g1, n0)
            &&& b2.same_state(&b1)
            &&& batch_done(b1.builders(), b2.builders(), g1, g2, edits, quiet)
            &&& end.snapped(&b2, snap)
        };
    let (x, y) = (start.builders()[i], b2.builders()[i]);
    let n = edits.len() as int;
    assert(b1.builders()[i] == x);
    assert(g1[i] == g0[i]);
    assert(volume_after(x, y, g0[i], g2[i], edits, i, n, quiet));
    assert(trees_after(x, y, g0[i], edits, i, n));
    assert forall|c: ChunkCoord| y.pos_of(c) is Some implies (#[trigger] y.resident(c)
        <==> g0[i].content(c)) && (y.resident(c) ==> y.tree_of(c) == g0[i].chunks.at(c).model()) by {
        assert(x.pos_of(c) is Some);
        if !edited(edits, n, i, c) {
            assert forall|k: int| 0 <= k < edits.len() && (#[trigger] edits[k]).volume == i implies edits[k].chunk
                != c by {}
            assert(no_edit(edits, i, c));
            assert(y.resident(c) <==> x.resident(c));
        }
    }
    assert(mirrors(y, g0[i]));
    lemma_view_reads_volume(y, g0[i], v);
    assert(taken(b2.builders()[i], end.builders()[i]));
}

/// What an update says of itself: the chunk lies outside the window, or it has a block now, or it had
/// one and has none now, or it neither had nor has one. Other chunks keep theirs or stay without.
pub proof fn lemma_update_outcome(
    a: BrickMapBuilder,
    b: BrickMapBuilder,
    g0: VolumeGrid,
    g1: VolumeGrid,
    coord: ChunkCoord,
    dirty: TreeDirty,
    quiet: bool,
    out: ChunkUpdate,
    c: ChunkCoord,
)
    requires
        a.wf(),
        updated(a, b, g0, g1, coord, dirty, quiet, out),
    ensures
        out is OutsideWindow <==> index_pos(a.window_spec().0, a.window_spec().1, coord.0) is None,
        out is OutsideWindow ==> b == a,
        out is Rebuilt ==> b.resident(coord) && b.tree_of(coord) == g0.chunks.at(coord).model(),
        out is Released ==> a.resident(coord) && !b.resident(coord),
        out is Unchanged ==> !a.resident(coord) && !b.resident(coord),
        c != coord ==> (b.resident(c) <==> a.resident(c)),
        b.window_spec() == a.window_spec(),
{
}

} // verus!
