//! From voxel volumes to the words that the shaders read.
//!
//! A [`BrickMapBuilder`] keeps one volume: a dense index of chunk windows, then one block per
//! rendered chunk. Blocks come from a first-fit table of free segments. Edits rewrite only the nodes
//! that they touch; blocks grow by moving as a whole; when more than half of the tree region is free
//! it is compacted.

use super::arena::{
    entries_done, entry_done, fits, free_set, freed_below, no_fit, padded, put_at, span, Arena,
};
use super::batch::{edit_ok, used_ids, Batch};
use super::block::{
    below, free_children, lemma_block_frame, lemma_block_moved, minus_children, subtree_held,
    ChunkSlot,
};
use super::coord_map::CoordMap;
use super::dirty::{clip_words, dirty_has, dirty_ok, mark_words};
use super::free_runs::FreeRuns;
use super::grid::{chunk_has_content, window_ok, Palette, TreeDirty, VolumeGrid};
use super::tree::{
    apart, content_len, copy_words, encode_node, in_slot, is_child, is_content, lemma_room_bound,
    lemma_rooms_nonneg, node_at, room, store, tree_wf, wire_word, wire_words_of, ChunkTree, NodeSlot,
    TreeModel, TreeNode, NODE_NONE, ROOT_WIRE_WORDS,
};
use super::wire::{
    globals_for, new_globals, pack_palette_entry, packed_flags, word_of, BrickMapBuffers,
    BrickMapGlobals, PaletteEntry, PALETTE_INDEX_MAX, PALETTE_WORDS, TREE_BASE,
};
use crate::math::{lex_less, ChunkCoord, IVec3};
use crate::sort::{lemma_same_distinct, lemma_same_items, ordered, sorted, Ranked};
use vstd::prelude::*;

verus! {

/// Where chunk `c` stands in the dense index of a window; `None` outside the window.
pub open spec fn index_pos(origin: IVec3, dims: IVec3, c: IVec3) -> Option<int> {
    let (x, y, z) = (c.x - origin.x, c.y - origin.y, c.z - origin.z);
    if 0 <= x < dims.x && 0 <= y < dims.y && 0 <= z < dims.z {
        Some(x + y * 64 + z * 4096)
    } else {
        None
    }
}

/// Different chunks of a window stand at different places of the index.
pub proof fn lemma_index_pos(origin: IVec3, dims: IVec3, a: IVec3, b: IVec3)
    requires
        window_ok(dims),
    ensures
        index_pos(origin, dims, a) is Some ==> 0 <= index_pos(origin, dims, a)->0 < TREE_BASE,
        index_pos(origin, dims, a) is Some && index_pos(origin, dims, a) == index_pos(origin, dims, b)
            ==> a == b,
{
}

/// Linear place of a chunk in the dense index; `None` outside the window.
pub fn chunk_index_pos(origin: IVec3, dims: IVec3, chunk: IVec3) -> (r: Option<usize>)
    requires
        window_ok(dims),
    ensures
        match r {
            Some(p) => index_pos(origin, dims, chunk) == Some(p as int) && p < TREE_BASE,
            None => index_pos(origin, dims, chunk) is None,
        },
{
    let x: i64 = chunk.x as i64 - origin.x as i64;
    let y: i64 = chunk.y as i64 - origin.y as i64;
    let z: i64 = chunk.z as i64 - origin.z as i64;
    if x < 0 || y < 0 || z < 0 || x >= dims.x as i64 || y >= dims.y as i64 || z >= dims.z as i64 {
        None
    } else {
        Some((x + y * 64 + z * 4096) as usize)
    }
}

/// `out` stands at `buf[at..]`.
fn reads_as(buf: &Vec<u32>, at: usize, out: &Vec<u32>) -> (r: bool)
    requires
        at + out.len() <= buf.len(),
    ensures
        r <==> forall|i: int| 0 <= i < out.len() ==> buf@[at + i] == #[trigger] out@[i],
{
    let mut i: usize = 0;
    while i < out.len()
        invariant
            i <= out.len(),
            at + out.len() <= buf.len(),
            forall|j: int| 0 <= j < i ==> buf@[at + j] == #[trigger] out@[j],
        decreases out.len() - i,
    {
        if buf[at + i] != out[i] {
            return false;
        }
        i += 1;
    }
    true
}

/// Words that block addresses and byte offsets can reach.
pub open spec fn len_ok(n: int) -> bool {
    n < u32::MAX && 4 * n <= usize::MAX
}

/// First word and number of words of each block.
pub type Regions = Map<ChunkCoord, (int, int)>;

pub open spec fn in_region(r: (int, int), w: int) -> bool {
    r.0 <= w < r.0 + r.1
}

pub open spec fn regions_apart(a: (int, int), b: (int, int)) -> bool {
    a.0 + a.1 <= b.0 || b.0 + b.1 <= a.0
}

/// Words of all blocks.
pub open spec fn caps(items: Seq<(ChunkCoord, ChunkSlot)>) -> int
    decreases items.len(),
{
    if items.len() == 0 {
        0
    } else {
        caps(items.drop_last()) + items.last().1.cap
    }
}

proof fn lemma_caps_split(s: Seq<(ChunkCoord, ChunkSlot)>, i: int)
    requires
        0 <= i <= s.len(),
    ensures
        caps(s) == caps(s.subrange(0, i)) + caps(s.subrange(i, s.len() as int)),
        caps(s) >= 0,
    decreases s.len(), s.len() - i,
{
    if s.len() > 0 {
        lemma_caps_split(s.drop_last(), if i < s.len() { i } else { 0 });
    }
    if i == s.len() {
        assert(s.subrange(0, i) =~= s);
    } else {
        assert(s.drop_last().subrange(0, i) =~= s.subrange(0, i));
        assert(s.drop_last().subrange(i, s.len() - 1) =~= s.subrange(i, s.len() as int).drop_last());
    }
}

proof fn lemma_caps_remove(s: Seq<(ChunkCoord, ChunkSlot)>, i: int)
    requires
        0 <= i < s.len(),
    ensures
        caps(s.remove(i)) == caps(s) - s[i].1.cap,
{
    lemma_caps_split(s, i);
    let t = s.subrange(i, s.len() as int);
    lemma_caps_split(t, 1);
    let u = t.subrange(0, 1);
    assert(u.last() == s[i]);
    assert(u.drop_last().len() == 0);
    assert(caps(u) == caps(u.drop_last()) + u.last().1.cap);
    assert(caps(u.drop_last()) == 0);
    let r = s.remove(i);
    lemma_caps_split(r, i);
    assert(r.subrange(0, i) =~= s.subrange(0, i));
    assert(r.subrange(i, r.len() as int) =~= t.subrange(1, t.len() as int));
}

proof fn lemma_caps_insert(s: Seq<(ChunkCoord, ChunkSlot)>, i: int, e: (ChunkCoord, ChunkSlot))
    requires
        0 <= i <= s.len(),
    ensures
        caps(s.insert(i, e)) == caps(s) + e.1.cap,
{
    let t = s.insert(i, e);
    lemma_caps_remove(t, i);
    assert(t.remove(i) =~= s);
}

proof fn lemma_caps_equal(a: Seq<(ChunkCoord, ChunkSlot)>, b: Seq<(ChunkCoord, ChunkSlot)>)
    requires
        a.len() == b.len(),
        forall|j: int| 0 <= j < a.len() ==> (#[trigger] a[j]).1.cap == b[j].1.cap,
    ensures
        caps(a) == caps(b),
    decreases a.len(),
{
    if a.len() > 0 {
        lemma_caps_equal(a.drop_last(), b.drop_last());
    }
}

proof fn lemma_caps_lower(s: Seq<(ChunkCoord, ChunkSlot)>)
    requires
        forall|i: int| 0 <= i < s.len() ==> (#[trigger] s[i]).1.cap >= 67,
    ensures
        caps(s) >= 67 * s.len(),
    decreases s.len(),
{
    if s.len() > 0 {
        lemma_caps_lower(s.drop_last());
    }
}

/// What an update did to a chunk.
#[derive(Debug, Clone, Copy, PartialEq, Eq, Structural)]
pub enum ChunkUpdate {
    /// The block now holds the chunk's tree.
    Rebuilt,
    /// The chunk has no content any more; its block was given back.
    Released,
    /// Inside the window, without content, and without a block before.
    Unchanged,
    /// Outside the window: not rendered.
    OutsideWindow,
}

/// Ranges that await an upload.
#[derive(Debug, Clone)]
pub struct DirtyRanges {
    /// Byte ranges of `b_struct`.
    pub struct_ranges: Vec<(usize, usize)>,
    /// First and last palette entry.
    pub palette_range: Option<(u16, u16)>,
}

/// What a block is and holds.
pub struct BlockModel {
    pub base: int,
    pub cap: int,
    pub tree: TreeModel,
    pub slots: Seq<NodeSlot>,
    /// Free pieces, relative to `base`.
    pub free: FreeRuns,
}

/// One volume's words and where its chunks stand in them.
pub struct BrickMapBuilder {
    buffers: BrickMapBuffers,
    chunks: CoordMap<ChunkSlot>,
    origin: IVec3,
    dims: IVec3,
    rejected_chunks: u32,
    free: FreeRuns,
    dirty_struct: Vec<(usize, usize)>,
    dirty_palette: Option<(u16, u16)>,
    palette_synced_at: Option<u64>,
    reserve: usize,
}

/// A block and where its chunk stands among the entries.
#[derive(Clone, Copy)]
struct BlockRef {
    base: usize,
    cap: usize,
    at: usize,
}

impl Ranked for BlockRef {
    closed spec fn before(self, o: Self) -> bool {
        self.base < o.base
    }

    fn is_before(&self, o: &Self) -> (r: bool) {
        self.base < o.base
    }

    proof fn law(a: Self, b: Self, c: Self) {
    }
}

/// Entry `j` is among the listed blocks.
spec fn lists(order: Seq<BlockRef>, j: int) -> bool {
    exists|p: int| 0 <= p < order.len() && (#[trigger] order[p]).at == j
}

/// Words of all listed blocks.
spec fn ref_caps(s: Seq<BlockRef>) -> int
    decreases s.len(),
{
    if s.len() == 0 {
        0
    } else {
        ref_caps(s.drop_last()) + s.last().cap
    }
}

proof fn lemma_ref_caps_remove(s: Seq<BlockRef>, i: int)
    requires
        0 <= i < s.len(),
    ensures
        ref_caps(s.remove(i)) == ref_caps(s) - s[i].cap,
    decreases s.len(),
{
    if i == s.len() - 1 {
        assert(s.remove(i) =~= s.drop_last());
    } else {
        lemma_ref_caps_remove(s.drop_last(), i);
        assert(s.remove(i).drop_last() =~= s.drop_last().remove(i));
        assert(s.remove(i).last() == s.last());
    }
}

/// The sum does not depend on the order.
proof fn lemma_ref_caps_same(a: Seq<BlockRef>, b: Seq<BlockRef>)
    requires
        a.to_multiset() == b.to_multiset(),
    ensures
        ref_caps(a) == ref_caps(b),
    decreases a.len(),
{
    broadcast use vstd::seq_lib::group_to_multiset_ensures;

    lemma_same_items(a, b);
    if a.len() > 0 {
        let x = a.last();
        assert(a.contains(x)) by {
            assert(a[a.len() - 1] == x);
        }
        assert(b.contains(x));
        let j = choose|j: int| 0 <= j < b.len() && b[j] == x;
        assert(a.remove(a.len() - 1) =~= a.drop_last());
        assert(a.drop_last().to_multiset() =~= b.remove(j).to_multiset());
        lemma_ref_caps_same(a.drop_last(), b.remove(j));
        lemma_ref_caps_remove(b, j);
    }
}

/// Word `h` (0 or 1) of a packed palette entry.
pub open spec fn entry_word(e: PaletteEntry, h: int) -> int {
    if h == 0 {
        word_of(e.color[0], e.color[1], e.color[2], e.roughness)
    } else {
        word_of(e.emissive, e.transmission, packed_flags(e), e.metallic)
    }
}

/// Palette entries to write: those reported, or all of them at the first sync, without a report, and
/// when the report was taken by someone else after the last sync.
pub open spec fn palette_span(synced_at: Option<u64>, p: Palette) -> (u16, u16) {
    if synced_at is Some && p.since <= synced_at->0 && p.dirty is Some {
        p.dirty->0
    } else {
        (0, PALETTE_INDEX_MAX)
    }
}

/// The range that covers both.
pub open spec fn span_union(a: Option<(u16, u16)>, b: (u16, u16)) -> (u16, u16) {
    match a {
        None => b,
        Some(d) => (if d.0 < b.0 { d.0 } else { b.0 }, if d.1 > b.1 { d.1 } else { b.1 }),
    }
}

/// Words given to a chunk whose wire form has `need` words: a quarter more, and room for a node.
pub open spec fn block_words(need: int) -> int {
    need + need / 4 + 83
}

/// Words of a block that grows out of `cap` words.
pub open spec fn grown(cap: int) -> int {
    cap + cap / 2 + 68
}

/// Words that working off `k` reported nodes of a block of `cap` words can come to, when `len` words
/// are there and the whole tree has `wire` words.
pub open spec fn edit_budget(len: int, cap: int, k: int, wire: int) -> int {
    len + 9 * cap + 1400 * k + 1200 + block_words(wire)
}

/// The last `n` words of a block of `cap` words are free.
pub open spec fn tail_free(free: FreeRuns, cap: int, n: int) -> bool {
    forall|w: int| cap - n <= w < cap ==> #[trigger] free.has(w)
}

/// `at` is where `n` words are taken: the first free segment that has them, or else the end of the
/// `len` words.
pub open spec fn first_place(free: FreeRuns, len: int, n: int, at: int) -> bool {
    if exists|t: int| free.fits_at(t, n) {
        free.fits_at(at, n) && forall|t: int| t < at ==> !free.fits_at(t, n)
    } else {
        at == len
    }
}

/// Where the first `n` chunks of a volume leave room when they are installed one by one: the next word
/// of the reserve, and the end of the words.
pub open spec fn filled(g: &VolumeGrid, origin: IVec3, dims: IVec3, reserve: int, n: nat) -> (int, int)
    decreases n,
{
    if n == 0 {
        (TREE_BASE as int, TREE_BASE + reserve)
    } else {
        let (next, end) = filled(g, origin, dims, reserve, (n - 1) as nat);
        let (c, tree) = g.chunks.items()[n - 1];
        let cap = block_words(tree.wire_len());
        if tree.is_air() || index_pos(origin, dims, c.0) is None {
            (next, end)
        } else if next + cap <= TREE_BASE + reserve {
            (next + cap, end)
        } else {
            (next, end + cap)
        }
    }
}

/// First word of the block of chunk number `i` of a volume: in the reserve where it fits, or else at
/// the end of the words.
pub open spec fn fill_place(g: &VolumeGrid, origin: IVec3, dims: IVec3, reserve: int, i: int) -> int {
    let (next, end) = filled(g, origin, dims, reserve, i as nat);
    if next + block_words(g.chunks.items()[i].1.wire_len()) <= TREE_BASE + reserve {
        next
    } else {
        end
    }
}

/// With one free segment, a block goes to its start or to the end.
proof fn lemma_one_segment(free: FreeRuns, next: int, top: int, len: int, cap: int, at: int)
    requires
        forall|w: int| #[trigger] free.has(w) <==> next <= w < top,
        0 < cap,
        first_place(free, len, cap, at),
    ensures
        at == (if next + cap <= top {
            next
        } else {
            len
        }),
{
    if next + cap <= top {
        assert(free.has(next));
        assert(free.fits_at(next, cap));
        assert(free.has(at) && !free.has(at - 1));
    } else if exists|t: int| free.fits_at(t, cap) {
        assert(free.has(at) && !free.has(at - 1));
        assert(free.has(at + cap - 1));
    }
}

/// Pieces that fit are the same in the table and in its set of words.
proof fn lemma_fits_same(free: FreeRuns, n: int)
    ensures
        forall|t: int| #[trigger] free.fits_at(t, n) <==> fits(free_set(free), t, n),
        no_fit(free_set(free), n) <==> forall|t: int| !#[trigger] free.fits_at(t, n),
{
    assert forall|t: int| #[trigger] free.fits_at(t, n) <==> fits(free_set(free), t, n) by {
        if free.fits_at(t, n) {
            assert forall|w: int| t <= w < t + n implies free_set(free).contains(w) by {}
        }
        if fits(free_set(free), t, n) {
            assert forall|w: int| t <= w < t + n implies free.has(w) by {
                assert(free_set(free).contains(w));
            }
        }
    }
    if no_fit(free_set(free), n) {
        assert forall|t: int| !#[trigger] free.fits_at(t, n) by {
            assert(!fits(free_set(free), t, n));
        }
    }
    if forall|t: int| !#[trigger] free.fits_at(t, n) {
        assert forall|t: int| !fits(free_set(free), t, n) by {
            assert(!free.fits_at(t, n));
        }
    }
}

/// The first place is the first fit, or the end.
proof fn lemma_put_at(free: FreeRuns, len: int, n: int, at: int, len2: int)
    requires
        first_place(free, len, n, at),
        len2 == len + (if exists|t: int| free.fits_at(t, n) {
            0
        } else {
            n
        }),
    ensures
        put_at(free_set(free), len, n, at, len2),
{
    lemma_fits_same(free, n);
    if no_fit(free_set(free), n) {
        if exists|t: int| free.fits_at(t, n) {
            let t = choose|t: int| free.fits_at(t, n);
            assert(!free.fits_at(t, n));
        }
    } else {
        let t = choose|t: int| fits(free_set(free), t, n);
        assert(free.fits_at(t, n));
        assert forall|u: int| u < at implies !fits(free_set(free), u, n) by {
            assert(!free.fits_at(u, n));
        }
    }
}

/// Every reported node is in the tree.
pub open spec fn all_present(t: TreeModel, nodes: Seq<(u8, u32)>) -> bool {
    forall|i: int| 0 <= i < nodes.len() ==> t.dom().contains((#[trigger] nodes[i]).1)
}

/// Word `w` is content of node `id` of tree `t`, which stands in block `s`.
spec fn node_place(s: ChunkSlot, t: TreeModel, id: u32, w: int) -> bool {
    s.base + s.nodes@[id as int].off <= w < s.base + s.nodes@[id as int].off + content_len(t[id])
}

/// A report after which a block is installed anew: the ids were reset, or it names a node that is not
/// in the tree.
pub open spec fn anew(dirty: &TreeDirty, tree: &ChunkTree) -> bool {
    dirty.reset || !all_present(tree.model(), dirty.nodes@)
}

/// Node `x` does not stand in block `s` as it stood in the block at `base0`: it is new, has another
/// place or length, or reads otherwise.
spec fn renewed(
    b0: Seq<u32>,
    base0: int,
    slots0: Seq<NodeSlot>,
    t0: TreeModel,
    b: Seq<u32>,
    s: ChunkSlot,
    t1: TreeModel,
    x: u32,
) -> bool {
    !(t0.dom().contains(x) && s.nodes@[x as int].off == slots0[x as int].off && content_len(t0[x])
        == content_len(t1[x]) && forall|j: int|
        0 <= j < content_len(t1[x]) ==> #[trigger] b[s.base + s.nodes@[x as int].off + j] == b0[base0
            + slots0[x as int].off + j])
}

/// From words `b0` with marks `d0` to words `b` with marks `d`, word `w` was written or marked.
spec fn touched(b0: Seq<u32>, d0: Seq<(usize, usize)>, b: Seq<u32>, d: Seq<(usize, usize)>, w: int) -> bool {
    (dirty_has(d, w) && !dirty_has(d0, w)) || (0 <= w < b0.len() && b[w] != b0[w])
}

/// Every reported node was there before and needs no more words than it had.
pub open spec fn fits_in_place(t0: TreeModel, t1: TreeModel, nodes: Seq<(u8, u32)>) -> bool {
    forall|i: int|
        0 <= i < nodes.len() ==> t0.dom().contains((#[trigger] nodes[i]).1) && t1.dom().contains(
            nodes[i].1,
        ) && room(nodes[i].1, t1[nodes[i].1]) <= room(nodes[i].1, t0[nodes[i].1])
}

/// A free tail of at least `words` words has a segment that fits.
proof fn lemma_tail_fits(free: FreeRuns, cap: int, n: int, words: int)
    requires
        free.wf(),
        0 < words <= n,
        tail_free(free, cap, n),
        forall|w: int| #[trigger] free.has(w) ==> 0 <= w < cap,
    ensures
        exists|t: int| free.fits_at(t, words),
{
    let s = lemma_run_start(free, cap - n);
    assert forall|w: int| s <= w < s + words implies free.has(w) by {
        if w >= cap - n {
            assert(free.has(w));
        }
    }
    assert(free.fits_at(s, words));
}

/// The segment that holds word `w` starts somewhere.
proof fn lemma_run_start(free: FreeRuns, w: int) -> (s: int)
    requires
        free.has(w),
        forall|v: int| #[trigger] free.has(v) ==> 0 <= v,
    ensures
        s <= w,
        free.has(s),
        !free.has(s - 1),
        forall|v: int| s <= v <= w ==> #[trigger] free.has(v),
    decreases w,
{
    if free.has(w - 1) {
        lemma_run_start(free, w - 1)
    } else {
        w
    }
}

/// Taking the start of a segment leaves all but `words` words of a free tail.
proof fn lemma_tail_after_take(f0: FreeRuns, f1: FreeRuns, cap: int, n: int, off: int, words: int)
    requires
        tail_free(f0, cap, n),
        0 < words <= 67,
        f0.fits_at(off, words),
        forall|w: int| #[trigger] f1.has(w) <==> f0.has(w) && !(off <= w < off + words),
        forall|w: int| #[trigger] f0.has(w) ==> 0 <= w < cap,
    ensures
        tail_free(f1, cap, n - 67),
{
    assert forall|w: int| cap - (n - 67) <= w < cap implies #[trigger] f1.has(w) by {
        assert(f0.has(w));
        if off <= w < off + words {
            if off > cap - n {
                assert(f0.has(off - 1));
            }
        }
    }
}

spec fn kept_chunks_regions(m: CoordMap<ChunkSlot>) -> Regions {
    Map::new(|c: ChunkCoord| m.has(c), |c: ChunkCoord| (m.at(c).base as int, m.at(c).cap as int))
}

/// Slots without a place do not matter to a block.
proof fn lemma_more_slots(a: ChunkSlot, b: ChunkSlot, buf: Seq<u32>)
    requires
        a.block_ok(buf),
        a.nodes@.len() <= b.nodes@.len(),
        forall|i: int| 0 <= i < a.nodes@.len() ==> #[trigger] b.nodes@[i] == a.nodes@[i],
        b.base == a.base,
        b.cap == a.cap,
        b.free == a.free,
        b.tree == a.tree,
    ensures
        b.block_ok(buf),
{
    let m = a.tree@;
    assert(m.dom().contains(0));
    assert forall|id: u32| #[trigger] m.dom().contains(id) implies id < b.nodes@.len()
        && b.nodes@[id as int].words == room(id, m[id]) && node_at(
        buf,
        b.base + b.nodes@[id as int].off,
        m[id],
        b.nodes@,
    ) by {
        let at = a.base + a.nodes@[id as int].off;
        assert(node_at(buf, at, m[id], a.nodes@));
        assert forall|k: int| 0 <= k < content_len(m[id]) implies #[trigger] buf[at + k] == wire_word(
            m[id],
            b.nodes@,
            k,
        ) by {
            assert(buf[at + k] == wire_word(m[id], a.nodes@, k));
            if k >= 3 && m[id].level < 3 {
                assert(is_child(m, id, k - 3, m[id].children[k - 3]));
            }
        }
    }
}

impl BrickMapBuilder {
    /// The blocks.
    pub closed spec fn regions(&self) -> Regions {
        Map::new(
            |c: ChunkCoord| self.chunks.has(c),
            |c: ChunkCoord| (self.chunks.at(c).base as int, self.chunks.at(c).cap as int),
        )
    }

    /// The words to upload: the dense index, then the tree region.
    pub closed spec fn words(&self) -> Seq<u32> {
        self.buffers.b_struct@
    }

    /// The blocks `r` and the free segments share the tree region, and the index leads to `r`.
    closed spec fn frame_on(&self, r: Regions) -> bool {
        let b = self.buffers.b_struct@;
        let len = b.len() as int;
        &&& TREE_BASE <= len
        &&& len_ok(len)
        &&& self.buffers.b_palette.len() == PALETTE_WORDS
        &&& window_ok(self.dims)
        &&& self.buffers.globals.index_origin_x == self.origin.x
        &&& self.buffers.globals.index_origin_y == self.origin.y
        &&& self.buffers.globals.index_origin_z == self.origin.z
        &&& self.buffers.globals.index_dims_x == self.dims.x
        &&& self.buffers.globals.index_dims_y == self.dims.y
        &&& self.buffers.globals.index_dims_z == self.dims.z
        &&& self.buffers.globals.rest_is_zero()
        &&& self.chunks.wf()
        &&& self.free.wf()
        &&& forall|w: int| #[trigger] self.free.has(w) ==> TREE_BASE <= w < len
        &&& forall|c: ChunkCoord| #[trigger]
            r.dom().contains(c) ==> TREE_BASE <= r[c].0 && 67 <= r[c].1 && r[c].0 + r[c].1 <= len
        &&& forall|c: ChunkCoord, w: int|
            r.dom().contains(c) && #[trigger] in_region(r[c], w) ==> !#[trigger] self.free.has(w)
        &&& forall|c: ChunkCoord, d: ChunkCoord| #[trigger]
            r.dom().contains(c) && #[trigger] r.dom().contains(d) && c != d ==> regions_apart(r[c], r[d])
        &&& forall|c: ChunkCoord| #[trigger]
            r.dom().contains(c) ==> index_pos(self.origin, self.dims, c.0) is Some && b[index_pos(
                self.origin,
                self.dims,
                c.0,
            )->0] == r[c].0 + 1
        &&& forall|p: int|
            0 <= p < TREE_BASE && #[trigger] b[p] != 0 ==> exists|c: ChunkCoord| #[trigger]
                r.dom().contains(c) && index_pos(self.origin, self.dims, c.0) == Some(p)
        &&& dirty_ok(self.dirty_struct@, len)
        &&& match self.dirty_palette {
            Some((lo, hi)) => lo <= hi,
            None => true,
        }
    }

    /// Every word of the tree region is in a block, in `extra` words held elsewhere, or free.
    closed spec fn acct(&self, extra: int) -> bool {
        self.free.total() + caps(self.chunks.items()) + extra == self.buffers.b_struct.len() - TREE_BASE
    }

    /// Blocks, free segments, index and dirty ranges fit together and every block holds its tree.
    pub closed spec fn wf(&self) -> bool {
        &&& self.frame_on(self.regions())
        &&& self.acct(0)
        &&& forall|c: ChunkCoord| #[trigger]
            self.chunks.has(c) ==> self.chunks.at(c).block_ok(self.buffers.b_struct@)
    }

    /// Room is a matter of the free segments.
    proof fn lemma_room(&self, n: int)
        ensures
            self.has_room(n) <==> exists|t: int| self.free.fits_at(t, n),
    {
        if self.has_room(n) {
            let t = choose|t: int| self.free_table().fits_at(t, n);
            assert(self.free.fits_at(t, n));
        }
        if exists|t: int| self.free.fits_at(t, n) {
            let t = choose|t: int| self.free.fits_at(t, n);
            assert(self.free_table().fits_at(t, n));
        }
    }

    /// Block `s` with the tree region around it.
    spec fn arena(&self, s: ChunkSlot) -> Arena {
        Arena {
            base: s.base as int,
            cap: s.cap as int,
            slots: s.nodes@,
            free: free_set(s.free),
            around: free_set(self.free),
            len: self.words().len() as int,
        }
    }

    /// All but the words, the free segments and the dirty ranges is unchanged.
    spec fn same_rest(&self, o: &Self) -> bool {
        &&& self.chunks == o.chunks
        &&& self.origin == o.origin
        &&& self.dims == o.dims
        &&& self.rejected_chunks == o.rejected_chunks
        &&& self.dirty_palette == o.dirty_palette
        &&& self.palette_synced_at == o.palette_synced_at
        &&& self.reserve == o.reserve
        &&& self.buffers.b_palette == o.buffers.b_palette
        &&& self.buffers.globals == o.buffers.globals
    }

    /// Takes a block of `cap` words: from the free segments, or at the end of the words.
    fn alloc_block(&mut self, cap: usize, Ghost(r): Ghost<Regions>, Ghost(h): Ghost<int>) -> (start: usize)
        requires
            old(self).frame_on(r),
            old(self).acct(h),
            67 <= cap,
            old(self).has_room(cap as int) || len_ok(old(self).words().len() + cap),
        ensures
            final(self).frame_on(r),
            final(self).acct(h + cap),
            final(self).same_rest(old(self)),
            final(self).dirty_struct == old(self).dirty_struct,
            TREE_BASE <= start,
            start + cap <= final(self).words().len(),
            forall|w: int| start <= w < start + cap ==> !#[trigger] final(self).free.has(w),
            forall|c: ChunkCoord| #[trigger]
                r.dom().contains(c) ==> regions_apart(r[c], (start as int, cap as int)),
            forall|w: int|
                0 <= w < old(self).words().len() ==> #[trigger] final(self).words()[w] == old(self).words()[w],
            old(self).words().len() <= final(self).words().len() <= old(self).words().len() + cap,
            forall|w: int|
                old(self).words().len() <= w < final(self).words().len() ==> #[trigger] final(
                    self).words()[w] == 0,
            old(self).has_room(cap as int) ==> final(self).words().len() == old(self).words().len(),
            !old(self).has_room(cap as int) ==> final(self).words().len() == old(self).words().len()
                + cap,
            final(self).free.total() == old(self).free.total() - (if old(self).has_room(cap as int) {
                cap as int
            } else {
                0
            }),
            first_place(old(self).free, old(self).words().len() as int, cap as int, start as int),
            forall|w: int| #[trigger]
                final(self).free.has(w) <==> old(self).free.has(w) && !(start <= w < start + cap),
    {
        let ghost b0 = self.buffers.b_struct@;
        match self.free.alloc_run(cap) {
            Some(start) => {
                proof {
                    assert(old(self).free_table().fits_at(start as int, cap as int));
                    assert(old(self).free.has(start as int));
                    assert(old(self).free.has(start + cap - 1));
                    assert forall|c: ChunkCoord| #[trigger] r.dom().contains(c) implies regions_apart(
                        r[c],
                        (start as int, cap as int),
                    ) by {
                        if !regions_apart(r[c], (start as int, cap as int)) {
                            let w = if r[c].0 >= start { r[c].0 } else { start as int };
                            assert(in_region(r[c], w));
                            assert(old(self).free.has(w));
                        }
                    }
                }
                start
            },
            None => {
                let start: usize = self.buffers.b_struct.len();
                self.buffers.b_struct.resize(start + cap, 0);
                proof {
                    let b1 = self.buffers.b_struct@;
                    assert forall|w: int| 0 <= w < b0.len() implies #[trigger] b1[w] == b0[w] by {
                        assert(b1.subrange(0, b0.len() as int)[w] == b0[w]);
                    }
                    assert forall|p: int| 0 <= p < TREE_BASE && #[trigger] b1[p] != 0 implies exists|
                        c: ChunkCoord,
                    | #[trigger]
                        r.dom().contains(c) && index_pos(self.origin, self.dims, c.0) == Some(p) by {
                        assert(b0[p] != 0);
                    }
                    assert forall|c: ChunkCoord| #[trigger] r.dom().contains(c) implies b1[index_pos(
                        self.origin,
                        self.dims,
                        c.0,
                    )->0] == r[c].0 + 1 by {
                        lemma_index_pos(self.origin, self.dims, c.0, c.0);
                    }
                }
                start
            },
        }
    }

    /// Moves a block to a larger place. Its offsets are relative, so its content stays as it is; all
    /// of it has new addresses and awaits an upload.
    #[verifier::rlimit(50)]
    #[verifier::spinoff_prover]
    fn grow_block(
        &mut self,
        coord: ChunkCoord,
        slot: &mut ChunkSlot,
        Ghost(r): Ghost<Regions>,
        Ghost(h): Ghost<int>,
    )
        requires
            old(self).frame_on(r),
            old(self).acct(h),
            r.dom().contains(coord),
            r[coord] == (old(slot).base as int, old(slot).cap as int),
            old(slot).free.wf(),
            forall|w: int| #[trigger] old(slot).free.has(w) ==> 0 <= w < old(slot).cap,
            len_ok(old(self).words().len() + grown(old(slot).cap as int)),
        ensures
            final(self).frame_on(
                r.insert(coord, (final(slot).base as int, final(slot).cap as int)),
            ),
            final(self).acct(h - old(slot).cap + final(slot).cap),
            final(self).same_rest(old(self)),
            final(slot).cap == grown(old(slot).cap as int),
            final(slot).nodes == old(slot).nodes,
            final(slot).tree == old(slot).tree,
            final(slot).free.wf(),
            forall|w: int| #[trigger]
                final(slot).free.has(w) <==> old(slot).free.has(w) || old(slot).cap <= w
                    < final(slot).cap,
            final(slot).base != old(slot).base,
            old(self).words().len() <= final(self).words().len() <= old(self).words().len() + grown(
                old(slot).cap as int,
            ),
            forall|w: int|
                0 <= w < old(slot).cap ==> #[trigger] final(self).words()[final(slot).base + w] == old(self).words()[old(slot).base + w],
            forall|w: int|
                TREE_BASE <= w < old(self).words().len() && !in_region(
                    (final(slot).base as int, final(slot).cap as int),
                    w,
                ) ==> #[trigger] final(self).words()[w] == old(self).words()[w],
            forall|p: int|
                0 <= p < TREE_BASE && #[trigger] final(self).words()[p] != old(self).words()[p]
                    ==> dirty_has(final(self).dirty_struct@, p),
            forall|w: int|
                dirty_has(old(self).dirty_struct@, w) ==> #[trigger] dirty_has(
                    final(self).dirty_struct@,
                    w,
                ),
            forall|w: int|
                final(slot).base <= w < final(slot).base + old(slot).cap ==> #[trigger] dirty_has(
                    final(self).dirty_struct@,
                    w,
                ),
            forall|w: int| #[trigger]
                dirty_has(final(self).dirty_struct@, w) ==> dirty_has(old(self).dirty_struct@, w)
                    || index_pos(old(self).origin, old(self).dims, coord.0) == Some(w) || in_region(
                    (final(slot).base as int, final(slot).cap as int),
                    w,
                ),
            forall|w: int|
                0 <= w < old(self).words().len() && #[trigger] final(self).words()[w] != old(
                    self).words()[w] ==> dirty_has(final(self).dirty_struct@, w),
            Arena::grew(old(self).arena(*old(slot)), final(self).arena(*final(slot))),
    {
        let ghost a0 = self.arena(*slot);
        let ghost len0 = self.words().len();
        let old_cap: usize = slot.cap;
        let new_cap: usize = old_cap + old_cap / 2 + ROOT_WIRE_WORDS + 1;
        let ghost r1 = r.insert(coord, (slot.base as int, slot.cap as int));
        assert(r1 =~= r);
        let new_base: usize = self.alloc_block(new_cap, Ghost(r), Ghost(h));
        let ghost b1 = self.buffers.b_struct@;
        let ghost f1 = self.free;
        assert(regions_apart(r[coord], (new_base as int, new_cap as int)));
        copy_words(&mut self.buffers.b_struct, slot.base, new_base, old_cap);
        proof {
            assert forall|w: int| slot.base <= w < slot.base + old_cap implies !f1.has(w) by {
                assert(in_region(r[coord], w));
            }
        }
        self.free.free_run(slot.base, old_cap);
        slot.base = new_base;
        slot.cap = new_cap;
        slot.free.free_run(old_cap, new_cap - old_cap);
        let ip: usize = match chunk_index_pos(self.origin, self.dims, coord.0) {
            Some(p) => p,
            None => 0,
        };
        proof {
            assert(index_pos(self.origin, self.dims, coord.0) == Some(ip as int));
        }
        self.buffers.b_struct[ip] = new_base as u32 + 1;
        mark_words(&mut self.dirty_struct, ip, 1, Ghost(self.buffers.b_struct@.len() as int));
        let ghost d1 = self.dirty_struct@;
        mark_words(
            &mut self.dirty_struct,
            new_base,
            old_cap,
            Ghost(self.buffers.b_struct@.len() as int),
        );
        proof {
            let q = r.insert(coord, (new_base as int, new_cap as int));
            let b2 = self.buffers.b_struct@;
            let a1 = self.arena(*slot);
            assert(a1.around =~= a0.around.difference(span(a1.base, a1.cap)).union(
                span(a0.base, a0.cap),
            ));
            assert(a1.free =~= a0.free.union(span(a0.cap, a1.cap - a0.cap)));
            old(self).lemma_room(new_cap as int);
            lemma_put_at(
                old(self).free,
                len0 as int,
                new_cap as int,
                new_base as int,
                self.words().len() as int,
            );
            assert forall|w: int| dirty_has(old(self).dirty_struct@, w) implies #[trigger] dirty_has(
                self.dirty_struct@,
                w,
            ) by {
                assert(dirty_has(d1, w));
            }
            assert(dirty_has(self.dirty_struct@, ip as int)) by {
                assert(dirty_has(d1, ip as int));
            }
            assert forall|c: ChunkCoord, w: int|
                q.dom().contains(c) && #[trigger] in_region(q[c], w) implies !#[trigger] self.free.has(
                w,
            ) by {
                if c == coord {
                    assert(!f1.has(w));
                } else {
                    assert(in_region(r[c], w));
                    assert(!f1.has(w));
                    assert(regions_apart(r[c], r[coord]));
                }
            }
            assert forall|c: ChunkCoord, d: ChunkCoord| #[trigger]
                q.dom().contains(c) && #[trigger] q.dom().contains(d) && c != d implies regions_apart(
                q[c],
                q[d],
            ) by {
                assert(r.dom().contains(c) && r.dom().contains(d));
            }
            assert forall|c: ChunkCoord| #[trigger] q.dom().contains(c) implies index_pos(
                self.origin,
                self.dims,
                c.0,
            ) is Some && b2[index_pos(self.origin, self.dims, c.0)->0] == q[c].0 + 1 by {
                assert(r.dom().contains(c));
                lemma_index_pos(self.origin, self.dims, c.0, coord.0);
            }
            assert forall|p: int| 0 <= p < TREE_BASE && #[trigger] b2[p] != 0 implies exists|
                c: ChunkCoord,
            | #[trigger]
                q.dom().contains(c) && index_pos(self.origin, self.dims, c.0) == Some(p) by {
                if p == ip {
                    assert(q.dom().contains(coord));
                } else {
                    assert(b1[p] != 0);
                    let c = choose|c: ChunkCoord| #[trigger]
                        r.dom().contains(c) && index_pos(self.origin, self.dims, c.0) == Some(p);
                    assert(q.dom().contains(c));
                }
            }
        }
    }

    /// Takes `words` words inside a block, which grows first when no free piece is large enough.
    #[verifier::rlimit(50)]
    #[verifier::spinoff_prover]
    fn alloc_node(
        &mut self,
        coord: ChunkCoord,
        slot: &mut ChunkSlot,
        words: usize,
        Ghost(r): Ghost<Regions>,
        Ghost(h): Ghost<int>,
    ) -> (off: u32)
        requires
            old(self).frame_on(r),
            old(self).acct(h),
            r.dom().contains(coord),
            r[coord] == (old(slot).base as int, old(slot).cap as int),
            old(slot).free.wf(),
            forall|w: int| #[trigger] old(slot).free.has(w) ==> 0 <= w < old(slot).cap,
            len_ok(old(self).words().len() + grown(old(slot).cap as int)),
            3 <= words <= 67,
        ensures
            final(self).frame_on(
                r.insert(coord, (final(slot).base as int, final(slot).cap as int)),
            ),
            final(self).acct(h - old(slot).cap + final(slot).cap),
            final(self).same_rest(old(self)),
            final(slot).cap == old(slot).cap || final(slot).cap == grown(old(slot).cap as int),
            final(slot).nodes == old(slot).nodes,
            final(slot).tree == old(slot).tree,
            final(slot).free.wf(),
            off + words <= final(slot).cap,
            off != NODE_NONE,
            forall|w: int| #[trigger]
                final(slot).free.has(w) <==> (old(slot).free.has(w) || old(slot).cap <= w
                    < final(slot).cap) && !(off <= w < off + words),
            forall|w: int|
                off <= w < off + words ==> old(slot).free.has(w) || old(slot).cap <= w,
            final(slot).cap == old(slot).cap ==> *final(self) == *old(self) && final(slot).base == old(slot).base,
            // room at the end of the block
            final(slot).cap == old(slot).cap ==> forall|n: int| #[trigger]
                tail_free(old(slot).free, old(slot).cap as int, n) ==> tail_free(
                    final(slot).free,
                    final(slot).cap as int,
                    n - 67,
                ),
            final(slot).cap != old(slot).cap ==> !tail_free(old(slot).free, old(slot).cap as int, 67)
                && tail_free(
                final(slot).free,
                final(slot).cap as int,
                old(slot).cap as int / 2 + 1,
            ),
            old(self).words().len() <= final(self).words().len() <= old(self).words().len() + (if final(slot).cap == old(slot).cap {
                0
            } else {
                grown(old(slot).cap as int)
            }),
            forall|w: int|
                0 <= w < old(slot).cap ==> #[trigger] final(self).words()[final(slot).base + w] == old(self).words()[old(slot).base + w],
            forall|w: int|
                TREE_BASE <= w < old(self).words().len() && !in_region(
                    (final(slot).base as int, final(slot).cap as int),
                    w,
                ) ==> #[trigger] final(self).words()[w] == old(self).words()[w],
            forall|p: int|
                0 <= p < TREE_BASE && #[trigger] final(self).words()[p] != old(self).words()[p]
                    ==> dirty_has(final(self).dirty_struct@, p),
            forall|w: int|
                dirty_has(old(self).dirty_struct@, w) ==> #[trigger] dirty_has(
                    final(self).dirty_struct@,
                    w,
                ),
            final(slot).base != old(slot).base ==> forall|w: int|
                final(slot).base <= w < final(slot).base + old(slot).cap ==> #[trigger] dirty_has(
                    final(self).dirty_struct@,
                    w,
                ),
            forall|w: int| #[trigger]
                dirty_has(final(self).dirty_struct@, w) ==> dirty_has(old(self).dirty_struct@, w)
                    || index_pos(old(self).origin, old(self).dims, coord.0) == Some(w) || in_region(
                    (final(slot).base as int, final(slot).cap as int),
                    w,
                ),
            forall|w: int|
                0 <= w < old(self).words().len() && #[trigger] final(self).words()[w] != old(
                    self).words()[w] ==> dirty_has(final(self).dirty_struct@, w),
            Arena::took(
                old(self).arena(*old(slot)),
                final(self).arena(*final(slot)),
                words as int,
                off as int,
            ),
    {
        let ghost a0 = self.arena(*slot);
        let ghost f0 = slot.free;
        let ghost cap0 = slot.cap as int;
        proof {
            lemma_fits_same(f0, words as int);
        }
        if let Some(off) = slot.free.alloc_run(words) {
            proof {
                assert(r.insert(coord, (slot.base as int, slot.cap as int)) =~= r);
                assert(f0.has(off as int));
                assert(f0.has(off + words - 1));
                assert forall|n: int| #[trigger] tail_free(f0, cap0, n) implies tail_free(
                    slot.free,
                    cap0,
                    n - 67,
                ) by {
                    lemma_tail_after_take(f0, slot.free, cap0, n, off as int, words as int);
                }
                let a1 = self.arena(*slot);
                assert(a1.free =~= a0.free.difference(span(off as int, words as int)));
                assert(fits(a0.free, off as int, words as int));
                assert forall|u: int| u < off implies !fits(a0.free, u, words as int) by {
                    assert(!f0.fits_at(u, words as int));
                }
                assert(Arena::cut(a0, a1, words as int, off as int));
            }
            return off as u32;
        }
        proof {
            if tail_free(f0, cap0, 67) {
                lemma_tail_fits(f0, cap0, 67, words as int);
            }
        }
        self.grow_block(coord, slot, Ghost(r), Ghost(h));
        let ghost f1 = slot.free;
        let ghost a1 = self.arena(*slot);
        proof {
            lemma_tail_fits(f1, slot.cap as int, cap0 / 2 + 68, words as int);
        }
        match slot.free.alloc_run(words) {
            Some(off) => {
                proof {
                    assert(f1.has(off as int));
                    assert(f1.has(off + words - 1));
                    lemma_tail_after_take(
                        f1,
                        slot.free,
                        slot.cap as int,
                        cap0 / 2 + 68,
                        off as int,
                        words as int,
                    );
                    assert forall|w: int| off <= w < off + words implies f0.has(w) || cap0 <= w by {
                        assert(f1.has(w));
                    }
                    let a2 = self.arena(*slot);
                    lemma_fits_same(f1, words as int);
                    assert(a2.free =~= a1.free.difference(span(off as int, words as int)));
                    assert(fits(a1.free, off as int, words as int));
                    assert forall|u: int| u < off implies !fits(a1.free, u, words as int) by {
                        assert(!f1.fits_at(u, words as int));
                    }
                    assert(Arena::cut(a1, a2, words as int, off as int));
                    assert(Arena::grew(a0, a1));
                }
                off as u32
            },
            None => {
                proof {
                    assert(false);
                }
                0
            },
        }
    }

    /// Gives node `id` a place of `words` words.
    ///
    /// It stays where it is when it shrinks (the tail becomes free) or when the words behind it are
    /// free; otherwise it moves inside the block.
    #[verifier::rlimit(50)]
    #[verifier::spinoff_prover]
    fn place_node(
        &mut self,
        coord: ChunkCoord,
        slot: &mut ChunkSlot,
        id: u32,
        words: usize,
        Ghost(own): Ghost<Set<u32>>,
        Ghost(r): Ghost<Regions>,
        Ghost(h): Ghost<int>,
    )
        requires
            old(self).frame_on(r),
            old(self).acct(h),
            r.dom().contains(coord),
            r[coord] == (old(slot).base as int, old(slot).cap as int),
            old(slot).arena_ok(own),
            id < old(slot).nodes@.len(),
            own.contains(id) || old(slot).nodes@[id as int].off == NODE_NONE,
            len_ok(old(self).words().len() + grown(old(slot).cap as int)),
            3 <= words <= 67,
        ensures
            final(self).frame_on(
                r.insert(coord, (final(slot).base as int, final(slot).cap as int)),
            ),
            final(self).acct(h - old(slot).cap + final(slot).cap),
            final(self).same_rest(old(self)),
            final(slot).cap == old(slot).cap || final(slot).cap == grown(old(slot).cap as int),
            final(slot).tree == old(slot).tree,
            final(slot).arena_ok(own.insert(id)),
            final(slot).nodes@ == old(slot).nodes@.update(id as int, final(slot).nodes@[id as int]),
            final(slot).nodes@[id as int].words == words,
            own.contains(id) && words <= old(slot).nodes@[id as int].words
                ==> final(slot).nodes@[id as int].off == old(slot).nodes@[id as int].off && final(
                slot).cap == old(slot).cap && forall|w: int|
                old(slot).free.has(w) ==> #[trigger] final(slot).free.has(w),
            final(slot).cap == old(slot).cap ==> *final(self) == *old(self) && final(slot).base == old(
                slot).base,
            final(slot).cap == old(slot).cap ==> forall|n: int| #[trigger]
                tail_free(old(slot).free, old(slot).cap as int, n) ==> tail_free(
                    final(slot).free,
                    final(slot).cap as int,
                    n - 67,
                ),
            final(slot).cap != old(slot).cap ==> !tail_free(old(slot).free, old(slot).cap as int, 67)
                && tail_free(
                final(slot).free,
                final(slot).cap as int,
                old(slot).cap as int / 2 + 1,
            ),
            old(self).words().len() <= final(self).words().len() <= old(self).words().len() + (if final(
                slot).cap == old(slot).cap {
                0
            } else {
                grown(old(slot).cap as int)
            }),
            forall|w: int|
                0 <= w < old(slot).cap ==> #[trigger] final(self).words()[final(slot).base + w] == old(
                    self).words()[old(slot).base + w],
            forall|w: int|
                TREE_BASE <= w < old(self).words().len() && !in_region(
                    (final(slot).base as int, final(slot).cap as int),
                    w,
                ) ==> #[trigger] final(self).words()[w] == old(self).words()[w],
            forall|p: int|
                0 <= p < TREE_BASE && #[trigger] final(self).words()[p] != old(self).words()[p]
                    ==> dirty_has(final(self).dirty_struct@, p),
            forall|w: int|
                dirty_has(old(self).dirty_struct@, w) ==> #[trigger] dirty_has(
                    final(self).dirty_struct@,
                    w,
                ),
            final(slot).base != old(slot).base ==> forall|w: int|
                final(slot).base <= w < final(slot).base + old(slot).cap ==> #[trigger] dirty_has(
                    final(self).dirty_struct@,
                    w,
                ),
            forall|w: int| #[trigger]
                dirty_has(final(self).dirty_struct@, w) ==> dirty_has(old(self).dirty_struct@, w)
                    || index_pos(old(self).origin, old(self).dims, coord.0) == Some(w) || in_region(
                    (final(slot).base as int, final(slot).cap as int),
                    w,
                ),
            forall|w: int|
                0 <= w < old(self).words().len() && #[trigger] final(self).words()[w] != old(
                    self).words()[w] ==> dirty_has(final(self).dirty_struct@, w),
            Arena::placed(
                old(self).arena(*old(slot)),
                final(self).arena(*final(slot)),
                id,
                words as int,
            ),
    {
        let ghost s0 = *slot;
        let ghost a0 = self.arena(*slot);
        let ghost mut pick: Option<Arena> = None;
        let cur: NodeSlot = slot.nodes[id as usize];
        proof {
            assert(r.insert(coord, (slot.base as int, slot.cap as int)) =~= r);
        }
        let off: u32 = if cur.off == NODE_NONE {
            let o: u32 = self.alloc_node(coord, slot, words, Ghost(r), Ghost(h));
            proof {
                pick = Some(self.arena(*slot));
            }
            o
        } else {
            proof {
                assert forall|w: int| cur.off <= w < cur.off + cur.words implies !#[trigger] slot.free.has(
                w) by {
                    assert(in_slot(slot.nodes@[id as int], w));
                }
            }
            if words <= cur.words as usize {
                slot.free.free_run(cur.off as usize + words, cur.words as usize - words);
                cur.off
            } else if slot.free.take_range(
                cur.off as usize + cur.words as usize,
                words - cur.words as usize,
            ) {
                proof {
                    let st = cur.off + cur.words;
                    let en = cur.off + words;
                    assert(s0.free.has(en - 1));
                    assert forall|n: int| #[trigger] tail_free(
                        s0.free,
                        s0.cap as int,
                        n,
                    ) implies tail_free(slot.free, slot.cap as int, n - 67) by {
                        assert forall|w: int| slot.cap - (n - 67) <= w < slot.cap implies #[trigger] slot.free.has(
                        w) by {
                            assert(s0.free.has(w));
                            if st <= w < en {
                                if st > s0.cap - n {
                                    assert(s0.free.has(st - 1));
                                    assert(in_slot(cur, st - 1));
                                }
                            }
                        }
                    }
                }
                cur.off
            } else {
                slot.free.free_run(cur.off as usize, cur.words as usize);
                let ghost f1 = slot.free;
                proof {
                    assert forall|n: int| #[trigger] tail_free(
                        s0.free,
                        s0.cap as int,
                        n,
                    ) implies tail_free(f1, s0.cap as int, n) by {
                        assert forall|w: int| s0.cap - n <= w < s0.cap implies #[trigger] f1.has(w) by {
                            assert(s0.free.has(w));
                        }
                    }
                }
                let ghost g = self.arena(*slot);
                let o: u32 = self.alloc_node(coord, slot, words, Ghost(r), Ghost(h));
                proof {
                    pick = Some(self.arena(*slot));
                    assert(g.free =~= a0.free.union(span(cur.off as int, cur.words as int)));
                    assert(!span(cur.off + cur.words, words - cur.words).subset_of(a0.free)) by {
                        let w = choose|w: int|
                            cur.off + cur.words <= w < cur.off + words && !s0.free.has(w);
                        assert(span(cur.off + cur.words, words - cur.words).contains(w));
                        assert(!a0.free.contains(w));
                    }
                    assert forall|w: int| o <= w < o + words implies #[trigger] s0.free.has(w) || s0.cap
                        <= w || in_slot(cur, w) by {
                        assert(f1.has(w) || s0.cap <= w);
                    }
                }
                o
            }
        };
        slot.nodes[id as usize] = NodeSlot { off, words: words as u16 };
        proof {
            let a1 = self.arena(*slot);
            assert(a1.slots =~= a0.slots.update(id as int, NodeSlot { off, words: words as u16 }));
            let put = a0.slots.update(id as int, NodeSlot { off, words: words as u16 });
            assert((words as int) as u16 == words as u16);
            if pick is Some {
                assert(a1 == (Arena { slots: put, ..pick->0 }));
                if cur.off == NODE_NONE {
                    assert(Arena::took(a0, pick->0, words as int, off as int));
                    assert(Arena::moved(a0, a1, id, words as int));
                } else {
                    let g = Arena {
                        free: a0.free.union(span(cur.off as int, cur.words as int)),
                        ..a0
                    };
                    assert(Arena::took(g, pick->0, words as int, off as int));
                    assert(Arena::moved(g, a1, id, words as int));
                }
                assert(Arena::placed(a0, a1, id, words as int));
            } else if words <= cur.words as usize {
                assert(a1.free =~= a0.free.union(span(cur.off + words, cur.words - words)));
                assert(a1 == (Arena {
                    free: a0.free.union(span(cur.off + words, cur.words - words)),
                    slots: put,
                    ..a0
                }));
                assert(Arena::placed(a0, a1, id, words as int));
            } else {
                let sp = span(cur.off + cur.words, words - cur.words);
                assert(a1.free =~= a0.free.difference(sp));
                assert(sp.subset_of(a0.free));
                assert(a1 == (Arena { free: a0.free.difference(sp), slots: put, ..a0 }));
                assert(Arena::placed(a0, a1, id, words as int));
            }
            let own2 = own.insert(id);
            let sl = slot.nodes@;
            assert(cur.off == NODE_NONE ==> !own.contains(id));
            assert forall|w: int| off <= w < off + words implies #[trigger] s0.free.has(w) || s0.cap
                <= w || (cur.off != NODE_NONE && in_slot(cur, w)) by {}
            assert forall|x: u32| #[trigger] own.contains(x) && x != id implies apart(
                sl[x as int],
                sl[id as int],
            ) by {
                let (a, b) = (sl[x as int], sl[id as int]);
                if !apart(a, b) {
                    let w = if a.off >= b.off { a.off as int } else { b.off as int };
                    assert(in_slot(s0.nodes@[x as int], w));
                    assert(!s0.free.has(w));
                    if own.contains(id) {
                        assert(apart(s0.nodes@[x as int], s0.nodes@[id as int]));
                    }
                    assert(false);
                }
            }
            assert forall|a: u32, b: u32| #[trigger]
                own2.contains(a) && #[trigger] own2.contains(b) && a != b implies apart(
                sl[a as int],
                sl[b as int],
            ) by {
                if a != id && b != id {
                    assert(own.contains(a) && own.contains(b));
                } else if a != id {
                    assert(own.contains(a));
                } else {
                    assert(own.contains(b));
                }
            }
            assert forall|x: u32, w: int|
                own2.contains(x) && #[trigger] in_slot(sl[x as int], w) implies !#[trigger] slot.free.has(
                w) by {
                if x != id {
                    assert(own.contains(x));
                    assert(in_slot(s0.nodes@[x as int], w));
                    assert(!s0.free.has(w));
                    if own.contains(id) {
                        assert(apart(s0.nodes@[x as int], s0.nodes@[id as int]));
                    }
                }
            }
        }
    }

    /// Brings one reported node of a held block up to date.
    ///
    /// A node that has become uniform frees everything below it. Content that reads as before is
    /// neither written nor marked.
    #[verifier::rlimit(40)]
    #[verifier::spinoff_prover]
    fn rewrite_node(
        &mut self,
        coord: ChunkCoord,
        slot: &mut ChunkSlot,
        level: u8,
        id: u32,
        view: &TreeNode,
        Ghost(ctx): Ghost<Batch>,
        Ghost(k): Ghost<int>,
        Ghost(own): Ghost<Set<u32>>,
        Ghost(r): Ghost<Regions>,
        Ghost(h): Ghost<int>,
    ) -> (own2: Ghost<Set<u32>>)
        requires
            old(self).frame_on(r),
            old(self).acct(h),
            r.dom().contains(coord),
            r[coord] == (old(slot).base as int, old(slot).cap as int),
            ctx.ok(),
            0 <= k < ctx.list.len(),
            ctx.mid(k, old(self).words(), old(self).dirty_struct@, *old(slot), own),
            ctx.list[k] == (level, id),
            ctx.t1.dom().contains(id),
            view@ == ctx.t1[id],
            len_ok(old(self).words().len() + grown(old(slot).cap as int)),
        ensures
            final(self).frame_on(
                r.insert(coord, (final(slot).base as int, final(slot).cap as int)),
            ),
            final(self).acct(h - old(slot).cap + final(slot).cap),
            final(self).same_rest(old(self)),
            final(slot).tree == old(slot).tree,
            ctx.mid(k + 1, final(self).words(), final(self).dirty_struct@, *final(slot), own2@),
            final(slot).cap == old(slot).cap || final(slot).cap == grown(old(slot).cap as int),
            final(slot).cap == old(slot).cap ==> forall|n: int| #[trigger]
                tail_free(old(slot).free, old(slot).cap as int, n) ==> tail_free(
                    final(slot).free,
                    final(slot).cap as int,
                    n - 67,
                ),
            final(slot).cap != old(slot).cap ==> !tail_free(old(slot).free, old(slot).cap as int, 67)
                && tail_free(
                final(slot).free,
                final(slot).cap as int,
                old(slot).cap as int / 2 + 1,
            ),
            old(self).words().len() <= final(self).words().len() <= old(self).words().len() + (if final(
                slot).cap == old(slot).cap {
                0
            } else {
                grown(old(slot).cap as int)
            }),
            forall|w: int|
                TREE_BASE <= w < old(self).words().len() && !in_region(
                    (final(slot).base as int, final(slot).cap as int),
                    w,
                ) ==> #[trigger] final(self).words()[w] == old(self).words()[w],
            forall|p: int|
                0 <= p < TREE_BASE && #[trigger] final(self).words()[p] != old(self).words()[p]
                    ==> dirty_has(final(self).dirty_struct@, p),
            forall|w: int|
                dirty_has(old(self).dirty_struct@, w) ==> #[trigger] dirty_has(
                    final(self).dirty_struct@,
                    w,
                ),
            // what is marked
            forall|w: int| #[trigger]
                dirty_has(final(self).dirty_struct@, w) ==> dirty_has(old(self).dirty_struct@, w)
                    || index_pos(old(self).origin, old(self).dims, coord.0) == Some(w) || in_region(
                    (final(slot).base as int, final(slot).cap as int),
                    w,
                ),
            final(slot).nodes@ == old(slot).nodes@.update(id as int, final(slot).nodes@[id as int]),
            ctx.seen(k, id) ==> final(slot).nodes@ == old(slot).nodes@ && final(self).dirty_struct
                == old(self).dirty_struct && final(self).words() == old(self).words(),
            forall|w: int|
                0 <= w < old(self).words().len() && #[trigger] final(self).words()[w] != old(
                    self).words()[w] ==> dirty_has(final(self).dirty_struct@, w),
            // a node that needs no more words than it has stays where it is
            own.contains(id) && room(id, ctx.t1[id]) <= old(slot).nodes@[id as int].words ==> final(
                slot).cap == old(slot).cap && final(slot).nodes@[id as int].off == old(
                slot).nodes@[id as int].off && forall|w: int|
                old(slot).free.has(w) ==> #[trigger] final(slot).free.has(w),
            // what reads as before is not marked
            final(slot).cap == old(slot).cap && final(slot).nodes@[id as int].off == old(
                slot).nodes@[id as int].off && (forall|i: int|
                0 <= i < content_len(ctx.t1[id]) ==> #[trigger] final(self).words()[final(slot).base
                    + final(slot).nodes@[id as int].off + i] == old(self).words()[final(slot).base
                    + final(slot).nodes@[id as int].off + i]) ==> final(self).dirty_struct == old(
                self).dirty_struct,
            entry_done(
                old(self).arena(*old(slot)),
                final(self).arena(*final(slot)),
                ctx.t0,
                ctx.t1,
                ctx.list,
                k,
            ),
            final(slot).cap == old(slot).cap ==> final(self).free == old(self).free && final(
                self).words().len() == old(self).words().len() && forall|w: int|
                0 <= w < old(self).words().len() && #[trigger] final(self).words()[w] != old(
                    self).words()[w] ==> node_place(*final(slot), ctx.t1, id, w),
            final(slot).cap == old(slot).cap ==> final(slot).base == old(slot).base && forall|w: int|
                #[trigger]
                dirty_has(final(self).dirty_struct@, w) ==> dirty_has(old(self).dirty_struct@, w)
                    || node_place(*final(slot), ctx.t1, id, w),
    {
        let ghost s0 = *slot;
        let ghost b0 = self.buffers.b_struct@;
        let ghost d0 = self.dirty_struct@;
        let ghost n = ctx.t1[id];
        let ghost again = ctx.seen(k, id);
        proof {
            lemma_room_bound(id, n);
            crate::bits::lemma_zero_mask(64);
            assert forall|j: int| 0 <= j < view.children.len() implies (#[trigger] view.children[j])
                < slot.nodes.len() by {
                assert(is_child(ctx.t1, id, j, view.children[j]));
            }
        }
        let words: usize = wire_words_of(id, level, view.mask);
        let cur: NodeSlot = slot.nodes[id as usize];
        let out: Vec<u32> = encode_node(view, &slot.nodes);
        let ghost own1 = if again { own } else { ctx.after_free(k, own) };
        proof {
            if again {
                assert(ctx.done(k, id));
                assert(ctx.new_node(b0, d0, s0, own, id));
            } else if cur.off != NODE_NONE {
                assert(ctx.t0.dom().contains(id));
                assert(own.contains(id));
            } else {
                assert(!ctx.t0.dom().contains(id));
            }
        }
        if cur.off != NODE_NONE && level < 3 && view.mask == 0 {
            proof {
                if again {
                    let dd = (3 - level) as nat;
                    assert forall|y: u32| #[trigger] below(ctx.t1, id, y, dd) implies y == id by {}
                    assert(subtree_held(s0, b0, ctx.t1, id, dd, own));
                    assert(minus_children(own, ctx.t1, id, 0, (2 - level) as nat) =~= own);
                } else {
                    ctx.lemma_freed_held(k, b0, d0, s0, own);
                }
            }
            let ghost m = if again { ctx.t1 } else { ctx.t0 };
            free_children(
                &self.buffers.b_struct,
                slot,
                cur.off,
                level,
                Ghost(m),
                Ghost(id),
                Ghost(own),
            );
        }
        let ghost s1 = *slot;
        proof {
            assert(s1.arena_ok(own1));
            if !again && own.contains(id) {
                ctx.lemma_after_free(k, own, id);
            }
            assert forall|nn: int| #[trigger] tail_free(s0.free, s0.cap as int, nn) implies tail_free(
                s1.free,
                s1.cap as int,
                nn,
            ) by {
                assert forall|w: int| s1.cap - nn <= w < s1.cap implies #[trigger] s1.free.has(w) by {
                    assert(s0.free.has(w));
                }
            }
        }
        proof {
            let freed = if again {
                Set::empty()
            } else {
                freed_below(ctx.t0, ctx.t1, s0.nodes@, id)
            };
            let (a0, a1) = (self.arena(s0), self.arena(s1));
            assert(a1.free =~= a0.free.union(freed)) by {
                if again && s1.free != s0.free {
                    assert(ctx.t1[id].children.len() == 0);
                }
            }
            assert(a1 == (Arena { free: a0.free.union(freed), ..a0 }));
        }
        self.place_node(coord, slot, id, words, Ghost(own1), Ghost(r), Ghost(h));
        let ghost placed = self.arena(*slot);
        let ghost b2 = self.buffers.b_struct@;
        let ghost d2 = self.dirty_struct@;
        let ghost s2 = *slot;
        proof {
            assert(own1.insert(id).contains(id));
            assert(s2.nodes@[id as int].off + words <= s2.cap);
            let r2 = r.insert(coord, (slot.base as int, slot.cap as int));
            assert(r2.dom().contains(coord));
        }
        let off: u32 = slot.nodes[id as usize].off;
        let at: usize = slot.base + off as usize;
        let written: bool = off != cur.off || !reads_as(&self.buffers.b_struct, at, &out);
        if written {
            store(&mut self.buffers.b_struct, at, &out);
            mark_words(
                &mut self.dirty_struct,
                at,
                out.len(),
                Ghost(self.buffers.b_struct@.len() as int),
            );
        }
        let ghost own2 = own1.insert(id);
        proof {
            assert(self.arena(*slot) == placed);
            let b3 = self.buffers.b_struct@;
            let d3 = self.dirty_struct@;
            let r2 = r.insert(coord, (slot.base as int, slot.cap as int));
            assert forall|i: int| 0 <= i < content_len(n) implies #[trigger] b3[at + i] == wire_word(
                n,
                s0.nodes@,
                i,
            ) by {
                assert(out@[i] == wire_word(n, s0.nodes@, i));
            }
            assert forall|w: int| 0 <= w < b0.len() && #[trigger] b3[w] != b0[w] implies dirty_has(d3, w) by {
                if b2[w] != b0[w] {
                    assert(dirty_has(d2, w));
                }
            }
            if s2.cap == s0.cap && off == cur.off && written {
                let i = choose|i: int| 0 <= i < out.len() && b2[at + i] != #[trigger] out@[i];
                assert(b3[at + i] == out@[i]);
                let at2 = slot.base + slot.nodes@[id as int].off;
                assert(self.words()[at2 + i] != old(self).words()[at2 + i]);
            }
            if again {
                assert(own2 =~= own);
                assert(s2.nodes@ =~= s0.nodes@);
                assert forall|i: int| 0 <= i < out.len() implies b2[at + i] == #[trigger] out@[i] by {
                    assert(b0[s0.base + s0.nodes@[id as int].off + i] == wire_word(n, s0.nodes@, i));
                }
                assert(!written);
                ctx.lemma_again(k, b0, d0, s0, own, s2);
            } else {
                assert forall|w: int| 0 <= w < s0.cap implies #[trigger] b2[s2.base + w] == b0[s0.base
                    + w] by {}
                if !written {
                    assert(b3 == b2);
                }
                ctx.lemma_step(k, b0, d0, s0, own, b2, d2, s2, b3, d3, written);
            }
            assert forall|c: ChunkCoord| #[trigger] r2.dom().contains(c) implies b3[index_pos(
                self.origin,
                self.dims,
                c.0,
            )->0] == r2[c].0 + 1 by {
                lemma_index_pos(self.origin, self.dims, c.0, c.0);
            }
            assert forall|p: int| 0 <= p < TREE_BASE && #[trigger] b3[p] != 0 implies exists|
                c: ChunkCoord,
            | #[trigger]
                r2.dom().contains(c) && index_pos(self.origin, self.dims, c.0) == Some(p) by {
                assert(b2[p] != 0);
            }
        }
        Ghost(own2)
    }

    /// The blocks by chunk.
    pub closed spec fn blocks(&self) -> Map<ChunkCoord, BlockModel> {
        Map::new(
            |c: ChunkCoord| self.chunks.has(c),
            |c: ChunkCoord|
                BlockModel {
                    base: self.chunks.at(c).base as int,
                    cap: self.chunks.at(c).cap as int,
                    tree: self.chunks.at(c).tree@,
                    slots: self.chunks.at(c).nodes@,
                    free: self.chunks.at(c).free,
                },
        )
    }

    /// Chunk `c` has a block.
    pub open spec fn resident(&self, c: ChunkCoord) -> bool {
        self.blocks().dom().contains(c)
    }

    /// The tree that the block of `c` holds.
    pub open spec fn tree_of(&self, c: ChunkCoord) -> TreeModel {
        self.blocks()[c].tree
    }

    /// Node ids that have had a place in the block of `c` since it was installed.
    pub open spec fn used_of(&self, c: ChunkCoord) -> Set<u32> {
        used_ids(self.blocks()[c].slots)
    }

    /// First word of the block of `c`.
    pub open spec fn base_of(&self, c: ChunkCoord) -> int {
        self.blocks()[c].base
    }

    /// Words of the block of `c`.
    pub open spec fn cap_of(&self, c: ChunkCoord) -> int {
        self.blocks()[c].cap
    }

    /// Where node `id` of chunk `c` starts in the block.
    pub open spec fn offset_of(&self, c: ChunkCoord, id: u32) -> int {
        self.blocks()[c].slots[id as int].off as int
    }

    /// The free pieces of the block of `c`, relative to its first word.
    pub open spec fn free_in(&self, c: ChunkCoord) -> FreeRuns {
        self.blocks()[c].free
    }

    /// Word `w` is in the block of `c`.
    pub open spec fn block_has(&self, c: ChunkCoord, w: int) -> bool {
        self.resident(c) && self.base_of(c) <= w < self.base_of(c) + self.cap_of(c)
    }

    /// Word `w` is in a block.
    pub open spec fn owned(&self, w: int) -> bool {
        exists|c: ChunkCoord| #[trigger] self.block_has(c, w)
    }

    /// The block of `c` is as a new installation of `tree` makes it: nodes one behind the other, then
    /// the spare words. Words of the wire form that no node fills are 0.
    pub open spec fn laid_out(&self, c: ChunkCoord, tree: &ChunkTree) -> bool {
        &&& self.resident(c)
        &&& self.tree_of(c) == tree.model()
        &&& self.cap_of(c) == block_words(tree.wire_len())
        &&& self.blocks()[c].slots == tree.layout()
        &&& forall|w: int| #[trigger]
            self.free_in(c).has(w) <==> tree.wire_len() <= w < self.cap_of(c)
        &&& forall|w: int|
            0 <= w < tree.wire_len() && !is_content(tree.layout(), tree.model(), w)
                ==> #[trigger] self.words()[self.base_of(c) + w] == 0
    }

    /// Every word of the tree of `c`, and its index entry, awaits an upload.
    pub open spec fn marked_whole(&self, c: ChunkCoord) -> bool {
        &&& self.pos_of(c) is Some && self.dirty_word(self.pos_of(c)->0)
        &&& forall|id: u32, w: int| #[trigger] self.node_word(c, id, w) ==> self.dirty_word(w)
    }

    /// From `a` to `b` the blocks of chunks that have none any more became free, and nothing else.
    pub open spec fn freed_outside(a: &Self, b: &Self) -> bool {
        forall|w: int| #[trigger]
            b.free_table().has(w) <==> a.free_table().has(w) || exists|c: ChunkCoord| #[trigger]
                a.block_has(c, w) && !b.resident(c)
    }

    /// From `a` to `b` no word of the tree region was written but the first `n` of the block of `c`;
    /// new words are 0.
    pub open spec fn writes_only(a: &Self, b: &Self, c: ChunkCoord, n: int) -> bool {
        forall|w: int|
            TREE_BASE <= w < b.words().len() && !(b.base_of(c) <= w < b.base_of(c) + n)
                ==> #[trigger] b.words()[w] == (if w < a.words().len() {
                a.words()[w]
            } else {
                0
            })
    }

    /// From `a` to `b` no word was written without a mark, and marks stay.
    pub open spec fn marks_writes(a: &Self, b: &Self) -> bool {
        &&& a.words().len() <= b.words().len()
        &&& forall|w: int|
            0 <= w < a.words().len() && #[trigger] b.words()[w] != a.words()[w] ==> b.dirty_word(w)
        &&& forall|w: int| #[trigger] a.dirty_word(w) ==> b.dirty_word(w)
    }

    /// Number of chunks with a block.
    pub open spec fn resident_count(&self) -> nat {
        self.blocks().dom().len()
    }

    /// Words of all blocks.
    pub closed spec fn block_total(&self) -> int {
        caps(self.chunks.items())
    }

    /// The free segments of the tree region.
    pub closed spec fn free_table(&self) -> FreeRuns {
        self.free
    }

    /// Free words of the tree region.
    pub open spec fn free_total(&self) -> int {
        self.free_table().total()
    }

    /// A block of `n` words can be taken from the free segments.
    pub open spec fn has_room(&self, n: int) -> bool {
        exists|t: int| self.free_table().fits_at(t, n)
    }

    /// A block of `n` words can be taken, if need be at the end of the words.
    pub open spec fn can_take(&self, n: int) -> bool {
        self.has_room(n) || len_ok(self.words().len() + n)
    }

    /// The window: origin and size, in chunks.
    pub closed spec fn window_spec(&self) -> (IVec3, IVec3) {
        (self.origin, self.dims)
    }

    /// Words of the tree region set aside at construction.
    pub closed spec fn reserved(&self) -> int {
        self.reserve as int
    }

    /// Byte ranges that await an upload.
    pub closed spec fn dirty_list(&self) -> Seq<(usize, usize)> {
        self.dirty_struct@
    }

    /// Word `w` awaits an upload.
    pub open spec fn dirty_word(&self, w: int) -> bool {
        dirty_has(self.dirty_list(), w)
    }

    /// Palette words to upload.
    pub closed spec fn palette_words(&self) -> Seq<u32> {
        self.buffers.b_palette@
    }

    /// Palette entries that await an upload.
    pub closed spec fn dirty_entries(&self) -> Option<(u16, u16)> {
        self.dirty_palette
    }

    /// The palette version that the words reflect.
    pub closed spec fn palette_version(&self) -> Option<u64> {
        self.palette_synced_at
    }

    pub closed spec fn globals(&self) -> BrickMapGlobals {
        self.buffers.globals
    }

    /// Chunks with content that the window did not reach when it was computed.
    pub closed spec fn rejected(&self) -> u32 {
        self.rejected_chunks
    }

    /// Place of chunk `c` in the dense index.
    pub open spec fn pos_of(&self, c: ChunkCoord) -> Option<int> {
        index_pos(self.window_spec().0, self.window_spec().1, c.0)
    }

    /// Word `w` is content of node `id` of chunk `c`.
    pub open spec fn node_word(&self, c: ChunkCoord, id: u32, w: int) -> bool {
        &&& self.resident(c)
        &&& self.tree_of(c).dom().contains(id)
        &&& self.base_of(c) + self.offset_of(c, id) <= w < self.base_of(c) + self.offset_of(c, id)
            + content_len(self.tree_of(c)[id])
    }

    /// The shaders read word `w`: it is an index entry or content of a node.
    pub open spec fn live(&self, w: int) -> bool {
        0 <= w < TREE_BASE || exists|c: ChunkCoord, id: u32| self.node_word(c, id, w)
    }

    /// From `a` to `b` no change of a live word went unmarked: a live word of `b` that awaits no
    /// upload was live in `a` and had the same value, and live words keep their marks.
    pub open spec fn marks_changes(a: &Self, b: &Self) -> bool {
        &&& forall|w: int| #[trigger]
            b.live(w) && a.dirty_word(w) ==> b.dirty_word(w)
        &&& forall|w: int| #[trigger]
            b.live(w) && !b.dirty_word(w) ==> a.live(w) && a.words()[w] == b.words()[w]
    }

    /// What is marked from `a` to `b` belongs to chunk `coord`: it is the chunk's index entry, or no
    /// word of another chunk's block.
    pub open spec fn marks_local(a: &Self, b: &Self, coord: ChunkCoord) -> bool {
        forall|w: int| #[trigger]
            b.dirty_word(w) && !a.dirty_word(w) ==> b.pos_of(coord) == Some(w) || (TREE_BASE <= w && (
            forall|c: ChunkCoord|
                c != coord && #[trigger] b.resident(c) ==> !(b.base_of(c) <= w < b.base_of(c)
                    + b.cap_of(c))))
    }

    /// Node `id` of chunk `c` does not stand in its block in `b` as it did in `a`: it is new, has
    /// another place or length, or reads otherwise.
    pub open spec fn rewritten(a: &Self, b: &Self, c: ChunkCoord, id: u32) -> bool {
        !(a.tree_of(c).dom().contains(id) && b.offset_of(c, id) == a.offset_of(c, id) && content_len(
            a.tree_of(c)[id],
        ) == content_len(b.tree_of(c)[id]) && forall|j: int|
            0 <= j < content_len(b.tree_of(c)[id]) ==> #[trigger] b.words()[b.base_of(c) + b.offset_of(
                c,
                id,
            ) + j] == a.words()[a.base_of(c) + a.offset_of(c, id) + j])
    }

    /// Word `w` is content of a reported node of chunk `c` that was rewritten from `a` to `b`.
    pub open spec fn path_word(
        a: &Self,
        b: &Self,
        c: ChunkCoord,
        nodes: Seq<(u8, u32)>,
        w: int,
    ) -> bool {
        exists|i: int|
            0 <= i < nodes.len() && b.node_word(c, (#[trigger] nodes[i]).1, w) && Self::rewritten(
                a,
                b,
                c,
                nodes[i].1,
            )
    }

    /// What is written or marked from `a` to `b` is content of reported nodes of chunk `coord` that
    /// were rewritten: a node that reads as before is neither written nor marked.
    pub open spec fn marks_path(a: &Self, b: &Self, coord: ChunkCoord, nodes: Seq<(u8, u32)>) -> bool {
        &&& forall|w: int| #[trigger]
            b.dirty_word(w) && !a.dirty_word(w) ==> Self::path_word(a, b, coord, nodes, w)
        &&& forall|w: int|
            0 <= w < a.words().len() && #[trigger] b.words()[w] != a.words()[w] ==> Self::path_word(
                a,
                b,
                coord,
                nodes,
                w,
            )
    }

    /// Nodes that were there in `a` and still are stand where they stood, and no free word of the
    /// block was taken.
    pub open spec fn keeps_places(a: &Self, b: &Self, c: ChunkCoord) -> bool {
        &&& b.base_of(c) == a.base_of(c)
        &&& b.cap_of(c) == a.cap_of(c)
        &&& forall|id: u32| #[trigger]
            a.tree_of(c).dom().contains(id) ==> b.offset_of(c, id) == a.offset_of(c, id)
        &&& forall|w: int| a.free_in(c).has(w) ==> #[trigger] b.free_in(c).has(w)
    }

    /// What working off the reported nodes does to the block of `coord`, which keeps its size where
    /// it ends in enough free words, or where every node fits in its place.
    pub open spec fn reworked(a: &Self, b: &Self, coord: ChunkCoord, nodes: Seq<(u8, u32)>) -> bool {
        &&& b.cap_of(coord) == a.cap_of(coord) ==> {
            &&& b.base_of(coord) == a.base_of(coord)
            &&& b.words().len() == a.words().len()
            &&& b.free_table() == a.free_table()
            &&& Self::marks_path(a, b, coord, nodes)
        }
        &&& tail_free(a.free_in(coord), a.cap_of(coord), 67 * nodes.len() as int) ==> b.cap_of(coord)
            == a.cap_of(coord)
        &&& fits_in_place(a.tree_of(coord), b.tree_of(coord), nodes) ==> Self::keeps_places(a, b, coord)
        &&& Self::placed_in_turn(a, b, coord, nodes)
    }

    /// The block of `c` with the tree region around it.
    pub open spec fn arena_of(&self, c: ChunkCoord) -> Arena {
        Arena {
            base: self.base_of(c),
            cap: self.cap_of(c),
            slots: self.blocks()[c].slots,
            free: free_set(self.free_in(c)),
            around: free_set(self.free_table()),
            len: self.words().len() as int,
        }
    }

    /// From `a` to `b` the reported nodes of `c` were given their places one after the other.
    pub open spec fn placed_in_turn(a: &Self, b: &Self, c: ChunkCoord, nodes: Seq<(u8, u32)>) -> bool {
        exists|steps: Seq<Arena>|
            {
                &&& #[trigger] entries_done(
                    steps,
                    a.tree_of(c),
                    b.tree_of(c),
                    nodes,
                    nodes.len() as int,
                )
                &&& steps[0] == (Arena {
                    slots: padded(a.blocks()[c].slots, b.blocks()[c].slots.len() as int),
                    ..a.arena_of(c)
                })
                &&& steps[nodes.len() as int] == b.arena_of(c)
            }
    }

    /// Blocks follow one another by coordinates, without free words.
    pub open spec fn in_key_order(&self) -> bool {
        &&& self.free_total() == 0
        &&& forall|c: ChunkCoord, d: ChunkCoord| #[trigger]
            self.resident(c) && #[trigger] self.resident(d) && lex_less(c.0, d.0) ==> self.base_of(c)
                < self.base_of(d)
    }

    /// From `a` to `b` blocks keep their order.
    pub open spec fn keeps_order(a: &Self, b: &Self) -> bool {
        forall|c: ChunkCoord, d: ChunkCoord| #[trigger]
            b.resident(c) && #[trigger] b.resident(d) && a.base_of(c) < a.base_of(d) ==> b.base_of(c)
                < b.base_of(d)
    }

    /// What is marked from `a` to `b` are blocks that moved and their index entries.
    pub open spec fn marks_moved(a: &Self, b: &Self) -> bool {
        forall|w: int| #[trigger]
            b.dirty_word(w) && !a.dirty_word(w) ==> exists|c: ChunkCoord| #[trigger]
                b.resident(c) && b.base_of(c) != a.base_of(c) && (b.pos_of(c) == Some(w) || b.base_of(c)
                    <= w < b.base_of(c) + b.cap_of(c))
    }

    /// Blocks of other chunks than `coord` read the same in `a` and `b`.
    pub open spec fn others_read(a: &Self, b: &Self, coord: ChunkCoord) -> bool {
        forall|c: ChunkCoord, w: int|
            c != coord && #[trigger] b.block_has(c, w) ==> b.words()[w] == a.words()[w]
    }

    /// The free words of the tree region once the block of `c` is given back.
    pub open spec fn free_without(&self, c: ChunkCoord) -> Set<int> {
        Set::new(|w: int| self.free_table().has(w) || self.block_has(c, w))
    }

    /// From `a` to `b` the block of `c` was installed anew because of a reported node that is not in the
    /// tree, once the nodes before it had been given their places.
    pub open spec fn replaced_in_turn(a: &Self, b: &Self, c: ChunkCoord, nodes: Seq<(u8, u32)>) -> bool {
        exists|steps: Seq<Arena>, n: int|
            {
                &&& 0 <= n < nodes.len()
                &&& !b.tree_of(c).dom().contains(nodes[n].1)
                &&& #[trigger] entries_done(steps, a.tree_of(c), b.tree_of(c), nodes, n)
                &&& steps[0] == (Arena {
                    slots: padded(a.blocks()[c].slots, b.blocks()[c].slots.len() as int),
                    ..a.arena_of(c)
                })
                &&& put_at(
                    steps[n].around.union(span(steps[n].base, steps[n].cap)),
                    steps[n].len,
                    b.cap_of(c),
                    b.base_of(c),
                    b.words().len() as int,
                )
            }
    }

    /// `m` is `a` with chunk `coord` brought up to date by report `dirty`.
    ///
    /// A chunk without content has no block. A block is brought up to date in place where the report
    /// allows it, else installed anew. Other blocks stay as they are, and only words that belong to the
    /// chunk are marked.
    pub open spec fn edited(
        a: &Self,
        m: &Self,
        g: &VolumeGrid,
        coord: ChunkCoord,
        dirty: &TreeDirty,
    ) -> bool {
        let tree = g.chunks.at(coord);
        &&& m.wf()
        &&& m.same_setup(a)
        &&& m.same_palette(a)
        &&& forall|c: ChunkCoord| #[trigger]
            m.resident(c) <==> (if c == coord {
                g.content(c)
            } else {
                a.resident(c)
            })
        &&& forall|c: ChunkCoord|
            c != coord && #[trigger] m.resident(c) ==> m.blocks()[c] == a.blocks()[c]
        &&& Self::others_read(a, m, coord)
        &&& Self::marks_writes(a, m)
        &&& Self::marks_changes(a, m)
        &&& Self::marks_local(a, m, coord)
        &&& if !g.content(coord) {
            &&& m.words().len() == a.words().len()
            &&& Self::writes_only(a, m, coord, 0)
            &&& forall|w: int| #[trigger]
                m.free_table().has(w) <==> a.free_table().has(w) || a.block_has(coord, w)
            &&& forall|w: int| #[trigger]
                m.dirty_word(w) && !a.dirty_word(w) ==> a.resident(coord) && m.pos_of(coord) == Some(w)
        } else if a.resident(coord) && !anew(dirty, &tree) {
            &&& m.tree_of(coord) == tree.model()
            &&& Self::reworked(a, m, coord, dirty.nodes@)
        } else {
            &&& m.laid_out(coord, &tree)
            &&& m.marked_whole(coord)
            &&& if !a.resident(coord) || dirty.reset {
                &&& put_at(
                    a.free_without(coord),
                    a.words().len() as int,
                    m.cap_of(coord),
                    m.base_of(coord),
                    m.words().len() as int,
                )
                &&& Self::writes_only(a, m, coord, tree.wire_len())
            } else {
                Self::replaced_in_turn(a, m, coord, dirty.nodes@)
            }
        }
    }

    /// `b` is `m`, or `m` packed where that is allowed and more than half of the tree region is free.
    pub open spec fn settled(m: &Self, b: &Self, allow_compact: bool) -> bool {
        if allow_compact && m.reserved() == 0 && 2 * m.free_total() > m.words().len() - TREE_BASE {
            Self::packed(m, b)
        } else {
            b.same_blocks(m)
        }
    }

    /// From `a` to `b` the block of `c` got another place or another size, or is new.
    pub open spec fn moved(a: &Self, b: &Self, c: ChunkCoord) -> bool {
        !a.resident(c) || b.base_of(c) != a.base_of(c) || b.cap_of(c) != a.cap_of(c)
    }

    /// Word `w` is the index entry of `c`, or a word of the tree region that no other block has.
    pub open spec fn near(&self, c: ChunkCoord, w: int) -> bool {
        self.pos_of(c) == Some(w) || (TREE_BASE <= w && forall|d: ChunkCoord|
            d != c && #[trigger] self.resident(d) ==> !self.block_has(d, w))
    }

    /// What is marked from `a` to `b` belongs to a block that moved or grew, is the index entry of a
    /// chunk whose block was given back, or is content of rewritten nodes among the reported ones of
    /// `coord`. With `whole`, the block of `coord` was installed anew, and all of it may be marked.
    pub open spec fn marks_edit(
        a: &Self,
        b: &Self,
        coord: ChunkCoord,
        whole: bool,
        nodes: Seq<(u8, u32)>,
    ) -> bool {
        forall|w: int| #[trigger]
            b.dirty_word(w) && !a.dirty_word(w) ==> {
                ||| exists|c: ChunkCoord| #[trigger]
                    b.resident(c) && Self::moved(a, b, c) && b.near(c, w)
                ||| !b.resident(coord) && b.pos_of(coord) == Some(w)
                ||| b.resident(coord) && whole && b.near(coord, w)
                ||| b.resident(coord) && Self::path_word(a, b, coord, nodes, w)
            }
    }

    /// From `a` to `b` the block of `c` stayed or moved down, and is otherwise as it was.
    pub open spec fn pushed_down(a: &Self, b: &Self, c: ChunkCoord) -> bool {
        &&& b.base_of(c) <= a.base_of(c)
        &&& b.blocks()[c] == (BlockModel { base: b.base_of(c), ..a.blocks()[c] })
        &&& Self::same_content(a, b, c)
    }

    /// The block of `c` reads the same in `a` and `b`, wherever it stands.
    pub open spec fn same_content(a: &Self, b: &Self, c: ChunkCoord) -> bool {
        forall|k: int|
            0 <= k < b.cap_of(c) ==> #[trigger] b.words()[b.base_of(c) + k] == a.words()[a.base_of(c) + k]
    }

    /// `b` is `a` with its blocks packed: they follow one another from the start of the tree region,
    /// in the order and with the content that they had, and nothing else is left there. Blocks that
    /// moved, and they alone, await an upload.
    pub open spec fn packed(a: &Self, b: &Self) -> bool {
        &&& b.free_total() == 0
        &&& forall|w: int| !#[trigger] b.free_table().has(w)
        &&& b.block_total() == a.block_total()
        &&& b.words().len() == TREE_BASE + a.block_total()
        &&& forall|c: ChunkCoord| #[trigger] b.resident(c) <==> a.resident(c)
        &&& forall|c: ChunkCoord| #[trigger]
            b.resident(c) ==> Self::pushed_down(a, b, c) && (b.base_of(c) != a.base_of(c)
                ==> b.dirty_word(b.pos_of(c)->0))
        &&& forall|c: ChunkCoord, w: int|
            b.base_of(c) != a.base_of(c) && #[trigger] b.block_has(c, w) ==> b.dirty_word(w)
        &&& forall|w: int| TREE_BASE <= w < b.words().len() ==> #[trigger] b.owned(w)
        &&& Self::keeps_order(a, b)
        &&& Self::marks_moved(a, b)
        &&& forall|w: int| #[trigger] a.dirty_word(w) && w < b.words().len() ==> b.dirty_word(w)
        &&& forall|p: int|
            0 <= p < TREE_BASE && #[trigger] b.words()[p] != a.words()[p] ==> b.dirty_word(p)
    }

    /// A step that changes neither blocks nor marks leaves local marks local.
    proof fn lemma_local_same(a: &Self, b: &Self, c: &Self, coord: ChunkCoord)
        requires
            Self::marks_local(a, b, coord),
            c.blocks() == b.blocks(),
            c.dirty_list() == b.dirty_list(),
            c.window_spec() == b.window_spec(),
        ensures
            Self::marks_local(a, c, coord),
    {
        Self::lemma_local_trans(a, b, c, coord);
    }

    /// Local marks of two steps add up when the other chunks' blocks stay.
    proof fn lemma_local_trans(a: &Self, b: &Self, c: &Self, coord: ChunkCoord)
        requires
            Self::marks_local(a, b, coord),
            Self::marks_local(b, c, coord),
            b.window_spec() == c.window_spec(),
            forall|d: ChunkCoord|
                d != coord && #[trigger] c.resident(d) ==> b.resident(d) && b.blocks()[d]
                    == c.blocks()[d],
        ensures
            Self::marks_local(a, c, coord),
    {
        assert forall|w: int| #[trigger] c.dirty_word(w) && !a.dirty_word(w) implies c.pos_of(coord)
            == Some(w) || (TREE_BASE <= w && (forall|d: ChunkCoord|
            d != coord && #[trigger] c.resident(d) ==> !(c.base_of(d) <= w < c.base_of(d) + c.cap_of(
                d,
            )))) by {
            if b.dirty_word(w) && b.pos_of(coord) != Some(w) {
                assert forall|d: ChunkCoord| d != coord && #[trigger] c.resident(d) implies !(c.base_of(d)
                    <= w < c.base_of(d) + c.cap_of(d)) by {
                    assert(b.resident(d));
                }
            }
        }
    }

    /// Other chunks than `c` keep their block state.
    spec fn others_kept(&self, o: &Self, c: ChunkCoord) -> bool {
        forall|d: ChunkCoord| d != c ==> (#[trigger] self.chunks.has(d) <==> o.chunks.has(d)) && (
        o.chunks.has(d) ==> self.chunks.at(d) == o.chunks.at(d))
    }

    /// Gives a held block back and clears its index entry.
    fn drop_block(
        &mut self,
        coord: ChunkCoord,
        base: usize,
        cap: usize,
        Ghost(r): Ghost<Regions>,
        Ghost(h): Ghost<int>,
    )
        requires
            old(self).frame_on(r),
            old(self).acct(h),
            r.dom().contains(coord),
            r[coord] == (base as int, cap as int),
        ensures
            final(self).frame_on(r.remove(coord)),
            final(self).acct(h - cap),
            final(self).same_rest(old(self)),
            final(self).free.total() == old(self).free.total() + cap,
            forall|w: int| #[trigger]
                final(self).free.has(w) <==> old(self).free.has(w) || base <= w < base + cap,
            final(self).words().len() == old(self).words().len(),
            forall|w: int|
                TREE_BASE <= w < old(self).words().len() ==> #[trigger] final(self).words()[w] == old(
                    self).words()[w],
            forall|p: int|
                0 <= p < TREE_BASE && #[trigger] final(self).words()[p] != old(self).words()[p]
                    ==> dirty_has(final(self).dirty_struct@, p),
            forall|w: int|
                dirty_has(old(self).dirty_struct@, w) ==> #[trigger] dirty_has(
                    final(self).dirty_struct@,
                    w,
                ),
            forall|w: int| #[trigger]
                dirty_has(final(self).dirty_struct@, w) ==> dirty_has(old(self).dirty_struct@, w)
                    || index_pos(old(self).origin, old(self).dims, coord.0) == Some(w),
    {
        let ghost f0 = self.free;
        let ghost b0 = self.buffers.b_struct@;
        proof {
            assert forall|w: int| base <= w < base + cap implies !f0.has(w) by {
                assert(in_region(r[coord], w));
            }
        }
        self.free.free_run(base, cap);
        let ip: usize = match chunk_index_pos(self.origin, self.dims, coord.0) {
            Some(p) => p,
            None => 0,
        };
        self.buffers.b_struct[ip] = 0;
        mark_words(&mut self.dirty_struct, ip, 1, Ghost(self.buffers.b_struct@.len() as int));
        proof {
            let q = r.remove(coord);
            let b1 = self.buffers.b_struct@;
            assert(index_pos(self.origin, self.dims, coord.0) == Some(ip as int));
            assert(dirty_has(self.dirty_struct@, ip as int));
            assert forall|c: ChunkCoord, w: int|
                q.dom().contains(c) && #[trigger] in_region(q[c], w) implies !#[trigger] self.free.has(
                w,
            ) by {
                assert(r.dom().contains(c) && in_region(r[c], w));
                assert(regions_apart(r[c], r[coord]));
            }
            assert forall|c: ChunkCoord| #[trigger] q.dom().contains(c) implies index_pos(
                self.origin,
                self.dims,
                c.0,
            ) is Some && b1[index_pos(self.origin, self.dims, c.0)->0] == q[c].0 + 1 by {
                assert(r.dom().contains(c));
                lemma_index_pos(self.origin, self.dims, c.0, coord.0);
            }
            assert forall|c: ChunkCoord, d: ChunkCoord| #[trigger]
                q.dom().contains(c) && #[trigger] q.dom().contains(d) && c != d implies regions_apart(
                q[c],
                q[d],
            ) by {
                assert(r.dom().contains(c) && r.dom().contains(d));
            }
            assert forall|p: int| 0 <= p < TREE_BASE && #[trigger] b1[p] != 0 implies exists|
                c: ChunkCoord,
            | #[trigger]
                q.dom().contains(c) && index_pos(self.origin, self.dims, c.0) == Some(p) by {
                assert(b0[p] != 0);
                let c = choose|c: ChunkCoord| #[trigger]
                    r.dom().contains(c) && index_pos(self.origin, self.dims, c.0) == Some(p);
                assert(c != coord);
                assert(q.dom().contains(c));
            }
        }
    }

    /// Blocks of other chunks than `coord` hold their trees in `b`.
    spec fn blocks_ok(&self) -> bool {
        forall|c: ChunkCoord| #[trigger]
            self.chunks.has(c) ==> self.chunks.at(c).block_ok(self.buffers.b_struct@)
    }

    /// Gives a chunk a new block with its whole tree.
    #[verifier::rlimit(50)]
    #[verifier::spinoff_prover]
    fn install_chunk(&mut self, coord: ChunkCoord, tree: &ChunkTree)
        requires
            old(self).wf(),
            !old(self).chunks.has(coord),
            index_pos(old(self).origin, old(self).dims, coord.0) is Some,
            tree.wf(),
            old(self).can_take(block_words(tree.wire_len())),
        ensures
            final(self).wf(),
            final(self).others_kept(old(self), coord),
            final(self).chunks.has(coord),
            final(self).tree_of(coord) == tree.model(),
            final(self).cap_of(coord) == block_words(tree.wire_len()),
            caps(final(self).chunks.items()) == caps(old(self).chunks.items()) + final(self).cap_of(
                coord,
            ),
            final(self).chunks.items().len() == old(self).chunks.items().len() + 1,
            final(self).origin == old(self).origin,
            final(self).dims == old(self).dims,
            final(self).rejected_chunks == old(self).rejected_chunks,
            final(self).dirty_palette == old(self).dirty_palette,
            final(self).palette_synced_at == old(self).palette_synced_at,
            final(self).reserve == old(self).reserve,
            final(self).buffers.b_palette == old(self).buffers.b_palette,
            final(self).buffers.globals == old(self).buffers.globals,
            Self::marks_changes(old(self), final(self)),
            old(self).words().len() <= final(self).words().len(),
            old(self).has_room(final(self).cap_of(coord)) ==> final(self).words().len() == old(
                self).words().len(),
            !old(self).has_room(final(self).cap_of(coord)) ==> final(self).words().len() == old(
                self).words().len() + final(self).cap_of(coord),
            final(self).free.total() == old(self).free.total() - (if old(self).has_room(
                final(self).cap_of(coord),
            ) {
                final(self).cap_of(coord)
            } else {
                0
            }),
            first_place(
                old(self).free,
                old(self).words().len() as int,
                final(self).cap_of(coord),
                final(self).base_of(coord),
            ),
            forall|w: int| #[trigger]
                final(self).free.has(w) <==> old(self).free.has(w) && !(final(self).base_of(coord) <= w
                    < final(self).base_of(coord) + final(self).cap_of(coord)),
            Self::marks_local(old(self), final(self), coord),
            final(self).laid_out(coord, tree),
            final(self).marked_whole(coord),
            Self::marks_writes(old(self), final(self)),
            Self::others_read(old(self), final(self), coord),
            Self::writes_only(old(self), final(self), coord, tree.wire_len()),
    {
        let (blob, nodes) = tree.serialize_with_layout();
        let need: usize = blob.len();
        let ghost m = tree.model();
        let ghost r = self.regions();
        proof {
            if self.has_room(block_words(tree.wire_len())) {
                let n = block_words(tree.wire_len());
                let t = choose|t: int| self.free_table().fits_at(t, n);
                assert(self.free.has(t) && self.free.has(t + n - 1));
            }
        }
        let cap: usize = need + need / 4 + ROOT_WIRE_WORDS + 16;
        let base: usize = self.alloc_block(cap, Ghost(r), Ghost(0));
        let ghost b1 = self.buffers.b_struct@;
        let ghost o1 = *self;
        store(&mut self.buffers.b_struct, base, &blob);
        let mut free: FreeRuns = FreeRuns::new();
        free.free_run(need, cap - need);
        let ip: usize = match chunk_index_pos(self.origin, self.dims, coord.0) {
            Some(p) => p,
            None => 0,
        };
        self.buffers.b_struct[ip] = base as u32 + 1;
        let slot: ChunkSlot = ChunkSlot { base, cap, free, nodes, tree: Ghost(m) };
        let ghost b2 = self.buffers.b_struct@;
        proof {
            assert(slot.block_ok(b2)) by {
                assert forall|id: u32| #[trigger] m.dom().contains(id) implies id < slot.nodes@.len()
                    && slot.nodes@[id as int].words == room(id, m[id]) && node_at(
                    b2,
                    base + slot.nodes@[id as int].off,
                    m[id],
                    slot.nodes@,
                ) by {
                    lemma_room_bound(id, m[id]);
                    let off = slot.nodes@[id as int].off;
                    assert(node_at(blob@, 0 + off, m[id], slot.nodes@));
                    assert forall|k: int| 0 <= k < content_len(m[id]) implies #[trigger] b2[base + off
                        + k] == wire_word(m[id], slot.nodes@, k) by {
                        assert(blob@[0 + off + k] == wire_word(m[id], slot.nodes@, k));
                        assert(b2[base + off + k] == blob@[off + k]);
                    }
                }
                assert(m.dom().contains(0));
            }
        }
        self.chunks.insert(coord, slot);
        mark_words(&mut self.dirty_struct, ip, 1, Ghost(self.buffers.b_struct@.len() as int));
        let ghost d1 = self.dirty_struct@;
        mark_words(&mut self.dirty_struct, base, need, Ghost(self.buffers.b_struct@.len() as int));
        proof {
            let o = *old(self);
            let q = r.insert(coord, (base as int, cap as int));
            assert(self.regions() =~= q);
            let it = o.chunks.items();
            let i = choose|i: int|
                0 <= i <= it.len() && self.chunks.items() == #[trigger] it.insert(i, (coord, slot));
            lemma_caps_insert(it, i, (coord, slot));
            assert(index_pos(self.origin, self.dims, coord.0) == Some(ip as int));
            self.lemma_added(o1, r, coord, base as int, cap as int, ip as int);
            assert forall|c: ChunkCoord| #[trigger] self.chunks.has(c) implies self.chunks.at(
                c,
            ).block_ok(b2) by {
                if c != coord {
                    assert(o.chunks.has(c));
                    let s = o.chunks.at(c);
                    assert(r.dom().contains(c));
                    assert(s.block_ok(o.buffers.b_struct@));
                    assert(regions_apart(r[c], (base as int, cap as int)));
                    lemma_block_frame(s, o.buffers.b_struct@, b2);
                }
            }
            assert forall|w: int| dirty_has(o.dirty_struct@, w) implies #[trigger] dirty_has(
                self.dirty_struct@,
                w,
            ) by {
                assert(dirty_has(d1, w));
            }
            assert(dirty_has(d1, ip as int));
            assert forall|c: ChunkCoord, w: int|
                self.chunks.has(c) && c != coord && #[trigger] self.in_block(c, w) implies self.words()[w]
                == o.words()[w] by {
                assert(o.chunks.has(c));
                assert(r.dom().contains(c));
                assert(regions_apart(r[c], (base as int, cap as int)));
            }
            assert forall|id: u32, w: int| #[trigger] self.node_word(coord, id, w) implies self.dirty_word(
                w,
            ) by {
                lemma_room_bound(id, m[id]);
                assert(slot.nodes@[id as int].off + slot.nodes@[id as int].words <= need);
            }
            self.lemma_marks(&o, coord);
            assert(self.cap_of(coord) == cap);
            assert forall|w: int|
                0 <= w < tree.wire_len() && !is_content(tree.layout(), tree.model(), w) implies #[trigger] self.words()[
            self.base_of(coord) + w] == 0 by {
                assert(blob@[w] == 0);
                assert(b2[base + w] == blob@[w]);
            }
            assert forall|w: int|
                0 <= w < o.words().len() && #[trigger] self.words()[w] != o.words()[w] implies self.dirty_word(
                w,
            ) by {
                if w != ip {
                    assert(b1[w] == o.words()[w]);
                    assert(base <= w < base + need);
                }
            }
        }
    }

    /// The frame holds with one more block and its index entry.
    proof fn lemma_added(
        &self,
        o: Self,
        r: Regions,
        coord: ChunkCoord,
        base: int,
        cap: int,
        ip: int,
    )
        requires
            o.frame_on(r),
            !r.dom().contains(coord),
            index_pos(o.origin, o.dims, coord.0) == Some(ip),
            TREE_BASE <= base,
            67 <= cap,
            base + cap <= o.buffers.b_struct@.len(),
            forall|w: int| base <= w < base + cap ==> !#[trigger] o.free.has(w),
            forall|c: ChunkCoord| #[trigger] r.dom().contains(c) ==> regions_apart(r[c], (base, cap)),
            self.chunks.wf(),
            self.free == o.free,
            self.origin == o.origin,
            self.dims == o.dims,
            self.dirty_palette == o.dirty_palette,
            self.buffers.b_palette == o.buffers.b_palette,
            self.buffers.globals == o.buffers.globals,
            dirty_ok(self.dirty_struct@, self.buffers.b_struct@.len() as int),
            self.buffers.b_struct@.len() == o.buffers.b_struct@.len(),
            self.buffers.b_struct@[ip] == base + 1,
            forall|p: int|
                0 <= p < TREE_BASE && p != ip ==> #[trigger] self.buffers.b_struct@[p]
                    == o.buffers.b_struct@[p],
        ensures
            self.frame_on(r.insert(coord, (base, cap))),
    {
        let q = r.insert(coord, (base, cap));
        let b1 = o.buffers.b_struct@;
        let b2 = self.buffers.b_struct@;
        assert forall|c: ChunkCoord, w: int|
            q.dom().contains(c) && #[trigger] in_region(q[c], w) implies !#[trigger] self.free.has(w) by {
            if c != coord {
                assert(in_region(r[c], w));
            }
        }
        assert forall|c: ChunkCoord, d: ChunkCoord| #[trigger]
            q.dom().contains(c) && #[trigger] q.dom().contains(d) && c != d implies regions_apart(
            q[c],
            q[d],
        ) by {
            if c != coord && d != coord {
                assert(r.dom().contains(c) && r.dom().contains(d));
            } else if c != coord {
                assert(r.dom().contains(c));
            } else {
                assert(r.dom().contains(d));
            }
        }
        assert forall|c: ChunkCoord| #[trigger] q.dom().contains(c) implies index_pos(
            self.origin,
            self.dims,
            c.0,
        ) is Some && b2[index_pos(self.origin, self.dims, c.0)->0] == q[c].0 + 1 by {
            if c != coord {
                assert(r.dom().contains(c));
                lemma_index_pos(self.origin, self.dims, c.0, coord.0);
            }
        }
        assert forall|p: int| 0 <= p < TREE_BASE && #[trigger] b2[p] != 0 implies exists|
            c: ChunkCoord,
        | #[trigger]
            q.dom().contains(c) && index_pos(self.origin, self.dims, c.0) == Some(p) by {
            if p == ip {
                assert(q.dom().contains(coord));
            } else {
                assert(b1[p] != 0);
                let c = choose|c: ChunkCoord| #[trigger]
                    r.dom().contains(c) && index_pos(self.origin, self.dims, c.0) == Some(p);
                assert(q.dom().contains(c));
            }
        }
    }

    /// Brings a chunk's block up to date by rewriting the reported nodes.
    ///
    /// A report that names a node which is not in the tree falls back to a new installation.
    #[verifier::rlimit(50)]
    #[verifier::spinoff_prover]
    fn apply_node_dirty(&mut self, coord: ChunkCoord, tree: &ChunkTree, dirty: &TreeDirty)
        requires
            old(self).wf(),
            old(self).chunks.has(coord),
            tree.wf(),
            edit_ok(
                old(self).tree_of(coord),
                old(self).used_of(coord),
                tree.model(),
                dirty.nodes@,
            ),
            len_ok(
                edit_budget(
                    old(self).words().len() as int,
                    old(self).cap_of(coord),
                    dirty.nodes.len() as int,
                    tree.wire_len(),
                ),
            ),
        ensures
            final(self).wf(),
            final(self).others_kept(old(self), coord),
            final(self).chunks.has(coord),
            final(self).tree_of(coord) == tree.model(),
            final(self).chunks.items().len() == old(self).chunks.items().len(),
            final(self).origin == old(self).origin,
            final(self).dims == old(self).dims,
            final(self).rejected_chunks == old(self).rejected_chunks,
            final(self).dirty_palette == old(self).dirty_palette,
            final(self).palette_synced_at == old(self).palette_synced_at,
            final(self).reserve == old(self).reserve,
            final(self).buffers.b_palette == old(self).buffers.b_palette,
            final(self).buffers.globals == old(self).buffers.globals,
            Self::marks_changes(old(self), final(self)),
            old(self).words().len() <= final(self).words().len(),
            final(self).words().len() <= edit_budget(
                old(self).words().len() as int,
                old(self).cap_of(coord),
                dirty.nodes.len() as int,
                tree.wire_len(),
            ),
            Self::marks_local(old(self), final(self), coord),
            Self::marks_writes(old(self), final(self)),
            Self::others_read(old(self), final(self), coord),
            if all_present(tree.model(), dirty.nodes@) {
                Self::reworked(old(self), final(self), coord, dirty.nodes@)
            } else {
                final(self).laid_out(coord, tree) && final(self).marked_whole(coord)
                    && Self::replaced_in_turn(old(self), final(self), coord, dirty.nodes@)
            },
    {
        let ghost o = *self;
        let ghost r0 = self.regions();
        let ghost it0 = self.chunks.items();
        let ghost i0 = self.chunks.index_of(coord);
        let mut slot: ChunkSlot = match self.chunks.remove(coord) {
            Some(s) => s,
            None => {
                return;
            },
        };
        let ghost s0 = slot;
        let ghost ctx = Batch {
            b0: o.words(),
            base0: slot.base as int,
            slots0: slot.nodes@,
            t0: slot.tree@,
            t1: tree.model(),
            list: dirty.nodes@,
        };
        let ghost c0 = slot.cap as int;
        let ghost kk = dirty.nodes@.len() as int;
        let ghost len0 = o.words().len() as int;
        proof {
            lemma_rooms_nonneg(tree.nodes@, tree.nodes@.len());
            lemma_caps_remove(it0, i0);
            assert(r0.dom().contains(coord));
            assert(self.regions().insert(coord, (slot.base as int, slot.cap as int)) =~= r0);
            assert(s0.block_ok(o.words()));
        }
        let ghost kept_chunks = self.chunks;
        while slot.nodes.len() < tree.node_capacity()
            invariant
                s0.nodes@.len() <= slot.nodes@.len(),
                forall|i: int| 0 <= i < s0.nodes@.len() ==> #[trigger] slot.nodes@[i] == s0.nodes@[i],
                forall|i: int|
                    s0.nodes@.len() <= i < slot.nodes@.len() ==> #[trigger] slot.nodes@[i] == (NodeSlot {
                        off: NODE_NONE,
                        words: 0,
                    }),
                slot.nodes@.len() <= s0.nodes@.len() || slot.nodes@.len() <= tree.nodes@.len(),
                slot.base == s0.base,
                slot.cap == s0.cap,
                slot.free == s0.free,
                slot.tree == s0.tree,
            decreases tree.nodes.len() - slot.nodes.len(),
        {
            slot.nodes.push(NodeSlot { off: NODE_NONE, words: 0 });
        }
        let ghost mut own = s0.tree@.dom();
        proof {
            assert(slot.block_ok(o.words())) by {
                lemma_more_slots(s0, slot, o.words());
            }
            assert(ctx.ok());
            ctx.lemma_start(o.words(), self.dirty_struct@, slot);
        }
        let ghost mut prev: int = 0;
        let ghost mut since: int = 0;
        let ghost start = self.arena(slot);
        let ghost mut steps: Seq<Arena> = seq![start];
        proof {
            assert(start.slots =~= padded(s0.nodes@, slot.nodes@.len() as int));
            assert(start.slots =~= padded(s0.nodes@, tree.nodes@.len() as int));
        }
        let mut k: usize = 0;
        while k < dirty.nodes.len()
            invariant
                k <= kk,
                kk == dirty.nodes@.len(),
                tree.wf(),
                ctx.ok(),
                ctx.t1 == tree.model(),
                ctx.t0 == s0.tree@,
                ctx.list == dirty.nodes@,
                ctx.b0 == o.words(),
                ctx.base0 == s0.base,
                ctx.slots0 == s0.nodes@,
                o == *old(self),
                o.wf(),
                o.chunks.has(coord),
                s0 == o.chunks.at(coord),
                len0 == o.words().len(),
                c0 == s0.cap,
                c0 >= 67,
                slot.tree == s0.tree,
                ctx.mid(k as int, self.words(), self.dirty_struct@, slot, own),
                self.chunks == kept_chunks,
                kept_chunks.wf(),
                forall|c: ChunkCoord| #[trigger] kept_chunks.has(c) <==> o.chunks.has(c) && c != coord,
                forall|c: ChunkCoord| kept_chunks.has(c) ==> #[trigger] kept_chunks.at(c) == o.chunks.at(c),
                kept_chunks.items() == o.chunks.items().remove(o.chunks.index_of(coord)),
                self.origin == o.origin,
                self.dims == o.dims,
                self.rejected_chunks == o.rejected_chunks,
                self.dirty_palette == o.dirty_palette,
                self.palette_synced_at == o.palette_synced_at,
                self.reserve == o.reserve,
                self.buffers.b_palette == o.buffers.b_palette,
                self.buffers.globals == o.buffers.globals,
                self.frame_on(
                    self.regions().insert(coord, (slot.base as int, slot.cap as int)),
                ),
                self.acct(slot.cap as int),
                forall|c: ChunkCoord| #[trigger]
                    self.chunks.has(c) ==> self.chunks.at(c).block_ok(self.words()),
                forall|c: ChunkCoord, w: int|
                    self.chunks.has(c) && #[trigger] self.in_block(c, w) ==> self.words()[w]
                        == o.words()[w],
                forall|p: int|
                    0 <= p < TREE_BASE && #[trigger] self.words()[p] != o.words()[p] ==> dirty_has(
                        self.dirty_struct@,
                        p,
                    ),
                forall|w: int|
                    dirty_has(o.dirty_struct@, w) ==> #[trigger] dirty_has(self.dirty_struct@, w),
                // marks
                forall|w: int| #[trigger]
                    dirty_has(self.dirty_struct@, w) && !dirty_has(o.dirty_struct@, w) ==> index_pos(
                        o.origin,
                        o.dims,
                        coord.0,
                    ) == Some(w) || (TREE_BASE <= w && (forall|c: ChunkCoord| #[trigger]
                        kept_chunks.has(c) ==> !self.in_block(c, w))),
                c0 <= slot.cap,
                slot.cap == c0 ==> slot.base == s0.base && self.free == o.free && self.words().len()
                    == len0 && forall|w: int| #[trigger]
                    touched(o.words(), o.dirty_struct@, self.words(), self.dirty_struct@, w) ==> exists|
                        i: int,
                    |
                        0 <= i < k && node_place(slot, ctx.t1, (#[trigger] dirty.nodes@[i]).1, w)
                            && renewed(
                            ctx.b0,
                            ctx.base0,
                            ctx.slots0,
                            ctx.t0,
                            self.words(),
                            slot,
                            ctx.t1,
                            dirty.nodes@[i].1,
                        ),
                forall|w: int|
                    0 <= w < len0 && #[trigger] self.words()[w] != o.words()[w] ==> dirty_has(
                        self.dirty_struct@,
                        w,
                    ),
                tail_free(s0.free, c0, 67 * kk) ==> slot.cap == c0 && tail_free(
                    slot.free,
                    c0,
                    67 * (kk - k),
                ),
                fits_in_place(ctx.t0, ctx.t1, dirty.nodes@) ==> slot.cap == c0 && (forall|x: u32|
                    #[trigger]
                    ctx.t0.dom().contains(x) ==> slot.nodes@[x as int].off == s0.nodes@[x as int].off)
                    && forall|w: int| s0.free.has(w) ==> #[trigger] slot.free.has(w),
                entries_done(steps, ctx.t0, ctx.t1, dirty.nodes@, k as int),
                steps[0] == start,
                steps[k as int] == self.arena(slot),
                slot.nodes@.len() == start.slots.len(),
                start == (Arena {
                    slots: padded(s0.nodes@, tree.nodes@.len() as int),
                    ..o.arena_of(coord)
                }),
                // growth
                slot.cap == c0 || (slot.cap == grown(prev) && 0 <= since <= k && 0 <= prev && tail_free(
                    slot.free,
                    slot.cap as int,
                    prev / 2 + 1 - 67 * since,
                )),
                slot.cap <= 2 * c0 + 302 * kk + 238,
                len0 <= self.words().len() <= len0 + 3 * slot.cap,
                len_ok(edit_budget(len0, c0, kk, tree.wire_len())),
                tree.wire_len() >= 0,
            decreases dirty.nodes.len() - k,
        {
            let (level, id) = dirty.nodes[k];
            let ghost before = *self;
            let ghost sb = slot;
            let ghost r = self.regions().insert(coord, (slot.base as int, slot.cap as int));
            proof {
                assert(r.dom().contains(coord));
            }
            match tree.node_view(id) {
                None => {
                    self.drop_block(coord, slot.base, slot.cap, Ghost(r), Ghost(slot.cap as int));
                    proof {
                        assert(r.remove(coord) =~= self.regions());
                        assert forall|c: ChunkCoord| #[trigger] self.chunks.has(c) implies self.chunks.at(
                            c,
                        ).block_ok(self.words()) by {
                            assert(r.dom().contains(c));
                            lemma_block_frame(self.chunks.at(c), before.words(), self.words());
                        }
                        assert forall|c: ChunkCoord, w: int|
                            self.chunks.has(c) && c != coord && #[trigger] self.in_block(c, w) implies self.words()[w]
                            == o.words()[w] by {
                            assert(before.in_block(c, w));
                            assert(r.dom().contains(c));
                        }
                        assert forall|p: int|
                            0 <= p < TREE_BASE && #[trigger] self.words()[p] != o.words()[p] implies dirty_has(
                            self.dirty_struct@,
                            p,
                        ) by {
                            if self.words()[p] == before.words()[p] {
                                assert(dirty_has(before.dirty_struct@, p));
                            }
                        }
                        self.lemma_marks(&o, coord);
                    }
                    let ghost mid = *self;
                    self.install_chunk(coord, tree);
                    proof {
                        let last = steps[k as int];
                        assert(free_set(mid.free) =~= last.around.union(span(last.base, last.cap)));
                        mid.lemma_room(self.cap_of(coord));
                        lemma_put_at(
                            mid.free,
                            mid.words().len() as int,
                            self.cap_of(coord),
                            self.base_of(coord),
                            self.words().len() as int,
                        );
                        assert(self.tree_of(coord) == ctx.t1);
                        assert(start == (Arena {
                            slots: padded(
                                o.blocks()[coord].slots,
                                self.blocks()[coord].slots.len() as int,
                            ),
                            ..o.arena_of(coord)
                        }));
                        assert(entries_done(
                            steps,
                            o.tree_of(coord),
                            self.tree_of(coord),
                            dirty.nodes@,
                            k as int,
                        ));
                        assert(Self::marks_writes(&o, &mid)) by {
                            assert forall|w: int| 0 <= w < len0 && #[trigger] mid.words()[w] != o.words()[w] implies mid.dirty_word(
                            w) by {
                                if mid.words()[w] == before.words()[w] {
                                    assert(dirty_has(before.dirty_struct@, w));
                                }
                            }
                            assert forall|w: int| #[trigger] o.dirty_word(w) implies mid.dirty_word(w) by {
                                assert(dirty_has(before.dirty_struct@, w));
                            }
                        }
                        Self::lemma_writes_trans(&o, &mid, self);
                        assert forall|c: ChunkCoord, w: int| c != coord && #[trigger] self.block_has(c, w) implies self.words()[w]
                            == o.words()[w] by {
                            assert(self.chunks.has(c) && mid.chunks.has(c));
                            assert(mid.in_block(c, w));
                        }
                        Self::lemma_marks_trans(&o, &mid, self);
                        assert forall|d: ChunkCoord| d != coord implies (#[trigger] self.chunks.has(d)
                            <==> o.chunks.has(d)) && (o.chunks.has(d) ==> self.chunks.at(d)
                            == o.chunks.at(d)) by {
                            assert(kept_chunks.has(d) <==> o.chunks.has(d));
                            if o.chunks.has(d) {
                                assert(kept_chunks.at(d) == o.chunks.at(d));
                            }
                        }
                        assert(o.chunks.items()[o.chunks.index_of(coord)].0 == coord);
                    }
                    return;
                },
                Some(view) => {
                    let Ghost(next) = self.rewrite_node(
                        coord,
                        &mut slot,
                        level,
                        id,
                        view,
                        Ghost(ctx),
                        Ghost(k as int),
                        Ghost(own),
                        Ghost(r),
                        Ghost(sb.cap as int),
                    );
                    let ghost own0 = own;
                    proof {
                        own = next;
                        let more = steps.push(self.arena(slot));
                        assert forall|i: int| 0 <= i < k + 1 implies entry_done(
                            #[trigger] more[i],
                            more[i + 1],
                            ctx.t0,
                            ctx.t1,
                            dirty.nodes@,
                            i,
                        ) by {
                            if i < k {
                                assert(entry_done(
                                    steps[i],
                                    steps[i + 1],
                                    ctx.t0,
                                    ctx.t1,
                                    dirty.nodes@,
                                    i,
                                ));
                            }
                        }
                        steps = more;
                        let r2 = r.insert(coord, (slot.base as int, slot.cap as int));
                        assert(r2 =~= self.regions().insert(coord, (slot.base as int, slot.cap as int)));
                        assert forall|c: ChunkCoord, w: int|
                            self.chunks.has(c) && #[trigger] self.in_block(c, w) implies self.words()[w]
                            == before.words()[w] by {
                            assert(r2.dom().contains(c) && r2.dom().contains(coord));
                            assert(regions_apart(r2[c], r2[coord]));
                            assert(r.dom().contains(c));
                        }
                        assert forall|c: ChunkCoord| #[trigger] self.chunks.has(c) implies self.chunks.at(
                            c,
                        ).block_ok(self.words()) by {
                            let s = self.chunks.at(c);
                            assert(s.block_ok(before.words()));
                            assert forall|w: int| s.base <= w < s.base + s.cap implies #[trigger] self.words()[w]
                                == before.words()[w] by {
                                assert(self.in_block(c, w));
                            }
                            lemma_block_frame(s, before.words(), self.words());
                        }
                        assert forall|c: ChunkCoord, w: int|
                            self.chunks.has(c) && #[trigger] self.in_block(c, w) implies self.words()[w]
                            == o.words()[w] by {
                            assert(before.in_block(c, w));
                        }
                        assert forall|p: int|
                            0 <= p < TREE_BASE && #[trigger] self.words()[p] != o.words()[p] implies dirty_has(
                            self.dirty_struct@,
                            p,
                        ) by {
                            if self.words()[p] == before.words()[p] {
                                assert(dirty_has(before.dirty_struct@, p));
                            }
                        }
                        assert forall|w: int| #[trigger]
                            dirty_has(self.dirty_struct@, w) && !dirty_has(o.dirty_struct@, w) implies index_pos(
                            o.origin,
                            o.dims,
                            coord.0,
                        ) == Some(w) || (TREE_BASE <= w && (forall|c: ChunkCoord| #[trigger]
                            kept_chunks.has(c) ==> !self.in_block(c, w))) by {
                            if dirty_has(before.dirty_struct@, w) {
                                assert forall|c: ChunkCoord| #[trigger]
                                    kept_chunks.has(c) && !before.in_block(c, w) implies !self.in_block(
                                    c,
                                    w,
                                ) by {}
                            } else if index_pos(o.origin, o.dims, coord.0) != Some(w) {
                                assert(in_region(r2[coord], w));
                                assert forall|c: ChunkCoord| #[trigger] kept_chunks.has(c) implies !self.in_block(
                                    c,
                                    w,
                                ) by {
                                    assert(r2.dom().contains(c) && r2.dom().contains(coord));
                                    assert(regions_apart(r2[c], r2[coord]));
                                }
                            }
                        }
                        assert forall|w: int|
                            0 <= w < len0 && #[trigger] self.words()[w] != o.words()[w] implies dirty_has(
                            self.dirty_struct@,
                            w,
                        ) by {
                            if self.words()[w] == before.words()[w] {
                                assert(dirty_has(before.dirty_struct@, w));
                            }
                        }
                        if tail_free(s0.free, c0, 67 * kk) {
                            assert(tail_free(sb.free, c0, 67 * (kk - k)));
                            if slot.cap != c0 {
                                assert(tail_free(sb.free, sb.cap as int, 67));
                            }
                        }
                        if fits_in_place(ctx.t0, ctx.t1, dirty.nodes@) {
                            assert(ctx.t0.dom().contains(dirty.nodes@[k as int].1));
                            assert(own0.contains(id));
                            if ctx.seen(k as int, id) {
                                assert(ctx.done(k as int, id));
                                assert(ctx.new_node(before.words(), before.dirty_struct@, sb, own0, id));
                            } else {
                                assert(ctx.old_node(before.words(), before.dirty_struct@, sb, id));
                            }
                        }
                        if slot.cap == c0 {
                            assert(sb.cap == c0);
                            Self::lemma_path_step(
                                &o,
                                &before,
                                self,
                                ctx,
                                k as int,
                                s0,
                                sb,
                                slot,
                                own0,
                                own,
                            );
                        }
                        if slot.cap == sb.cap {
                            since = since + 1;
                            if slot.cap != c0 {
                                assert(tail_free(sb.free, sb.cap as int, prev / 2 + 1 - 67 * (since - 1)));
                            }
                        } else {
                            if sb.cap != c0 {
                                if prev / 2 + 1 - 67 * since >= 67 {
                                    assert forall|w: int| sb.cap - 67 <= w < sb.cap implies #[trigger] sb.free.has(
                                    w) by {}
                                }
                                assert(prev <= 134 * kk + 1);
                            }
                            prev = sb.cap as int;
                            since = 0;
                        }
                    }
                },
            }
            k += 1;
        }
        proof {
            ctx.lemma_end(self.words(), self.dirty_struct@, slot, own);
        }
        let ghost sl = slot;
        slot.tree = Ghost(tree.model());
        let ghost fin = slot;
        let ghost pre = *self;
        self.chunks.insert(coord, slot);
        proof {
            let q = self.regions();
            assert(q =~= kept_chunks_regions(kept_chunks).insert(
                coord,
                (fin.base as int, fin.cap as int),
            ));
            let it = kept_chunks.items();
            let i = choose|i: int|
                0 <= i <= it.len() && self.chunks.items() == #[trigger] it.insert(i, (coord, fin));
            lemma_caps_insert(it, i, (coord, fin));
            assert(fin.block_ok(self.words()));
            assert forall|c: ChunkCoord, w: int|
                self.chunks.has(c) && c != coord && #[trigger] self.in_block(c, w) implies self.words()[w]
                == o.words()[w] by {
                assert(pre.chunks.has(c) && pre.in_block(c, w));
            }
            assert forall|c: ChunkCoord, w: int| c != coord && #[trigger] self.block_has(c, w) implies self.words()[w]
                == o.words()[w] by {
                assert(self.chunks.has(c));
                assert(self.in_block(c, w));
            }
            assert forall|id: u32, w: int| #[trigger]
                self.node_word(coord, id, w) && !self.dirty_word(w) implies o.node_word(coord, id, w)
                && self.words()[w] == o.words()[w] by {
                assert(ctx.done(kk, id));
                assert(ctx.t1.dom().contains(id));
                assert(ctx.new_node(self.words(), self.dirty_struct@, sl, own, id));
                assert(ctx.word_new(self.words(), self.dirty_struct@, sl, id, w));
            }
            self.lemma_marks(&o, coord);
            let nodes = dirty.nodes@;
            assert(Self::placed_in_turn(&o, self, coord, nodes)) by {
                assert(self.arena_of(coord) == pre.arena(sl));
                assert(start == (Arena {
                    slots: padded(
                        o.blocks()[coord].slots,
                        self.blocks()[coord].slots.len() as int,
                    ),
                    ..o.arena_of(coord)
                }));
                assert(entries_done(steps, o.tree_of(coord), self.tree_of(coord), nodes, kk));
            }
            if fin.cap == c0 {
                assert forall|w: int| #[trigger]
                    touched(o.words(), o.dirty_struct@, self.words(), self.dirty_struct@, w) implies Self::path_word(
                    &o,
                    self,
                    coord,
                    nodes,
                    w,
                ) by {
                    let i = choose|i: int|
                        0 <= i < kk && node_place(sl, ctx.t1, (#[trigger] nodes[i]).1, w) && renewed(
                            ctx.b0,
                            ctx.base0,
                            ctx.slots0,
                            ctx.t0,
                            self.words(),
                            sl,
                            ctx.t1,
                            nodes[i].1,
                        );
                    assert(self.node_word(coord, nodes[i].1, w));
                    assert(Self::rewritten(&o, self, coord, nodes[i].1));
                }
                assert forall|w: int| #[trigger] self.dirty_word(w) && !o.dirty_word(w) implies Self::path_word(
                    &o,
                    self,
                    coord,
                    nodes,
                    w,
                ) by {
                    assert(touched(o.words(), o.dirty_struct@, self.words(), self.dirty_struct@, w));
                }
                assert forall|w: int|
                    0 <= w < o.words().len() && #[trigger] self.words()[w] != o.words()[w] implies Self::path_word(
                    &o,
                    self,
                    coord,
                    nodes,
                    w,
                ) by {
                    assert(touched(o.words(), o.dirty_struct@, self.words(), self.dirty_struct@, w));
                }
            }
        }
    }

    /// Marks stay on rewritten nodes while the list of a block that keeps its place is worked off.
    #[verifier::rlimit(50)]
    #[verifier::spinoff_prover]
    proof fn lemma_path_step(
        o: &Self,
        a: &Self,
        b: &Self,
        ctx: Batch,
        k: int,
        s0: ChunkSlot,
        sa: ChunkSlot,
        sb: ChunkSlot,
        own0: Set<u32>,
        own: Set<u32>,
    )
        requires
            ctx.ok(),
            0 <= k < ctx.list.len(),
            ctx.b0 == o.words(),
            ctx.base0 == s0.base,
            ctx.slots0 == s0.nodes@,
            ctx.t0 == s0.tree@,
            s0.block_ok(o.words()),
            ctx.t1.dom().contains(ctx.list[k].1),
            sa.base == s0.base,
            sb.base == s0.base,
            sa.cap == sb.cap,
            ctx.mid(k, a.words(), a.dirty_struct@, sa, own0),
            ctx.mid(k + 1, b.words(), b.dirty_struct@, sb, own),
            sb.nodes@ == sa.nodes@.update(ctx.list[k].1 as int, sb.nodes@[ctx.list[k].1 as int]),
            ctx.seen(k, ctx.list[k].1) ==> sb.nodes@ == sa.nodes@ && b.words() == a.words()
                && b.dirty_struct == a.dirty_struct,
            b.words().len() == a.words().len(),
            a.words().len() == o.words().len(),
            forall|w: int|
                0 <= w < a.words().len() && #[trigger] b.words()[w] != a.words()[w] ==> node_place(
                    sb,
                    ctx.t1,
                    ctx.list[k].1,
                    w,
                ),
            sb.nodes@[ctx.list[k].1 as int].off == sa.nodes@[ctx.list[k].1 as int].off && (forall|i: int|
                0 <= i < content_len(ctx.t1[ctx.list[k].1]) ==> #[trigger] b.words()[sb.base
                    + sb.nodes@[ctx.list[k].1 as int].off + i] == a.words()[sb.base
                    + sb.nodes@[ctx.list[k].1 as int].off + i]) ==> b.dirty_struct == a.dirty_struct,
            forall|w: int| #[trigger]
                dirty_has(b.dirty_struct@, w) ==> dirty_has(a.dirty_struct@, w) || node_place(
                    sb,
                    ctx.t1,
                    ctx.list[k].1,
                    w,
                ),
            forall|w: int| #[trigger]
                touched(o.words(), o.dirty_struct@, a.words(), a.dirty_struct@, w) ==> exists|i: int|
                    0 <= i < k && node_place(sa, ctx.t1, (#[trigger] ctx.list[i]).1, w) && renewed(
                        ctx.b0,
                        ctx.base0,
                        ctx.slots0,
                        ctx.t0,
                        a.words(),
                        sa,
                        ctx.t1,
                        ctx.list[i].1,
                    ),
        ensures
            forall|w: int| #[trigger]
                touched(o.words(), o.dirty_struct@, b.words(), b.dirty_struct@, w) ==> exists|i: int|
                    0 <= i < k + 1 && node_place(sb, ctx.t1, (#[trigger] ctx.list[i]).1, w) && renewed(
                        ctx.b0,
                        ctx.base0,
                        ctx.slots0,
                        ctx.t0,
                        b.words(),
                        sb,
                        ctx.t1,
                        ctx.list[i].1,
                    ),
    {
        let id = ctx.list[k].1;
        assert forall|w: int| #[trigger]
            touched(o.words(), o.dirty_struct@, b.words(), b.dirty_struct@, w) implies exists|i: int|
            0 <= i < k + 1 && node_place(sb, ctx.t1, (#[trigger] ctx.list[i]).1, w) && renewed(
                ctx.b0,
                ctx.base0,
                ctx.slots0,
                ctx.t0,
                b.words(),
                sb,
                ctx.t1,
                ctx.list[i].1,
            ) by {
            if touched(o.words(), o.dirty_struct@, a.words(), a.dirty_struct@, w) {
                let i = choose|i: int|
                    0 <= i < k && node_place(sa, ctx.t1, (#[trigger] ctx.list[i]).1, w) && renewed(
                        ctx.b0,
                        ctx.base0,
                        ctx.slots0,
                        ctx.t0,
                        a.words(),
                        sa,
                        ctx.t1,
                        ctx.list[i].1,
                    );
                let x = ctx.list[i].1;
                assert(ctx.seen(k, x) && ctx.seen(k + 1, x));
                assert(ctx.seen(k + 1, id)) by {
                    assert(ctx.list[k].1 == id);
                }
                assert(ctx.t1.dom().contains(x));
                if x != id {
                    assert(ctx.done(k + 1, x) && ctx.done(k + 1, id));
                    assert(ctx.new_node(b.words(), b.dirty_struct@, sb, own, x));
                    assert(ctx.new_node(b.words(), b.dirty_struct@, sb, own, id));
                    lemma_room_bound(x, ctx.t1[x]);
                    lemma_room_bound(id, ctx.t1[id]);
                    assert(apart(sb.nodes@[x as int], sb.nodes@[id as int]));
                    assert forall|j: int| 0 <= j < content_len(ctx.t1[x]) implies #[trigger] b.words()[sb.base
                        + sb.nodes@[x as int].off + j] == a.words()[sa.base + sa.nodes@[x as int].off + j] by {}
                    if !renewed(
                        ctx.b0,
                        ctx.base0,
                        ctx.slots0,
                        ctx.t0,
                        b.words(),
                        sb,
                        ctx.t1,
                        x,
                    ) {
                        assert forall|j: int| 0 <= j < content_len(ctx.t1[x]) implies #[trigger] a.words()[sa.base
                            + sa.nodes@[x as int].off + j] == ctx.b0[ctx.base0
                            + ctx.slots0[x as int].off + j] by {
                            assert(b.words()[sb.base + sb.nodes@[x as int].off + j] == ctx.b0[ctx.base0
                                + ctx.slots0[x as int].off + j]);
                        }
                    }
                }
                assert(node_place(sb, ctx.t1, ctx.list[i].1, w));
            } else {
                assert(!ctx.seen(k, id));
                if !renewed(
                    ctx.b0,
                    ctx.base0,
                    ctx.slots0,
                    ctx.t0,
                    b.words(),
                    sb,
                    ctx.t1,
                    id,
                ) {
                    assert(own0.contains(id));
                    assert(ctx.old_node(a.words(), a.dirty_struct@, sa, id));
                    let at = sb.base + sb.nodes@[id as int].off;
                    assert(node_at(o.words(), s0.base + s0.nodes@[id as int].off, ctx.t0[id], s0.nodes@));
                    assert forall|i: int| 0 <= i < content_len(ctx.t1[id]) implies #[trigger] b.words()[sb.base
                        + sb.nodes@[id as int].off + i] == a.words()[sb.base + sb.nodes@[id as int].off
                        + i] by {
                        assert(a.words()[at + i] == wire_word(ctx.t0[id], ctx.slots0, i));
                        assert(o.words()[at + i] == wire_word(ctx.t0[id], ctx.slots0, i));
                    }
                    assert(b.words()[at + (w - at)] == a.words()[at + (w - at)]);
                    assert(false);
                }
                assert(node_place(sb, ctx.t1, ctx.list[k].1, w));
            }
        }
    }

    /// Word `w` is in the block of `c`.
    spec fn in_block(&self, c: ChunkCoord, w: int) -> bool {
        self.chunks.at(c).base <= w < self.chunks.at(c).base + self.chunks.at(c).cap
    }

    /// Marks follow the changes when only the block of `coord` differs.
    proof fn lemma_marks(&self, o: &Self, coord: ChunkCoord)
        requires
            forall|w: int|
                dirty_has(o.dirty_struct@, w) ==> #[trigger] dirty_has(self.dirty_struct@, w),
            forall|p: int|
                0 <= p < TREE_BASE && #[trigger] self.words()[p] != o.words()[p] ==> dirty_has(
                    self.dirty_struct@,
                    p,
                ),
            forall|c: ChunkCoord|
                c != coord && #[trigger] self.chunks.has(c) ==> o.chunks.has(c) && self.chunks.at(c)
                    == o.chunks.at(c) && self.chunks.at(c).block_ok(self.words()),
            forall|c: ChunkCoord, w: int|
                self.chunks.has(c) && c != coord && #[trigger] self.in_block(c, w) ==> self.words()[w]
                    == o.words()[w],
            forall|id: u32, w: int| #[trigger]
                self.node_word(coord, id, w) && !self.dirty_word(w) ==> o.node_word(coord, id, w)
                    && self.words()[w] == o.words()[w],
        ensures
            Self::marks_changes(o, self),
    {
        assert forall|w: int| #[trigger] self.live(w) && !self.dirty_word(w) implies o.live(w)
            && o.words()[w] == self.words()[w] by {
            if 0 <= w < TREE_BASE {
                assert(self.words()[w] == o.words()[w]);
            } else {
                let (c, id) = choose|c: ChunkCoord, id: u32| self.node_word(c, id, w);
                if c == coord {
                    assert(o.node_word(coord, id, w));
                } else {
                    let s = self.chunks.at(c);
                    assert(self.chunks.has(c));
                    lemma_room_bound(id, s.tree@[id]);
                    assert(self.in_block(c, w));
                    assert(o.node_word(c, id, w));
                }
            }
        }
    }

    /// Marks of two steps add up.
    pub proof fn lemma_marks_trans(a: &Self, b: &Self, c: &Self)
        requires
            Self::marks_changes(a, b),
            Self::marks_changes(b, c),
            a.wf(),
            b.wf(),
            c.wf(),
        ensures
            Self::marks_changes(a, c),
    {
        assert forall|w: int| #[trigger] c.live(w) && a.dirty_word(w) implies c.dirty_word(w) by {
            if !c.dirty_word(w) {
                assert(b.live(w));
                assert(b.dirty_word(w));
            }
        }
        assert forall|w: int| #[trigger] c.live(w) && !c.dirty_word(w) implies a.live(w) && a.words()[w]
            == c.words()[w] by {
            assert(b.live(w));
        }
    }

    /// Writes of two steps are marked when those of each are.
    pub proof fn lemma_writes_trans(a: &Self, b: &Self, c: &Self)
        requires
            Self::marks_writes(a, b),
            Self::marks_writes(b, c),
        ensures
            Self::marks_writes(a, c),
    {
        assert forall|w: int| 0 <= w < a.words().len() && #[trigger] c.words()[w] != a.words()[w] implies c.dirty_word(
        w) by {
            if b.words()[w] != a.words()[w] {
                assert(b.dirty_word(w));
            }
        }
        assert forall|w: int| #[trigger] a.dirty_word(w) implies c.dirty_word(w) by {
            assert(b.dirty_word(w));
        }
    }

    /// Two blocks have no word in common.
    pub proof fn lemma_apart(&self, c: ChunkCoord, d: ChunkCoord)
        requires
            self.wf(),
            self.resident(c),
            self.resident(d),
            c != d,
        ensures
            self.base_of(c) + self.cap_of(c) <= self.base_of(d) || self.base_of(d) + self.cap_of(d)
                <= self.base_of(c),
    {
        let r = self.regions();
        assert(r.dom().contains(c) && r.dom().contains(d));
        assert(regions_apart(r[c], r[d]));
    }

    /// A block lies in the tree region.
    pub proof fn lemma_block_bound(&self, c: ChunkCoord)
        requires
            self.wf(),
            self.resident(c),
        ensures
            TREE_BASE <= self.base_of(c),
            67 <= self.cap_of(c),
            self.base_of(c) + self.cap_of(c) <= self.words().len(),
    {
        assert(self.regions().dom().contains(c));
    }

    /// A block that keeps its words stays as it was laid out.
    proof fn lemma_laid_kept(a: &Self, b: &Self, c: ChunkCoord, tree: &ChunkTree)
        requires
            a.laid_out(c, tree),
            b.resident(c),
            b.blocks()[c] == a.blocks()[c],
            forall|w: int| #[trigger] a.block_has(c, w) ==> b.words()[w] == a.words()[w],
        ensures
            b.laid_out(c, tree),
    {
        lemma_rooms_nonneg(tree.nodes@, tree.nodes@.len());
        assert(b.base_of(c) == a.base_of(c) && b.cap_of(c) == a.cap_of(c));
        assert forall|w: int| #[trigger] b.free_in(c).has(w) <==> tree.wire_len() <= w < b.cap_of(c) by {
            assert(a.free_in(c).has(w) <==> tree.wire_len() <= w < a.cap_of(c));
        }
        assert forall|w: int|
            0 <= w < tree.wire_len() && !is_content(tree.layout(), tree.model(), w) implies #[trigger] b.words()[
        b.base_of(c) + w] == 0 by {
            assert(a.block_has(c, a.base_of(c) + w));
            assert(a.words()[a.base_of(c) + w] == 0);
        }
    }

    /// Blocks have a length.
    pub proof fn lemma_cap(&self, c: ChunkCoord)
        requires
            self.resident(c),
        ensures
            self.cap_of(c) >= 0,
    {
    }

    /// Live words are words.
    pub proof fn lemma_live_bound(&self, w: int)
        requires
            self.wf(),
            self.live(w),
        ensures
            0 <= w < self.words().len(),
    {
        if w >= TREE_BASE || w < 0 {
            let (c, id) = choose|c: ChunkCoord, id: u32| self.node_word(c, id, w);
            assert(self.chunks.has(c));
            let s = self.chunks.at(c);
            lemma_room_bound(id, s.tree@[id]);
        }
    }

    /// Gives a chunk's block back, if it has one.
    fn release_chunk(&mut self, coord: ChunkCoord)
        requires
            old(self).wf(),
        ensures
            final(self).wf(),
            final(self).others_kept(old(self), coord),
            !final(self).chunks.has(coord),
            !old(self).chunks.has(coord) ==> *final(self) == *old(self),
            old(self).chunks.has(coord) ==> final(self).chunks.items().len() + 1 == old(
                self).chunks.items().len() && final(self).free.total() == old(self).free.total()
                + old(self).cap_of(coord),
            final(self).origin == old(self).origin,
            final(self).dims == old(self).dims,
            final(self).rejected_chunks == old(self).rejected_chunks,
            final(self).dirty_palette == old(self).dirty_palette,
            final(self).palette_synced_at == old(self).palette_synced_at,
            final(self).reserve == old(self).reserve,
            final(self).buffers.b_palette == old(self).buffers.b_palette,
            final(self).buffers.globals == old(self).buffers.globals,
            Self::marks_changes(old(self), final(self)),
            final(self).words().len() == old(self).words().len(),
            old(self).chunks.has(coord) ==> forall|w: int| #[trigger]
                final(self).free.has(w) <==> old(self).free.has(w) || old(self).base_of(coord) <= w
                    < old(self).base_of(coord) + old(self).cap_of(coord),
            Self::marks_local(old(self), final(self), coord),
            Self::marks_writes(old(self), final(self)),
            forall|w: int|
                TREE_BASE <= w < old(self).words().len() ==> #[trigger] final(self).words()[w] == old(
                    self).words()[w],
            forall|w: int| #[trigger]
                final(self).dirty_word(w) && !old(self).dirty_word(w) ==> final(self).pos_of(coord)
                    == Some(w),
    {
        let ghost o = *self;
        let ghost r = self.regions();
        let ghost it0 = self.chunks.items();
        let ghost i0 = self.chunks.index_of(coord);
        match self.chunks.remove(coord) {
            None => {},
            Some(slot) => {
                proof {
                    lemma_caps_remove(it0, i0);
                    assert(r.dom().contains(coord));
                }
                self.drop_block(coord, slot.base, slot.cap, Ghost(r), Ghost(slot.cap as int));
                proof {
                    assert(r.remove(coord) =~= self.regions());
                    assert forall|c: ChunkCoord| #[trigger] self.chunks.has(c) implies self.chunks.at(
                        c,
                    ).block_ok(self.words()) by {
                        assert(o.chunks.has(c));
                        assert(r.dom().contains(c));
                        lemma_block_frame(o.chunks.at(c), o.words(), self.words());
                    }
                    assert forall|c: ChunkCoord, w: int|
                        self.chunks.has(c) && c != coord && #[trigger] self.in_block(c, w) implies self.words()[w]
                        == o.words()[w] by {
                        assert(o.chunks.has(c));
                        assert(r.dom().contains(c));
                    }
                    self.lemma_marks(&o, coord);
                }
            },
        }
    }

    /// Packs the blocks at the start of the tree region, in address order, and cuts the rest off.
    ///
    /// A region with a reserve keeps its length and is left alone. Blocks move down in ascending
    /// order of address, so a move never runs over a block that is still to move. Only blocks that
    /// moved await an upload.
    #[verifier::rlimit(50)]
    #[verifier::spinoff_prover]
    fn pack_blocks(&mut self)
        requires
            old(self).wf(),
        ensures
            final(self).wf(),
            old(self).reserve > 0 ==> *final(self) == *old(self),
            old(self).reserve == 0 ==> final(self).free.total() == 0 && final(self).words().len() == TREE_BASE
                + caps(old(self).chunks.items()),
            forall|c: ChunkCoord| #[trigger] final(self).chunks.has(c) <==> old(self).chunks.has(c),
            forall|c: ChunkCoord| #[trigger]
                final(self).chunks.has(c) ==> final(self).tree_of(c) == old(self).tree_of(c)
                    && final(self).cap_of(c) == old(self).cap_of(c) && final(self).used_of(c) == old(
                    self).used_of(c),
            final(self).chunks.items().len() == old(self).chunks.items().len(),
            final(self).origin == old(self).origin,
            final(self).dims == old(self).dims,
            final(self).rejected_chunks == old(self).rejected_chunks,
            final(self).dirty_palette == old(self).dirty_palette,
            final(self).palette_synced_at == old(self).palette_synced_at,
            final(self).reserve == old(self).reserve,
            final(self).buffers.b_palette == old(self).buffers.b_palette,
            final(self).buffers.globals == old(self).buffers.globals,
            Self::marks_changes(old(self), final(self)),
            old(self).reserve == 0 ==> Self::packed(old(self), final(self)),
            final(self).words().len() <= old(self).words().len(),
    {
        if self.reserve > 0 {
            return;
        }
        let ghost o = *self;
        let mut refs: Vec<BlockRef> = Vec::new();
        let n: usize = self.chunks.len();
        let mut i: usize = 0;
        while i < n
            invariant
                i <= n,
                n == self.chunks.items().len(),
                *self == o,
                refs.len() == i,
                forall|j: int|
                    0 <= j < i ==> (#[trigger] refs@[j]).at == j && refs@[j].base
                        == self.chunks.items()[j].1.base && refs@[j].cap == self.chunks.items()[j].1.cap,
                ref_caps(refs@) == caps(self.chunks.items().subrange(0, i as int)),
            decreases n - i,
        {
            let s: &ChunkSlot = &self.chunks.entry(i).1;
            let ghost before = refs@;
            refs.push(BlockRef { base: s.base, cap: s.cap, at: i });
            proof {
                assert(refs@.drop_last() =~= before);
                let it = self.chunks.items();
                assert(it.subrange(0, i + 1).drop_last() =~= it.subrange(0, i as int));
                assert(it.subrange(0, i + 1).last() == it[i as int]);
            }
            i += 1;
        }
        let order: Vec<BlockRef> = sorted(&refs);
        proof {
            assert(o.chunks.items().subrange(0, n as int) =~= o.chunks.items());
            lemma_same_items(refs@, order@);
            assert(refs@.no_duplicates()) by {
                assert forall|a: int, b: int| 0 <= a < refs@.len() && 0 <= b < refs@.len() && a != b implies refs@[a]
                    != refs@[b] by {
                    assert(refs@[a].at == a && refs@[b].at == b);
                }
            }
            lemma_same_distinct(refs@, order@);
            lemma_ref_caps_same(refs@, order@);
            assert forall|j: int| 0 <= j < order@.len() implies (#[trigger] order@[j]).at < n
                && order@[j] == refs@[order@[j].at as int] by {
                assert(order@.contains(order@[j]));
                assert(refs@.contains(order@[j]));
                let q = choose|q: int| 0 <= q < refs@.len() && refs@[q] == order@[j];
                assert(refs@[q].at == q);
            }
            assert forall|a: int, b: int| 0 <= a < b < order@.len() implies (#[trigger] order@[a]).at
                != (#[trigger] order@[b]).at by {
                assert(order@[a] != order@[b]);
            }
            assert forall|j: int| 0 <= j < n implies #[trigger] lists(order@, j) by {
                assert(refs@[j].at == j);
                assert(refs@.contains(refs@[j]));
                assert(order@.contains(refs@[j]));
                let p = choose|p: int| 0 <= p < order@.len() && order@[p] == refs@[j];
                assert(order@[p].at == j);
            }
        }
        self.free = FreeRuns::new();
        proof {
            assert(self.regions() =~= o.regions());
            assert forall|c: ChunkCoord| #[trigger] self.chunks.has(c) implies self.chunks.at(c).block_ok(
                self.words(),
            ) by {
                assert(o.chunks.has(c));
            }
            assert(order@.subrange(0, 0).len() == 0);
            // blocks in address order do not overlap
            assert forall|a: int, b: int| 0 <= a < b < order@.len() implies (#[trigger] order@[a]).base
                + order@[a].cap <= (#[trigger] order@[b]).base by {
                o.lemma_block_order(order@, a, b);
            }
            assert forall|j: int| 0 <= j < order@.len() implies TREE_BASE <= (#[trigger] order@[j]).base by {
                o.chunks.lemma_index(order@[j].at as int);
                assert(o.regions().dom().contains(o.chunks.items()[order@[j].at as int].0));
            }
        }
        let mut cursor: usize = TREE_BASE;
        let mut k: usize = 0;
        while k < order.len()
            invariant
                k <= order.len(),
                order@.len() == n,
                n == self.chunks.items().len(),
                self.frame_on(self.regions()),
                self.blocks_ok(),
                self.free.wf(),
                self.free.total() == 0,
                forall|w: int| !#[trigger] self.free.has(w),
                o.wf(),
                o.chunks.items().len() == n,
                self.words().len() == o.words().len(),
                TREE_BASE <= cursor <= self.words().len(),
                cursor == TREE_BASE + ref_caps(order@.subrange(0, k as int)),
                forall|j: int| 0 <= j < n ==> (#[trigger] order@[j]).at < n,
                forall|j: int|
                    0 <= j < n ==> (#[trigger] order@[j]).base
                        == o.chunks.items()[order@[j].at as int].1.base,
                forall|j: int| 0 <= j < n ==> #[trigger] lists(order@, j),
                forall|a: int, b: int|
                    0 <= a < b < order@.len() ==> (#[trigger] order@[a]).at != (#[trigger] order@[b]).at,
                forall|a: int, b: int|
                    0 <= a < b < order@.len() ==> (#[trigger] order@[a]).base + order@[a].cap <= (
                    #[trigger] order@[b]).base,
                forall|j: int|
                    0 <= j < n ==> {
                        let e = #[trigger] order@[j];
                        let s = self.chunks.items()[e.at as int].1;
                        &&& s.cap == e.cap
                        &&& j < k ==> s.base + s.cap <= cursor
                        &&& j >= k ==> s.base == e.base && cursor <= e.base
                    },
                forall|j: int|
                    0 <= j < n ==> {
                        let a = #[trigger] self.chunks.items()[j];
                        let b = o.chunks.items()[j];
                        &&& a.0 == b.0
                        &&& a.1.cap == b.1.cap
                        &&& a.1.nodes == b.1.nodes
                        &&& a.1.tree == b.1.tree
                        &&& a.1.free == b.1.free
                    },
                forall|a: int, b: int|
                    0 <= a < b < k ==> self.chunks.items()[(#[trigger] order@[a]).at as int].1.base
                        < self.chunks.items()[(#[trigger] order@[b]).at as int].1.base,
                forall|w: int| TREE_BASE <= w < cursor ==> #[trigger] self.covered(w),
                forall|j: int| 0 <= j < n ==> #[trigger] self.same_words(&o, j),
                forall|j: int|
                    0 <= j < n ==> (#[trigger] self.chunks.items()[j]).1.base
                        <= o.chunks.items()[j].1.base,
                // a block that stayed reads as before; one that moved is marked
                forall|j: int, w: int|
                    0 <= j < n && #[trigger] self.in_item(j, w) ==> dirty_has(self.dirty_struct@, w) || (
                    self.chunks.items()[j].1.base == o.chunks.items()[j].1.base && self.words()[w]
                        == o.words()[w]),
                forall|p: int|
                    0 <= p < TREE_BASE && #[trigger] self.words()[p] != o.words()[p] ==> dirty_has(
                        self.dirty_struct@,
                        p,
                    ),
                forall|w: int|
                    dirty_has(o.dirty_struct@, w) ==> #[trigger] dirty_has(self.dirty_struct@, w),
                forall|w: int| #[trigger]
                    dirty_has(self.dirty_struct@, w) && !dirty_has(o.dirty_struct@, w) ==> exists|j: int|
                        0 <= j < n && #[trigger] self.moved_word(&o, j, w),
                self.origin == o.origin,
                self.dims == o.dims,
                self.rejected_chunks == o.rejected_chunks,
                self.dirty_palette == o.dirty_palette,
                self.palette_synced_at == o.palette_synced_at,
                self.reserve == o.reserve,
                self.buffers.b_palette == o.buffers.b_palette,
                self.buffers.globals == o.buffers.globals,
            decreases order.len() - k,
        {
            let e: BlockRef = order[k];
            proof {
                assert(order@.subrange(0, k + 1).drop_last() =~= order@.subrange(0, k as int));
                assert(order@.subrange(0, k + 1).last() == order@[k as int]);
                self.chunks.lemma_index(e.at as int);
                assert(self.regions().dom().contains(self.chunks.items()[e.at as int].0));
            }
            let ghost before = *self;
            proof {
                assert forall|j: int| 0 <= j < n && j != e.at implies regions_apart(
                    (
                        (#[trigger] before.chunks.items()[j]).1.base as int,
                        before.chunks.items()[j].1.cap as int,
                    ),
                    (cursor as int, e.cap as int),
                ) by {
                    assert(lists(order@, j));
                    let p = choose|p: int| 0 <= p < order@.len() && (#[trigger] order@[p]).at == j;
                    assert(order@[p].cap == before.chunks.items()[j].1.cap);
                    if p > k {
                        assert(order@[k as int].base + order@[k as int].cap <= order@[p].base);
                    }
                }
                assert forall|j: int| k < j < n implies cursor + e.cap <= (#[trigger] order@[j]).base by {
                    assert(order@[k as int].base + order@[k as int].cap <= order@[j].base);
                }
            }
            proof {
                assert forall|a: int| 0 <= a < k implies before.chunks.items()[(
                #[trigger] order@[a]).at as int].1.base < cursor by {
                    before.chunks.lemma_index(order@[a].at as int);
                    assert(before.regions().dom().contains(
                        before.chunks.items()[order@[a].at as int].0,
                    ));
                }
            }
            if e.base != cursor {
                self.move_block(e.at, cursor);
            }
            proof {
                assert forall|j: int, w: int| 0 <= j < n && #[trigger] self.in_item(j, w) implies dirty_has(
                    self.dirty_struct@,
                    w,
                ) || (self.chunks.items()[j].1.base == o.chunks.items()[j].1.base && self.words()[w]
                    == o.words()[w]) by {
                    if j == e.at && e.base != cursor {
                    } else {
                        assert(self.chunks.items()[j] == before.chunks.items()[j]);
                        assert(before.in_item(j, w));
                        before.chunks.lemma_index(j);
                        assert(before.regions().dom().contains(before.chunks.items()[j].0));
                        assert(self.words()[w] == before.words()[w]);
                    }
                }
                assert forall|p: int|
                    0 <= p < TREE_BASE && #[trigger] self.words()[p] != o.words()[p] implies dirty_has(
                    self.dirty_struct@,
                    p,
                ) by {
                    if self.words()[p] == before.words()[p] {
                        assert(dirty_has(before.dirty_struct@, p));
                    }
                }
            }
            proof {
                assert forall|w: int| #[trigger]
                    dirty_has(self.dirty_struct@, w) && !dirty_has(o.dirty_struct@, w) implies exists|j: int|
                    0 <= j < n && #[trigger] self.moved_word(&o, j, w) by {
                    if dirty_has(before.dirty_struct@, w) {
                        let j = choose|j: int| 0 <= j < n && #[trigger] before.moved_word(&o, j, w);
                        assert(j != e.at || e.base == cursor) by {
                            if j == e.at {
                                assert(before.chunks.items()[j].1.base == e.base);
                                assert(o.chunks.items()[j].1.base == e.base);
                            }
                        }
                        assert(self.chunks.items()[j] == before.chunks.items()[j]);
                        assert(self.moved_word(&o, j, w));
                    } else {
                        assert(o.chunks.items()[e.at as int].1.base == e.base);
                        assert(self.moved_word(&o, e.at as int, w));
                    }
                }
            }
            proof {
                assert forall|w: int| TREE_BASE <= w < cursor + e.cap implies #[trigger] self.covered(w) by {
                    if w < cursor {
                        assert(before.covered(w));
                        let j = choose|j: int| 0 <= j < n && #[trigger] before.in_item(j, w);
                        if j == e.at {
                            assert(before.chunks.items()[j].1.base == e.base);
                        }
                        assert(self.chunks.items()[j] == before.chunks.items()[j]);
                        assert(self.in_item(j, w));
                    } else {
                        assert(self.in_item(e.at as int, w));
                    }
                }
                assert forall|j: int| 0 <= j < n implies #[trigger] self.same_words(&o, j) by {
                    assert(before.same_words(&o, j));
                    let (sa, sb) = (self.chunks.items()[j].1, before.chunks.items()[j].1);
                    assert forall|i: int| 0 <= i < sa.cap implies #[trigger] self.words()[sa.base + i]
                        == o.words()[o.chunks.items()[j].1.base + i] by {
                        assert(before.words()[sb.base + i] == o.words()[o.chunks.items()[j].1.base + i]);
                        if j != e.at {
                            before.chunks.lemma_index(j);
                            assert(before.regions().dom().contains(before.chunks.items()[j].0));
                        }
                    }
                }
            }
            cursor = cursor + e.cap;
            k += 1;
        }
        let ghost m = *self;
        self.buffers.b_struct.truncate(cursor);
        self.dirty_struct = clip_words(&self.dirty_struct, cursor, Ghost(m.words().len() as int));
        proof {
            assert(order@.subrange(0, n as int) =~= order@);
            assert forall|j: int| 0 <= j < m.chunks.items().len() implies (
            #[trigger] m.chunks.items()[j]).1.base + m.chunks.items()[j].1.cap <= cursor by {
                assert(lists(order@, j));
                let p = choose|p: int| 0 <= p < order@.len() && (#[trigger] order@[p]).at == j;
            }
            self.lemma_cut(&m, cursor as int);
            assert(caps(self.chunks.items()) == caps(o.chunks.items())) by {
                lemma_caps_equal(self.chunks.items(), o.chunks.items());
            }
            assert forall|c: ChunkCoord| #[trigger] self.chunks.has(c) <==> o.chunks.has(c) by {
                if self.chunks.has(c) {
                    assert(o.chunks.items()[self.chunks.index_of(c)].0 == c);
                }
                if o.chunks.has(c) {
                    assert(self.chunks.items()[o.chunks.index_of(c)].0 == c);
                }
            }
            assert forall|c: ChunkCoord| #[trigger] self.chunks.has(c) implies self.tree_of(c)
                == o.tree_of(c) && self.cap_of(c) == o.cap_of(c) && self.used_of(c) == o.used_of(c) by {
                let j = self.chunks.index_of(c);
                self.chunks.lemma_index(j);
                o.chunks.lemma_index(j);
            }
            assert forall|w: int| #[trigger] self.live(w) && !self.dirty_word(w) implies o.live(w)
                && o.words()[w] == self.words()[w] by {
                if 0 <= w < TREE_BASE {
                    assert(self.words()[w] == m.words()[w]);
                    if m.words()[w] != o.words()[w] {
                        assert(dirty_has(m.dirty_struct@, w));
                    }
                } else {
                    let (c, id) = choose|c: ChunkCoord, id: u32| self.node_word(c, id, w);
                    let j = self.chunks.index_of(c);
                    let s = self.chunks.items()[j].1;
                    assert(self.chunks.has(c));
                    self.chunks.lemma_index(j);
                    o.chunks.lemma_index(j);
                    lemma_room_bound(id, s.tree@[id]);
                    assert(m.in_item(j, w));
                    assert(!dirty_has(m.dirty_struct@, w));
                    assert(o.node_word(c, id, w));
                }
            }
            assert forall|c: ChunkCoord, d: ChunkCoord| #[trigger]
                self.resident(c) && #[trigger] self.resident(d) && o.base_of(c) < o.base_of(d) implies self.base_of(
                c,
            ) < self.base_of(d) by {
                let (x, y) = (self.chunks.index_of(c), self.chunks.index_of(d));
                self.chunks.lemma_index(x);
                self.chunks.lemma_index(y);
                o.chunks.lemma_index(x);
                o.chunks.lemma_index(y);
                assert(lists(order@, x) && lists(order@, y));
                let p = choose|p: int| 0 <= p < order@.len() && (#[trigger] order@[p]).at == x;
                let q = choose|q: int| 0 <= q < order@.len() && (#[trigger] order@[q]).at == y;
                if q < p {
                    assert(order@[q].base + order@[q].cap <= order@[p].base);
                }
            }
            assert forall|w: int| #[trigger] self.dirty_word(w) && !o.dirty_word(w) implies exists|
                c: ChunkCoord,
            | #[trigger]
                self.resident(c) && self.base_of(c) != o.base_of(c) && (self.pos_of(c) == Some(w)
                    || self.base_of(c) <= w < self.base_of(c) + self.cap_of(c)) by {
                assert(dirty_has(m.dirty_struct@, w));
                let j = choose|j: int| 0 <= j < n && #[trigger] m.moved_word(&o, j, w);
                self.chunks.lemma_index(j);
                o.chunks.lemma_index(j);
                assert(self.resident(self.chunks.items()[j].0));
            }
            assert forall|w: int| #[trigger] o.dirty_word(w) && w < self.words().len() implies self.dirty_word(
                w,
            ) by {
                assert(dirty_has(m.dirty_struct@, w));
            }
            assert forall|c: ChunkCoord| #[trigger] self.resident(c) implies self.base_of(c) <= o.base_of(c)
                && self.blocks()[c] == (BlockModel { base: self.base_of(c), ..o.blocks()[c] })
                && Self::same_content(&o, self, c) && (self.base_of(c) != o.base_of(c)
                ==> self.dirty_word(self.pos_of(c)->0)) by {
                let j = self.chunks.index_of(c);
                assert(self.chunks.has(c));
                self.chunks.lemma_index(j);
                o.chunks.lemma_index(j);
                assert(m.same_words(&o, j));
                assert(self.regions().dom().contains(c) && o.regions().dom().contains(c));
                assert forall|k: int| 0 <= k < self.cap_of(c) implies #[trigger] self.words()[self.base_of(c)
                    + k] == o.words()[o.base_of(c) + k] by {
                    assert(m.words()[m.chunks.items()[j].1.base + k] == o.words()[
                    o.chunks.items()[j].1.base + k]);
                }
                lemma_index_pos(self.origin, self.dims, c.0, c.0);
                if self.base_of(c) != o.base_of(c) {
                    let p = self.pos_of(c)->0;
                    assert(self.words()[p] == self.base_of(c) + 1);
                    assert(o.words()[p] == o.base_of(c) + 1);
                    assert(m.words()[p] == self.words()[p]);
                    assert(dirty_has(m.dirty_struct@, p));
                }
            }
            assert forall|c: ChunkCoord, w: int|
                self.base_of(c) != o.base_of(c) && #[trigger] self.block_has(c, w) implies self.dirty_word(
                w,
            ) by {
                let j = self.chunks.index_of(c);
                assert(self.chunks.has(c));
                self.chunks.lemma_index(j);
                o.chunks.lemma_index(j);
                assert(m.in_item(j, w));
                assert(self.regions().dom().contains(c));
            }
            assert forall|w: int| TREE_BASE <= w < self.words().len() implies #[trigger] self.owned(w) by {
                assert(m.covered(w));
                let j = choose|j: int| 0 <= j < n && #[trigger] m.in_item(j, w);
                self.chunks.lemma_index(j);
                assert(self.block_has(self.chunks.items()[j].0, w));
            }
            assert forall|p: int|
                0 <= p < TREE_BASE && #[trigger] self.words()[p] != o.words()[p] implies self.dirty_word(p) by {
                assert(m.words()[p] != o.words()[p]);
            }
        }
    }

    /// Word `w` is in the block of an entry.
    spec fn covered(&self, w: int) -> bool {
        exists|j: int| 0 <= j < self.chunks.items().len() && #[trigger] self.in_item(j, w)
    }

    /// Entry `j` has the words that it had in `o`.
    spec fn same_words(&self, o: &Self, j: int) -> bool {
        forall|i: int|
            0 <= i < self.chunks.items()[j].1.cap ==> #[trigger] self.words()[self.chunks.items()[j].1.base
                + i] == o.words()[o.chunks.items()[j].1.base + i]
    }

    /// Cutting off words beyond every block keeps the frame.
    proof fn lemma_cut(&self, m: &Self, cursor: int)
        requires
            m.frame_on(m.regions()),
            m.blocks_ok(),
            forall|w: int| !#[trigger] m.free.has(w),
            TREE_BASE <= cursor <= m.words().len(),
            forall|j: int|
                0 <= j < m.chunks.items().len() ==> (#[trigger] m.chunks.items()[j]).1.base
                    + m.chunks.items()[j].1.cap <= cursor,
            self.chunks == m.chunks,
            self.free == m.free,
            self.origin == m.origin,
            self.dims == m.dims,
            self.dirty_palette == m.dirty_palette,
            self.buffers.b_palette == m.buffers.b_palette,
            self.buffers.globals == m.buffers.globals,
            self.buffers.b_struct@ == m.buffers.b_struct@.subrange(0, cursor),
            dirty_ok(self.dirty_struct@, cursor),
        ensures
            self.frame_on(self.regions()),
            self.blocks_ok(),
    {
        let r = self.regions();
        assert(r =~= m.regions());
        let b = self.buffers.b_struct@;
        let b0 = m.buffers.b_struct@;
        assert forall|c: ChunkCoord| #[trigger] r.dom().contains(c) implies r[c].0 + r[c].1 <= cursor
            && index_pos(self.origin, self.dims, c.0) is Some && b[index_pos(
            self.origin,
            self.dims,
            c.0,
        )->0] == r[c].0 + 1 by {
            let j = m.chunks.index_of(c);
            assert(m.chunks.items()[j].0 == c);
            assert(m.regions().dom().contains(c));
            lemma_index_pos(self.origin, self.dims, c.0, c.0);
        }
        assert forall|p: int| 0 <= p < TREE_BASE && #[trigger] b[p] != 0 implies exists|
            c: ChunkCoord,
        | #[trigger]
            r.dom().contains(c) && index_pos(self.origin, self.dims, c.0) == Some(p) by {
            assert(b0[p] != 0);
        }
        assert forall|c: ChunkCoord| #[trigger] self.chunks.has(c) implies self.chunks.at(c).block_ok(b) by {
            assert(m.chunks.has(c));
            assert(r.dom().contains(c));
            lemma_block_frame(m.chunks.at(c), b0, b);
        }
    }

    /// Entry `j` has moved since `o`, and word `w` is its index entry or in its block.
    spec fn moved_word(&self, o: &Self, j: int, w: int) -> bool {
        &&& self.chunks.items()[j].1.base != o.chunks.items()[j].1.base
        &&& index_pos(self.origin, self.dims, self.chunks.items()[j].0.0) == Some(w) || self.in_item(
            j,
            w,
        )
    }

    /// Word `w` is in the block of entry `j`.
    spec fn in_item(&self, j: int, w: int) -> bool {
        self.chunks.items()[j].1.base <= w < self.chunks.items()[j].1.base + self.chunks.items()[j].1.cap
    }

    /// Blocks listed by address do not overlap.
    proof fn lemma_block_order(&self, order: Seq<BlockRef>, a: int, b: int)
        requires
            self.wf(),
            0 <= a < b < order.len(),
            ordered(order),
            order[a].at != order[b].at,
            forall|j: int|
                0 <= j < order.len() ==> (#[trigger] order[j]).at < self.chunks.items().len()
                    && order[j].base == self.chunks.items()[order[j].at as int].1.base && order[j].cap
                    == self.chunks.items()[order[j].at as int].1.cap,
        ensures
            order[a].base + order[a].cap <= order[b].base,
    {
        let (i, j) = (order[a].at as int, order[b].at as int);
        self.chunks.lemma_index(i);
        self.chunks.lemma_index(j);
        let (c, d) = (self.chunks.items()[i].0, self.chunks.items()[j].0);
        if i < j {
            self.chunks.lemma_ascending(i, j);
        } else {
            self.chunks.lemma_ascending(j, i);
        }
        let r = self.regions();
        assert(r.dom().contains(c) && r.dom().contains(d));
        assert(regions_apart(r[c], r[d]));
        assert(!order[b].before(order[a]));
    }

    /// Moves the block of entry `at` down to `to` and points its index entry there.
    #[verifier::rlimit(50)]
    #[verifier::spinoff_prover]
    fn move_block(&mut self, at: usize, to: usize)
        requires
            old(self).frame_on(old(self).regions()),
            old(self).blocks_ok(),
            forall|w: int| !#[trigger] old(self).free.has(w),
            at < old(self).chunks.items().len(),
            TREE_BASE <= to < old(self).chunks.items()[at as int].1.base,
            forall|j: int|
                0 <= j < old(self).chunks.items().len() && j != at ==> regions_apart(
                    (
                        (#[trigger] old(self).chunks.items()[j]).1.base as int,
                        old(self).chunks.items()[j].1.cap as int,
                    ),
                    (to as int, old(self).chunks.items()[at as int].1.cap as int),
                ),
        ensures
            final(self).frame_on(final(self).regions()),
            final(self).blocks_ok(),
            final(self).free == old(self).free,
            final(self).chunks.items().len() == old(self).chunks.items().len(),
            forall|j: int|
                0 <= j < old(self).chunks.items().len() && j != at ==> #[trigger] final(
                    self).chunks.items()[j] == old(self).chunks.items()[j],
            ({
                let a = final(self).chunks.items()[at as int];
                let b = old(self).chunks.items()[at as int];
                &&& a.0 == b.0
                &&& a.1.base == to
                &&& a.1.cap == b.1.cap
                &&& a.1.nodes == b.1.nodes
                &&& a.1.tree == b.1.tree
                &&& a.1.free == b.1.free
            }),
            final(self).words().len() == old(self).words().len(),
            forall|i: int|
                0 <= i < old(self).chunks.items()[at as int].1.cap ==> #[trigger] final(self).words()[to
                    + i] == old(self).words()[old(self).chunks.items()[at as int].1.base + i],
            forall|w: int|
                TREE_BASE <= w < old(self).words().len() && !(to <= w < to + old(
                    self).chunks.items()[at as int].1.cap) ==> #[trigger] final(self).words()[w] == old(
                    self).words()[w],
            forall|p: int|
                0 <= p < TREE_BASE && #[trigger] final(self).words()[p] != old(self).words()[p]
                    ==> dirty_has(final(self).dirty_struct@, p),
            forall|w: int|
                dirty_has(old(self).dirty_struct@, w) ==> #[trigger] dirty_has(
                    final(self).dirty_struct@,
                    w,
                ),
            forall|w: int|
                to <= w < to + old(self).chunks.items()[at as int].1.cap ==> #[trigger] dirty_has(
                    final(self).dirty_struct@,
                    w,
                ),
            forall|w: int| #[trigger]
                dirty_has(final(self).dirty_struct@, w) ==> dirty_has(old(self).dirty_struct@, w)
                    || index_pos(
                    old(self).origin,
                    old(self).dims,
                    old(self).chunks.items()[at as int].0.0,
                ) == Some(w) || to <= w < to + old(self).chunks.items()[at as int].1.cap,
            final(self).origin == old(self).origin,
            final(self).dims == old(self).dims,
            final(self).rejected_chunks == old(self).rejected_chunks,
            final(self).dirty_palette == old(self).dirty_palette,
            final(self).palette_synced_at == old(self).palette_synced_at,
            final(self).reserve == old(self).reserve,
            final(self).buffers.b_palette == old(self).buffers.b_palette,
            final(self).buffers.globals == old(self).buffers.globals,
    {
        let ghost o = *self;
        let coord: ChunkCoord = self.chunks.entry(at).0;
        let base: usize = self.chunks.entry(at).1.base;
        let cap: usize = self.chunks.entry(at).1.cap;
        let ghost r = self.regions();
        proof {
            self.chunks.lemma_index(at as int);
            assert(r.dom().contains(coord));
        }
        copy_words(&mut self.buffers.b_struct, base, to, cap);
        let slot: &mut ChunkSlot = self.chunks.value_mut(at);
        slot.base = to;
        let ip: usize = match chunk_index_pos(self.origin, self.dims, coord.0) {
            Some(p) => p,
            None => 0,
        };
        self.buffers.b_struct[ip] = to as u32 + 1;
        mark_words(&mut self.dirty_struct, ip, 1, Ghost(self.buffers.b_struct@.len() as int));
        let ghost d1 = self.dirty_struct@;
        mark_words(&mut self.dirty_struct, to, cap, Ghost(self.buffers.b_struct@.len() as int));
        proof {
            let ns = self.chunks.items()[at as int].1;
            self.chunks.lemma_updated(&o.chunks, at as int, ns);
            assert(index_pos(self.origin, self.dims, coord.0) == Some(ip as int));
            let q = r.insert(coord, (to as int, cap as int));
            assert(self.regions() =~= q);
            let b2 = self.buffers.b_struct@;
            let b0 = o.buffers.b_struct@;
            assert(dirty_has(self.dirty_struct@, ip as int)) by {
                assert(dirty_has(d1, ip as int));
            }
            assert forall|w: int| dirty_has(o.dirty_struct@, w) implies #[trigger] dirty_has(
                self.dirty_struct@,
                w,
            ) by {
                assert(dirty_has(d1, w));
            }
            assert forall|c: ChunkCoord| c != coord && #[trigger] r.dom().contains(c) implies regions_apart(
                r[c],
                (to as int, cap as int),
            ) by {
                let j = o.chunks.index_of(c);
                assert(o.chunks.items()[j].0 == c);
                assert(j != at);
            }
            assert forall|c: ChunkCoord, d: ChunkCoord| #[trigger]
                q.dom().contains(c) && #[trigger] q.dom().contains(d) && c != d implies regions_apart(
                q[c],
                q[d],
            ) by {
                assert(r.dom().contains(c) && r.dom().contains(d));
            }
            assert forall|c: ChunkCoord| #[trigger] q.dom().contains(c) implies index_pos(
                self.origin,
                self.dims,
                c.0,
            ) is Some && b2[index_pos(self.origin, self.dims, c.0)->0] == q[c].0 + 1 by {
                assert(r.dom().contains(c));
                lemma_index_pos(self.origin, self.dims, c.0, coord.0);
            }
            assert forall|p: int| 0 <= p < TREE_BASE && #[trigger] b2[p] != 0 implies exists|
                c: ChunkCoord,
            | #[trigger]
                q.dom().contains(c) && index_pos(self.origin, self.dims, c.0) == Some(p) by {
                if p == ip {
                    assert(q.dom().contains(coord));
                } else {
                    assert(b0[p] != 0);
                    let c = choose|c: ChunkCoord| #[trigger]
                        r.dom().contains(c) && index_pos(self.origin, self.dims, c.0) == Some(p);
                    assert(q.dom().contains(c));
                }
            }
            assert forall|c: ChunkCoord| #[trigger] self.chunks.has(c) implies self.chunks.at(c).block_ok(
                b2,
            ) by {
                assert(o.chunks.has(c));
                let s = o.chunks.at(c);
                assert(s.block_ok(b0));
                assert(r.dom().contains(c));
                if c == coord {
                    lemma_block_moved(s, ns, b0, b2);
                } else {
                    assert(regions_apart(r[c], (to as int, cap as int)));
                    lemma_block_frame(s, b0, b2);
                }
            }
        }
    }

    /// The globals describe the words as they are.
    pub open spec fn fresh_globals(&self) -> bool {
        let g = self.globals();
        &&& g.tile_count == self.resident_count()
        &&& g.node_words == self.words().len() - TREE_BASE
        &&& g.node_free_words == self.free_total()
        &&& g.brick_slabs == 0
        &&& g.brick_free == 0
        &&& g.rejected_tiles == self.rejected()
    }

    /// Words, blocks, free segments and marks are the same.
    pub open spec fn same_blocks(&self, o: &Self) -> bool {
        &&& self.words() == o.words()
        &&& self.blocks() == o.blocks()
        &&& self.block_total() == o.block_total()
        &&& self.free_table() == o.free_table()
        &&& self.dirty_list() == o.dirty_list()
    }

    /// Window, reserve and the number of rejected chunks are the same.
    pub open spec fn same_setup(&self, o: &Self) -> bool {
        &&& self.window_spec() == o.window_spec()
        &&& self.reserved() == o.reserved()
        &&& self.rejected() == o.rejected()
    }

    /// The palette side is the same.
    pub open spec fn same_palette(&self, o: &Self) -> bool {
        &&& self.palette_words() == o.palette_words()
        &&& self.dirty_entries() == o.dirty_entries()
        &&& self.palette_version() == o.palette_version()
    }

    /// `b` is `a` after a sync with palette `p0`, which then is `p1`.
    pub open spec fn synced(a: &Self, b: &Self, p0: Palette, p1: Palette) -> bool {
        if a.palette_version() == Some(p0.version) {
            b.same_palette(a) && p1 == p0
        } else {
            let span = palette_span(a.palette_version(), p0);
            &&& Palette::taken(p0, p1)
            &&& b.palette_version() == Some(p0.version)
            &&& b.dirty_entries() == Some(span_union(a.dirty_entries(), span))
            &&& b.palette_words().len() == PALETTE_WORDS
            &&& forall|w: int|
                0 <= w < PALETTE_WORDS ==> #[trigger] b.palette_words()[w] == (if span.0 <= w / 2
                    <= span.1 {
                    entry_word(p0.entries[w / 2], w % 2)
                } else {
                    a.palette_words()[w] as int
                })
        }
    }

    /// Only what a sync may change differs: the globals and the blocks are the same.
    proof fn lemma_same_wf(&self, o: &Self)
        requires
            o.wf(),
            self.chunks == o.chunks,
            self.free == o.free,
            self.buffers.b_struct == o.buffers.b_struct,
            self.dirty_struct == o.dirty_struct,
            self.origin == o.origin,
            self.dims == o.dims,
            self.reserve == o.reserve,
            self.buffers.b_palette@.len() == PALETTE_WORDS,
            self.buffers.globals.index_origin_x == o.buffers.globals.index_origin_x,
            self.buffers.globals.index_origin_y == o.buffers.globals.index_origin_y,
            self.buffers.globals.index_origin_z == o.buffers.globals.index_origin_z,
            self.buffers.globals.index_dims_x == o.buffers.globals.index_dims_x,
            self.buffers.globals.index_dims_y == o.buffers.globals.index_dims_y,
            self.buffers.globals.index_dims_z == o.buffers.globals.index_dims_z,
            self.buffers.globals.rest_is_zero(),
            match self.dirty_palette {
                Some((lo, hi)) => lo <= hi,
                None => true,
            },
        ensures
            self.wf(),
            self.same_blocks(o),
            Self::marks_changes(o, self),
    {
        assert(self.regions() =~= o.regions());
        assert(self.blocks() =~= o.blocks());
        let r = o.regions();
        assert forall|p: int| 0 <= p < TREE_BASE && #[trigger] self.buffers.b_struct@[p] != 0 implies exists|
            c: ChunkCoord,
        | #[trigger]
            r.dom().contains(c) && index_pos(self.origin, self.dims, c.0) == Some(p) by {
            assert(o.buffers.b_struct@[p] != 0);
        }
        assert(self.frame_on(r));
        assert forall|c: ChunkCoord| #[trigger] self.chunks.has(c) implies self.chunks.at(c).block_ok(
            self.buffers.b_struct@,
        ) by {
            assert(o.chunks.has(c));
        }
        assert forall|w: int| #[trigger] self.live(w) && !self.dirty_word(w) implies o.live(w)
            && o.words()[w] == self.words()[w] by {
            if !(0 <= w < TREE_BASE) {
                let (c, id) = choose|c: ChunkCoord, id: u32| self.node_word(c, id, w);
                assert(o.node_word(c, id, w));
            }
        }
    }

    /// Writes what changed in the palette since the last sync, and marks it.
    ///
    /// The first sync writes every entry, and so does one without a report of all that changed since
    /// the last one: several builders may follow one palette, and a report goes to the first of them
    /// that asks. A palette whose version was synced already is left alone.
    pub fn write_palette(&mut self, palette: &mut Palette)
        requires
            old(self).wf(),
            old(palette).wf(),
        ensures
            final(self).wf(),
            final(palette).wf(),
            Self::synced(old(self), final(self), *old(palette), *final(palette)),
            old(self).follows(*old(palette)) ==> final(self).shows_palette(*final(palette)),
            final(self).same_blocks(old(self)),
            final(self).same_setup(old(self)),
            final(self).globals() == old(self).globals(),
            Self::marks_changes(old(self), final(self)),
    {
        let ghost o = *self;
        let version: u64 = palette.version;
        let since: u64 = palette.since;
        proof {
            self.lemma_same_wf(&o);
        }
        if let Some(v) = self.palette_synced_at {
            if v == version {
                proof {
                    if o.follows(*old(palette)) {
                        Self::lemma_palette_follows(&o, self, *old(palette), *palette);
                    }
                }
                return;
            }
        }
        let taken: Option<(u16, u16)> = palette.take_dirty();
        let range: Option<(u16, u16)> = match self.palette_synced_at {
            None => None,
            Some(v) => if since <= v {
                taken
            } else {
                None
            },
        };
        let (lo, hi): (u16, u16) = match range {
            Some(r) => r,
            None => (0, PALETTE_INDEX_MAX),
        };
        let mut i: usize = lo as usize;
        while i <= hi as usize
            invariant
                lo <= hi,
                lo <= i <= hi + 1,
                palette.entries@.len() == 65536,
                palette.entries == old(palette).entries,
                self.buffers.b_palette@.len() == PALETTE_WORDS,
                o.buffers.b_palette@.len() == PALETTE_WORDS,
                self.chunks == o.chunks,
                self.free == o.free,
                self.buffers.b_struct == o.buffers.b_struct,
                self.buffers.globals == o.buffers.globals,
                self.dirty_struct == o.dirty_struct,
                self.origin == o.origin,
                self.dims == o.dims,
                self.reserve == o.reserve,
                self.rejected_chunks == o.rejected_chunks,
                self.dirty_palette == o.dirty_palette,
                self.palette_synced_at == o.palette_synced_at,
                forall|w: int|
                    0 <= w < PALETTE_WORDS ==> #[trigger] self.buffers.b_palette@[w] == (if lo <= w / 2
                        < i {
                        entry_word(palette.entries[w / 2], w % 2)
                    } else {
                        o.buffers.b_palette@[w] as int
                    }),
            decreases hi + 1 - i,
        {
            let e: PaletteEntry = palette.entries[i];
            let p: [u32; 2] = pack_palette_entry(&e);
            self.buffers.b_palette[i * 2] = p[0];
            self.buffers.b_palette[i * 2 + 1] = p[1];
            i += 1;
        }
        self.palette_synced_at = Some(version);
        self.dirty_palette = Some(
            match self.dirty_palette {
                None => (lo, hi),
                Some((d0, d1)) => (if d0 < lo { d0 } else { lo }, if d1 > hi { d1 } else { hi }),
            },
        );
        proof {
            self.lemma_same_wf(&o);
            if o.follows(*old(palette)) {
                Self::lemma_palette_follows(&o, self, *old(palette), *palette);
            }
        }
    }

    fn refresh_globals(&mut self)
        requires
            old(self).wf(),
        ensures
            final(self).wf(),
            final(self).fresh_globals(),
            final(self).chunks == old(self).chunks,
            final(self).free == old(self).free,
            final(self).buffers.b_struct == old(self).buffers.b_struct,
            final(self).buffers.b_palette == old(self).buffers.b_palette,
            final(self).dirty_struct == old(self).dirty_struct,
            final(self).origin == old(self).origin,
            final(self).dims == old(self).dims,
            final(self).reserve == old(self).reserve,
            final(self).rejected_chunks == old(self).rejected_chunks,
            final(self).dirty_palette == old(self).dirty_palette,
            final(self).palette_synced_at == old(self).palette_synced_at,
            final(self).same_blocks(old(self)),
            Self::marks_changes(old(self), final(self)),
    {
        let ghost o = *self;
        proof {
            self.chunks.lemma_count(self.blocks().dom());
            self.lemma_count_bound();
        }
        let tiles: usize = self.chunks.len();
        let free: usize = self.free.words();
        self.buffers.globals.tile_count = tiles as u32;
        self.buffers.globals.node_words = (self.buffers.b_struct.len() - TREE_BASE) as u32;
        self.buffers.globals.node_free_words = free as u32;
        self.buffers.globals.brick_slabs = 0;
        self.buffers.globals.brick_free = 0;
        self.buffers.globals.rejected_tiles = self.rejected_chunks;
        proof {
            self.lemma_same_wf(&o);
        }
    }

    /// Blocks and free words fit in the tree region.
    proof fn lemma_count_bound(&self)
        requires
            self.wf(),
        ensures
            67 * self.chunks.items().len() + self.free.total() <= self.words().len() - TREE_BASE,
            0 <= self.free.total(),
    {
        let it = self.chunks.items();
        assert forall|i: int| 0 <= i < it.len() implies (#[trigger] it[i]).1.cap >= 67 by {
            self.chunks.lemma_index(i);
            assert(self.regions().dom().contains(it[i].0));
        }
        lemma_caps_lower(it);
        self.free.lemma_total_nonneg();
    }

    /// Words by which an update of a chunk with content can lengthen the buffer.
    pub open spec fn update_cost(&self, tree: &ChunkTree, coord: ChunkCoord, dirty: &TreeDirty) -> int {
        if self.resident(coord) && !dirty.reset {
            edit_budget(0, self.cap_of(coord), dirty.nodes.len() as int, tree.wire_len())
        } else {
            block_words(tree.wire_len())
        }
    }

    /// A report that keeps its promises, where only reported nodes are rewritten.
    pub open spec fn report_ok(&self, tree: &ChunkTree, coord: ChunkCoord, dirty: &TreeDirty) -> bool {
        self.resident(coord) && !dirty.reset ==> edit_ok(
            self.tree_of(coord),
            self.used_of(coord),
            tree.model(),
            dirty.nodes@,
        )
    }

    /// What an update of a chunk with content asks of the caller: a report that keeps its promises,
    /// and 32-bit addresses.
    pub open spec fn can_update(&self, tree: &ChunkTree, coord: ChunkCoord, dirty: &TreeDirty) -> bool {
        &&& self.report_ok(tree, coord, dirty)
        &&& len_ok(self.words().len() + self.update_cost(tree, coord, dirty)) || (!self.resident(coord)
            && self.has_room(self.update_cost(tree, coord, dirty)))
    }

    /// Brings one chunk of the window up to date with its tree.
    #[verifier::rlimit(50)]
    #[verifier::spinoff_prover]
    fn edit_chunk(&mut self, grid: &VolumeGrid, coord: ChunkCoord, dirty: &TreeDirty) -> (out: ChunkUpdate)
        requires
            old(self).wf(),
            grid.wf(),
            old(self).pos_of(coord) is Some,
            grid.content(coord) ==> old(self).can_update(&grid.chunks.at(coord), coord, dirty),
        ensures
            Self::edited(old(self), final(self), grid, coord, dirty),
            final(self).globals() == old(self).globals(),
            out == (if grid.content(coord) {
                ChunkUpdate::Rebuilt
            } else if old(self).resident(coord) {
                ChunkUpdate::Released
            } else {
                ChunkUpdate::Unchanged
            }),
            final(self).words().len() <= old(self).words().len() + (if out is Rebuilt {
                old(self).update_cost(&grid.chunks.at(coord), coord, dirty)
            } else {
                0
            }),
    {
        let ghost o = *self;
        proof {
            self.lemma_same_wf(&o);
        }
        let content: bool = match grid.chunk(coord) {
            Some(tree) => !tree.is_empty(),
            None => false,
        };
        assert(content == grid.content(coord));
        if !content {
            let had: bool = self.chunks.contains_key(coord);
            self.release_chunk(coord);
            proof {
                self.lemma_others_kept(&o, coord);
                assert forall|w: int| #[trigger] self.free_table().has(w) <==> o.free_table().has(w)
                    || o.block_has(coord, w) by {}
            }
            return if had {
                ChunkUpdate::Released
            } else {
                ChunkUpdate::Unchanged
            };
        }
        if let Some(tree) = grid.chunk(coord) {
            if self.chunks.contains_key(coord) && !dirty.reset {
                self.apply_node_dirty(coord, tree, dirty);
                proof {
                    self.lemma_others_kept(&o, coord);
                    assert(self.chunks.has(coord));
                }
            } else {
                self.release_chunk(coord);
                let ghost mid = *self;
                proof {
                    self.lemma_others_kept(&o, coord);
                }
                self.install_chunk(coord, tree);
                proof {
                    self.lemma_others_kept(&mid, coord);
                    Self::lemma_marks_trans(&o, &mid, self);
                    Self::lemma_writes_trans(&o, &mid, self);
                    Self::lemma_local_trans(&o, &mid, self, coord);
                    assert forall|c: ChunkCoord, w: int| c != coord && #[trigger] self.block_has(c, w) implies self.words()[w]
                        == o.words()[w] by {
                        assert(mid.resident(c) && mid.block_has(c, w));
                        mid.lemma_block_bound(c);
                    }
                    assert forall|w: int| #[trigger] mid.free_table().has(w) <==> o.free_table().has(w)
                        || o.block_has(coord, w) by {}
                    assert(free_set(mid.free) =~= o.free_without(coord));
                    mid.lemma_room(self.cap_of(coord));
                    lemma_put_at(
                        mid.free,
                        mid.words().len() as int,
                        self.cap_of(coord),
                        self.base_of(coord),
                        self.words().len() as int,
                    );
                    assert(self.chunks.has(coord));
                }
            }
        }
        ChunkUpdate::Rebuilt
    }

    /// Other chunks keep their blocks.
    proof fn lemma_others_kept(&self, o: &Self, coord: ChunkCoord)
        requires
            self.wf(),
            self.others_kept(o, coord),
        ensures
            forall|c: ChunkCoord| c != coord ==> (#[trigger] self.resident(c) <==> o.resident(c)),
            forall|c: ChunkCoord|
                c != coord && #[trigger] self.resident(c) ==> self.blocks()[c] == o.blocks()[c],
            (forall|w: int|
                TREE_BASE <= w < self.words().len() ==> #[trigger] self.words()[w] == o.words()[w])
                ==> Self::others_read(o, self, coord),
    {
        assert forall|c: ChunkCoord| c != coord implies (#[trigger] self.resident(c) <==> o.resident(c)) by {
            assert(self.chunks.has(c) <==> o.chunks.has(c));
        }
        assert forall|c: ChunkCoord| c != coord && #[trigger] self.resident(c) implies self.blocks()[c]
            == o.blocks()[c] by {
            assert(self.chunks.has(c));
        }
        if forall|w: int|
            TREE_BASE <= w < self.words().len() ==> #[trigger] self.words()[w] == o.words()[w] {
            assert forall|c: ChunkCoord, w: int| c != coord && #[trigger] self.block_has(c, w) implies self.words()[w]
                == o.words()[w] by {
                self.lemma_block_bound(c);
            }
        }
    }

    /// Brings one chunk up to date with its tree.
    ///
    /// A chunk without content gives its block back. One that has a block is brought up to date by
    /// the nodes in `dirty`, or installed anew when the node ids were reset. With `allow_compact`,
    /// a tree region that is more than half free is compacted.
    #[verifier::rlimit(50)]
    #[verifier::spinoff_prover]
    pub fn update_chunk(
        &mut self,
        grid: &mut VolumeGrid,
        coord: ChunkCoord,
        dirty: &TreeDirty,
        allow_compact: bool,
    ) -> (out: ChunkUpdate)
        requires
            old(self).wf(),
            old(grid).wf(),
            old(grid).content(coord) && old(self).pos_of(coord) is Some ==> old(self).can_update(
                &old(grid).chunks.at(coord),
                coord,
                dirty,
            ),
        ensures
            final(self).wf(),
            final(grid).wf(),
            final(grid).chunks == old(grid).chunks,
            final(grid).stream_window == old(grid).stream_window,
            final(grid).far == old(grid).far,
            out == (if old(self).pos_of(coord) is None {
                ChunkUpdate::OutsideWindow
            } else if old(grid).content(coord) {
                ChunkUpdate::Rebuilt
            } else if old(self).resident(coord) {
                ChunkUpdate::Released
            } else {
                ChunkUpdate::Unchanged
            }),
            final(self).same_setup(old(self)),
            Self::marks_changes(old(self), final(self)),
            out is OutsideWindow ==> *final(self) == *old(self) && *final(grid) == *old(grid),
            out !is OutsideWindow ==> {
                &&& forall|c: ChunkCoord| #[trigger]
                    final(self).resident(c) <==> (if c == coord {
                        old(grid).content(c)
                    } else {
                        old(self).resident(c)
                    })
                &&& out is Rebuilt ==> final(self).tree_of(coord) == old(grid).chunks.at(coord).model()
                &&& forall|c: ChunkCoord, d: ChunkCoord|
                    c != coord && d != coord && #[trigger] final(self).resident(c) && #[trigger] final(
                        self).resident(d) && old(self).base_of(c) < old(self).base_of(d) ==> final(
                        self).base_of(c) < final(self).base_of(d)
                &&& final(self).fresh_globals()
                &&& Self::synced(old(self), final(self), old(grid).palette, final(grid).palette)
                &&& final(self).words().len() <= old(self).words().len() + (if out is Rebuilt {
                    old(self).update_cost(&old(grid).chunks.at(coord), coord, dirty)
                } else {
                    0
                })
                &&& allow_compact && old(self).reserved() == 0 ==> 2 * final(self).free_total() <= final(
                    self).words().len() - TREE_BASE
                // first the chunk, then the region
                &&& exists|m: Self| #[trigger]
                    Self::edited(old(self), &m, old(grid), coord, dirty) && Self::settled(
                        &m,
                        final(self),
                        allow_compact,
                    )
                // other blocks may have moved down, and are as they were
                &&& forall|c: ChunkCoord|
                    c != coord && #[trigger] final(self).resident(c) ==> Self::pushed_down(
                        old(self),
                        final(self),
                        c,
                    )
                // only the path of the edit and moved blocks are uploaded
                &&& Self::marks_edit(
                    old(self),
                    final(self),
                    coord,
                    !old(self).resident(coord) || anew(dirty, &old(grid).chunks.at(coord)),
                    dirty.nodes@,
                )
            },
    {
        let ghost o = *self;
        proof {
            self.lemma_same_wf(&o);
        }
        if chunk_index_pos(self.origin, self.dims, coord.0).is_none() {
            return ChunkUpdate::OutsideWindow;
        }
        let out: ChunkUpdate = self.edit_chunk(grid, coord, dirty);
        let ghost s1 = *self;
        proof {
            self.lemma_count_bound();
        }
        if allow_compact && self.free.words() * 2 > self.buffers.b_struct.len() - TREE_BASE {
            self.pack_blocks();
        }
        let ghost s2 = *self;
        proof {
            if s1.reserve > 0 {
                assert(s2 == s1);
            }
            assert(Self::settled(&s1, &s2, allow_compact));
            Self::lemma_marks_trans(&o, &s1, &s2);
        }
        self.refresh_globals();
        let ghost s3 = *self;
        proof {
            Self::lemma_marks_trans(&o, &s2, &s3);
        }
        self.write_palette(&mut grid.palette);
        proof {
            Self::lemma_marks_trans(&o, &s3, self);
            assert(self.same_blocks(&s2));
            Self::lemma_settled_same(&s1, &s2, self, allow_compact);
            Self::lemma_settled(&o, &s1, self, old(grid), coord, dirty, allow_compact);
            assert(Self::synced(&o, self, old(grid).palette, grid.palette));
        }
        out
    }

    /// What settles is a matter of words, blocks and marks.
    proof fn lemma_settled_same(m: &Self, b: &Self, c: &Self, allow_compact: bool)
        requires
            Self::settled(m, b, allow_compact),
            c.same_blocks(b),
            c.same_setup(b),
        ensures
            Self::settled(m, c, allow_compact),
    {
        if allow_compact && m.reserved() == 0 && 2 * m.free_total() > m.words().len() - TREE_BASE {
            assert forall|w: int| !#[trigger] c.free_table().has(w) by {
                assert(!b.free_table().has(w));
            }
            assert forall|x: ChunkCoord| #[trigger] c.resident(x) <==> m.resident(x) by {
                assert(b.resident(x) <==> m.resident(x));
            }
            assert forall|x: ChunkCoord| #[trigger] c.resident(x) implies Self::pushed_down(m, c, x) && (
            c.base_of(x) != m.base_of(x) ==> c.dirty_word(c.pos_of(x)->0)) by {
                assert(b.resident(x));
                assert(Self::pushed_down(m, b, x));
            }
            assert forall|x: ChunkCoord, w: int|
                c.base_of(x) != m.base_of(x) && #[trigger] c.block_has(x, w) implies c.dirty_word(w) by {
                assert(b.block_has(x, w));
            }
            assert forall|w: int| TREE_BASE <= w < c.words().len() implies #[trigger] c.owned(w) by {
                assert(b.owned(w));
                let x = choose|x: ChunkCoord| #[trigger] b.block_has(x, w);
                assert(c.block_has(x, w));
            }
            assert forall|x: ChunkCoord, y: ChunkCoord| #[trigger]
                c.resident(x) && #[trigger] c.resident(y) && m.base_of(x) < m.base_of(y) implies c.base_of(x)
                < c.base_of(y) by {
                assert(b.resident(x) && b.resident(y));
            }
            assert forall|w: int| #[trigger] c.dirty_word(w) && !m.dirty_word(w) implies exists|
                x: ChunkCoord,
            | #[trigger]
                c.resident(x) && c.base_of(x) != m.base_of(x) && (c.pos_of(x) == Some(w) || c.base_of(x)
                    <= w < c.base_of(x) + c.cap_of(x)) by {
                assert(b.dirty_word(w));
                let x = choose|x: ChunkCoord| #[trigger]
                    b.resident(x) && b.base_of(x) != m.base_of(x) && (b.pos_of(x) == Some(w)
                        || b.base_of(x) <= w < b.base_of(x) + b.cap_of(x));
                assert(c.resident(x));
            }
            assert forall|w: int| #[trigger] m.dirty_word(w) && w < c.words().len() implies c.dirty_word(w) by {
                assert(b.dirty_word(w));
            }
            assert forall|p: int|
                0 <= p < TREE_BASE && #[trigger] c.words()[p] != m.words()[p] implies c.dirty_word(p) by {
                assert(b.words()[p] != m.words()[p]);
                assert(b.dirty_word(p));
            }
        }
    }

    /// Marked words are words.
    pub proof fn lemma_dirty_bound(&self, w: int)
        requires
            self.wf(),
            self.dirty_word(w),
        ensures
            w < self.words().len(),
    {
        let d = self.dirty_struct@;
        let i = choose|i: int| 0 <= i < d.len() && (#[trigger] d[i]).0 <= 4 * w && 4 * w + 4 <= d[i].1;
    }

    /// Content of a node lies in its block.
    pub proof fn lemma_node_in_block(&self, c: ChunkCoord, id: u32)
        requires
            self.wf(),
            self.resident(c),
            self.tree_of(c).dom().contains(id),
        ensures
            0 <= self.offset_of(c, id),
            self.offset_of(c, id) + content_len(self.tree_of(c)[id]) <= self.cap_of(c),
            0 <= content_len(self.tree_of(c)[id]),
    {
        assert(self.chunks.has(c));
        let s = self.chunks.at(c);
        assert(s.block_ok(self.words()));
        lemma_room_bound(id, s.tree@[id]);
    }

    /// What an edit and the packing after it come to.
    #[verifier::rlimit(50)]
    #[verifier::spinoff_prover]
    proof fn lemma_settled(
        a: &Self,
        m: &Self,
        b: &Self,
        g: &VolumeGrid,
        coord: ChunkCoord,
        dirty: &TreeDirty,
        allow_compact: bool,
    )
        requires
            a.wf(),
            b.wf(),
            b.same_setup(m),
            Self::edited(a, m, g, coord, dirty),
            Self::settled(m, b, allow_compact),
        ensures
            forall|c: ChunkCoord| #[trigger]
                b.resident(c) <==> (if c == coord {
                    g.content(c)
                } else {
                    a.resident(c)
                }),
            b.resident(coord) ==> b.tree_of(coord) == g.chunks.at(coord).model(),
            forall|c: ChunkCoord| c != coord && #[trigger] b.resident(c) ==> Self::pushed_down(a, b, c),
            forall|c: ChunkCoord, d: ChunkCoord|
                c != coord && d != coord && #[trigger] b.resident(c) && #[trigger] b.resident(d)
                    && a.base_of(c) < a.base_of(d) ==> b.base_of(c) < b.base_of(d),
            Self::marks_edit(
                a,
                b,
                coord,
                !a.resident(coord) || anew(dirty, &g.chunks.at(coord)),
                dirty.nodes@,
            ),
    {
        let pack = allow_compact && m.reserved() == 0 && 2 * m.free_total() > m.words().len()
            - TREE_BASE;
        assert forall|c: ChunkCoord| #[trigger] b.resident(c) <==> (if c == coord {
            g.content(c)
        } else {
            a.resident(c)
        }) by {
            assert(b.resident(c) <==> m.resident(c));
        }
        assert forall|c: ChunkCoord| #[trigger] b.resident(c) implies m.resident(c) && Self::pushed_down(
            m,
            b,
            c,
        ) by {
            assert(m.resident(c));
        }
        assert forall|c: ChunkCoord| c != coord && #[trigger] b.resident(c) implies Self::pushed_down(a, b, c) by {
            assert(m.resident(c));
            assert(Self::pushed_down(m, b, c));
            assert forall|k: int| 0 <= k < b.cap_of(c) implies #[trigger] b.words()[b.base_of(c) + k]
                == a.words()[a.base_of(c) + k] by {
                assert(m.block_has(c, m.base_of(c) + k));
                assert(b.words()[b.base_of(c) + k] == m.words()[m.base_of(c) + k]);
            }
        }
        assert forall|c: ChunkCoord, d: ChunkCoord|
            c != coord && d != coord && #[trigger] b.resident(c) && #[trigger] b.resident(d)
                && a.base_of(c) < a.base_of(d) implies b.base_of(c) < b.base_of(d) by {
            assert(m.resident(c) && m.resident(d));
        }
        if b.resident(coord) {
            assert(m.resident(coord));
            assert(Self::pushed_down(m, b, coord));
        }
        let whole = !a.resident(coord) || anew(dirty, &g.chunks.at(coord));
        let nodes = dirty.nodes@;
        assert forall|w: int| #[trigger] b.dirty_word(w) && !a.dirty_word(w) implies {
            ||| exists|c: ChunkCoord| #[trigger]
                b.resident(c) && Self::moved(a, b, c) && b.near(c, w)
            ||| !b.resident(coord) && b.pos_of(coord) == Some(w)
            ||| b.resident(coord) && whole && b.near(coord, w)
            ||| b.resident(coord) && Self::path_word(a, b, coord, nodes, w)
        } by {
            b.lemma_dirty_bound(w);
            if !pack {
                assert(m.dirty_word(w));
                if b.resident(coord) {
                    assert(b.near(coord, w) || Self::path_word(a, m, coord, nodes, w)) by {
                        if m.pos_of(coord) != Some(w) {
                            assert forall|d: ChunkCoord| d != coord && #[trigger] b.resident(d) implies !b.block_has(
                            d,
                            w) by {
                                assert(m.resident(d));
                            }
                        }
                    }
                    if !whole && b.cap_of(coord) == a.cap_of(coord) {
                        assert(Self::path_word(a, m, coord, nodes, w));
                        Self::lemma_path_kept(a, m, b, coord, nodes, w);
                    } else {
                        assert(b.near(coord, w));
                    }
                }
            } else if !m.dirty_word(w) {
                let c = choose|c: ChunkCoord| #[trigger]
                    b.resident(c) && b.base_of(c) != m.base_of(c) && (b.pos_of(c) == Some(w)
                        || b.base_of(c) <= w < b.base_of(c) + b.cap_of(c));
                b.lemma_near(c, w);
                assert(m.resident(c));
            } else if TREE_BASE <= w {
                assert(b.owned(w));
                let c = choose|c: ChunkCoord| #[trigger] b.block_has(c, w);
                b.lemma_near(c, w);
                assert(m.resident(c));
                assert(Self::pushed_down(m, b, c));
                if !Self::moved(a, b, c) {
                    if c != coord {
                        assert(m.block_has(c, w));
                        assert(m.pos_of(coord) != Some(w)) by {
                            lemma_index_pos(m.origin, m.dims, coord.0, coord.0);
                        }
                        assert(false);
                    } else if !whole {
                        assert(Self::path_word(a, m, coord, nodes, w));
                        Self::lemma_path_kept(a, m, b, coord, nodes, w);
                    }
                }
            } else {
                // an index entry that the edit marked
                assert(m.pos_of(coord) == Some(w));
                if b.resident(coord) && !whole {
                    if b.cap_of(coord) == a.cap_of(coord) {
                        assert(Self::path_word(a, m, coord, nodes, w));
                        let i = choose|i: int|
                            0 <= i < nodes.len() && m.node_word(coord, (#[trigger] nodes[i]).1, w)
                                && Self::rewritten(a, m, coord, nodes[i].1);
                        m.lemma_node_in_block(coord, nodes[i].1);
                        m.lemma_block_bound(coord);
                        assert(false);
                    }
                }
            }
        }
    }

    /// A block's words and its index entry are near it.
    pub proof fn lemma_near(&self, c: ChunkCoord, w: int)
        requires
            self.wf(),
            self.resident(c),
            self.pos_of(c) == Some(w) || self.block_has(c, w),
        ensures
            self.near(c, w),
    {
        self.lemma_block_bound(c);
        if self.block_has(c, w) {
            assert forall|d: ChunkCoord| d != c && #[trigger] self.resident(d) implies !self.block_has(d, w) by {
                self.lemma_apart(c, d);
            }
        }
    }

    /// A word of the path stays one while the block stays where it is.
    pub proof fn lemma_path_kept(
        a: &Self,
        m: &Self,
        b: &Self,
        coord: ChunkCoord,
        nodes: Seq<(u8, u32)>,
        w: int,
    )
        requires
            m.wf(),
            m.resident(coord),
            b.resident(coord),
            Self::pushed_down(m, b, coord),
            b.base_of(coord) == m.base_of(coord),
            Self::path_word(a, m, coord, nodes, w),
        ensures
            Self::path_word(a, b, coord, nodes, w),
    {
        let i = choose|i: int|
            0 <= i < nodes.len() && m.node_word(coord, (#[trigger] nodes[i]).1, w) && Self::rewritten(
                a,
                m,
                coord,
                nodes[i].1,
            );
        let id = nodes[i].1;
        assert(b.node_word(coord, id, w));
        m.lemma_node_in_block(coord, id);
        if !Self::rewritten(a, b, coord, id) {
            assert forall|j: int| 0 <= j < content_len(m.tree_of(coord)[id]) implies #[trigger] m.words()[m.base_of(
                coord,
            ) + m.offset_of(coord, id) + j] == a.words()[a.base_of(coord) + a.offset_of(coord, id) + j] by {
                let k = m.offset_of(coord, id) + j;
                assert(b.words()[b.base_of(coord) + k] == m.words()[m.base_of(coord) + k]);
                assert(b.words()[b.base_of(coord) + b.offset_of(coord, id) + j] == a.words()[a.base_of(
                    coord,
                ) + a.offset_of(coord, id) + j]);
            }
        }
    }

    /// Packs the blocks at the start of the tree region and cuts the rest off. A region with a reserve
    /// is left alone.
    pub fn compact(&mut self)
        requires
            old(self).wf(),
        ensures
            final(self).wf(),
            old(self).reserved() > 0 ==> *final(self) == *old(self),
            old(self).reserved() == 0 ==> Self::packed(old(self), final(self)),
            final(self).same_setup(old(self)),
            final(self).same_palette(old(self)),
            final(self).globals() == old(self).globals(),
            Self::marks_changes(old(self), final(self)),
    {
        let ghost o = *self;
        proof {
            self.lemma_same_wf(&o);
        }
        self.pack_blocks();
    }

    /// The blocks of a volume's chunks were installed by ascending coordinates, in the reserve as far
    /// as they fit there, and no word but index entries and nodes was written.
    pub open spec fn filled_from(&self, g: &VolumeGrid) -> bool {
        let (o, d) = self.window_spec();
        let n = g.chunks.items().len();
        &&& self.words().len() == filled(g, o, d, self.reserved(), n).1
        &&& forall|w: int| #[trigger]
            self.free_table().has(w) <==> filled(g, o, d, self.reserved(), n).0 <= w < TREE_BASE
                + self.reserved()
        &&& self.free_total() == TREE_BASE + self.reserved() - filled(g, o, d, self.reserved(), n).0
        &&& forall|i: int|
            0 <= i < n && self.resident((#[trigger] g.chunks.items()[i]).0) ==> self.base_of(
                g.chunks.items()[i].0,
            ) == fill_place(g, o, d, self.reserved(), i)
        &&& forall|w: int|
            0 <= w < self.words().len() && !self.live(w) ==> #[trigger] self.words()[w] == 0
    }

    /// The palette words are those of `p`.
    pub open spec fn shows_palette(&self, p: Palette) -> bool {
        self.palette_version() == Some(p.version) && self.shows_entries(p.entries@)
    }

    /// The palette words are those of `entries`.
    pub open spec fn shows_entries(&self, entries: Seq<PaletteEntry>) -> bool {
        &&& self.palette_words().len() == PALETTE_WORDS
        &&& forall|w: int|
            0 <= w < PALETTE_WORDS ==> #[trigger] self.palette_words()[w] == entry_word(
                entries[w / 2],
                w % 2,
            )
    }

    /// The palette words are those of some earlier version of `p`, or none was ever synced.
    pub open spec fn follows(&self, p: Palette) -> bool {
        match self.palette_version() {
            Some(v) => v <= p.version && self.shows_entries(p.past@[v as int]),
            None => true,
        }
    }

    /// A builder with a volume's window and palette, and no blocks.
    pub fn new_unbuilt(grid: &mut VolumeGrid) -> (b: Self)
        requires
            old(grid).wf(),
            old(grid).window_fits(),
        ensures
            b.wf(),
            is_window(old(grid), b.window_spec().0, b.window_spec().1),
            b.rejected() == rejected_count(old(grid), b.window_spec().0, b.window_spec().1),
            b.reserved() == 0,
            forall|c: ChunkCoord| !#[trigger] b.resident(c),
            b.words().len() == TREE_BASE,
            b.free_total() == 0,
            forall|w: int| 0 <= w < b.words().len() ==> #[trigger] b.words()[w] == 0,
            b.shows_palette(old(grid).palette),
            b.dirty_list().len() == 0,
            b.dirty_entries() == Some((0u16, PALETTE_INDEX_MAX)),
            b.globals() == globals_for(b.window_spec().0, b.window_spec().1, b.rejected()),
            final(grid).wf(),
            final(grid).chunks == old(grid).chunks,
            final(grid).stream_window == old(grid).stream_window,
            final(grid).far == old(grid).far,
            Palette::taken(old(grid).palette, final(grid).palette),
    {
        Self::new_unbuilt_reserved(grid, 0)
    }

    /// Like [`Self::new_unbuilt`], with `reserve_words` words of the tree region set aside.
    ///
    /// The reserve is free space, so blocks are taken from it first: as long as they fit, the words
    /// keep their number.
    pub fn new_unbuilt_reserved(grid: &mut VolumeGrid, reserve_words: usize) -> (b: Self)
        requires
            old(grid).wf(),
            old(grid).window_fits(),
            len_ok(TREE_BASE + reserve_words),
        ensures
            b.wf(),
            is_window(old(grid), b.window_spec().0, b.window_spec().1),
            b.rejected() == rejected_count(old(grid), b.window_spec().0, b.window_spec().1),
            b.reserved() == reserve_words,
            forall|c: ChunkCoord| !#[trigger] b.resident(c),
            b.words().len() == TREE_BASE + reserve_words,
            b.free_total() == reserve_words,
            forall|w: int| 0 <= w < b.words().len() ==> #[trigger] b.words()[w] == 0,
            forall|w: int| #[trigger]
                b.free_table().has(w) <==> TREE_BASE <= w < TREE_BASE + reserve_words,
            b.shows_palette(old(grid).palette),
            b.dirty_list().len() == 0,
            b.dirty_entries() == Some((0u16, PALETTE_INDEX_MAX)),
            b.globals() == globals_for(b.window_spec().0, b.window_spec().1, b.rejected()),
            final(grid).wf(),
            final(grid).chunks == old(grid).chunks,
            final(grid).stream_window == old(grid).stream_window,
            final(grid).far == old(grid).far,
            Palette::taken(old(grid).palette, final(grid).palette),
    {
        let (origin, dims, rejected) = compute_window(grid);
        let b_struct: Vec<u32> = vec![0; TREE_BASE + reserve_words];
        let b_palette: Vec<u32> = vec![0; PALETTE_WORDS];
        let mut free: FreeRuns = FreeRuns::new();
        if reserve_words > 0 {
            free.free_run(TREE_BASE, reserve_words);
        }
        let mut b: Self = BrickMapBuilder {
            buffers: BrickMapBuffers {
                b_struct,
                b_palette,
                globals: new_globals(origin, dims, rejected as u32),
            },
            chunks: CoordMap::new(),
            origin,
            dims,
            rejected_chunks: rejected as u32,
            free,
            dirty_struct: Vec::new(),
            dirty_palette: None,
            palette_synced_at: None,
            reserve: reserve_words,
        };
        proof {
            assert(b.regions().dom() =~= Set::<ChunkCoord>::empty());
            assert(b.frame_on(b.regions()));
        }
        let ghost b0 = b;
        b.write_palette(&mut grid.palette);
        proof {
            assert forall|c: ChunkCoord| !#[trigger] b.resident(c) by {
                assert(!b0.chunks.has(c));
                assert(b.blocks() == b0.blocks());
            }
        }
        b
    }

    /// A builder with a block for every chunk with content that its window reaches.
    pub fn build_full(grid: &mut VolumeGrid) -> (b: Self)
        requires
            old(grid).wf(),
            old(grid).window_fits(),
            len_ok(TREE_BASE + content_words(old(grid), old(grid).chunks.items().len())),
        ensures
            b.wf(),
            is_window(old(grid), b.window_spec().0, b.window_spec().1),
            b.rejected() == rejected_count(old(grid), b.window_spec().0, b.window_spec().1),
            b.reserved() == 0,
            forall|c: ChunkCoord| #[trigger]
                b.resident(c) <==> old(grid).content(c) && b.pos_of(c) is Some,
            forall|c: ChunkCoord| #[trigger]
                b.resident(c) ==> b.laid_out(c, &old(grid).chunks.at(c)),
            b.filled_from(old(grid)),
            b.shows_palette(old(grid).palette),
            b.fresh_globals(),
            b.dirty_list().len() == 0,
            b.dirty_entries() is None,
            b.in_key_order(),
            final(grid).wf(),
            final(grid).chunks == old(grid).chunks,
            final(grid).stream_window == old(grid).stream_window,
            final(grid).far == old(grid).far,
            Palette::taken(old(grid).palette, final(grid).palette),
    {
        Self::build_full_reserved(grid, 0)
    }

    /// Like [`Self::build_full`], with a reserve (see [`Self::new_unbuilt_reserved`]).
    #[verifier::rlimit(50)]
    #[verifier::spinoff_prover]
    pub fn build_full_reserved(grid: &mut VolumeGrid, reserve_words: usize) -> (b: Self)
        requires
            old(grid).wf(),
            old(grid).window_fits(),
            len_ok(
                TREE_BASE + reserve_words + content_words(old(grid), old(grid).chunks.items().len()),
            ),
        ensures
            b.wf(),
            is_window(old(grid), b.window_spec().0, b.window_spec().1),
            b.rejected() == rejected_count(old(grid), b.window_spec().0, b.window_spec().1),
            b.reserved() == reserve_words,
            forall|c: ChunkCoord| #[trigger]
                b.resident(c) <==> old(grid).content(c) && b.pos_of(c) is Some,
            forall|c: ChunkCoord| #[trigger]
                b.resident(c) ==> b.laid_out(c, &old(grid).chunks.at(c)),
            b.filled_from(old(grid)),
            b.shows_palette(old(grid).palette),
            b.fresh_globals(),
            b.dirty_list().len() == 0,
            b.dirty_entries() is None,
            TREE_BASE + reserve_words <= b.words().len() <= TREE_BASE + reserve_words + content_words(
                old(grid),
                old(grid).chunks.items().len(),
            ),
            reserve_words == 0 ==> b.in_key_order(),
            final(grid).wf(),
            final(grid).chunks == old(grid).chunks,
            final(grid).stream_window == old(grid).stream_window,
            final(grid).far == old(grid).far,
            Palette::taken(old(grid).palette, final(grid).palette),
    {
        let ghost g0 = *grid;
        let n: usize = grid.chunks.len();
        proof {
            lemma_content_words_mono(&g0, 0, n as nat);
        }
        let mut b: Self = Self::new_unbuilt_reserved(grid, reserve_words);
        let ghost b0 = b;
        let ghost items = g0.chunks.items();
        proof {
            assert forall|c: ChunkCoord| !#[trigger] b.chunks.has(c) by {
                assert(!b.resident(c));
            }
            assert forall|c: ChunkCoord| g0.content(c) implies g0.chunks.index_of(c) >= 0 by {
                assert(items[g0.chunks.index_of(c)].0 == c);
            }
        }
        let mut i: usize = 0;
        while i < n
            invariant
                i <= n,
                n == items.len(),
                items == g0.chunks.items(),
                grid.chunks == g0.chunks,
                g0.wf(),
                grid.wf(),
                b.wf(),
                b.origin == b0.origin,
                b.dims == b0.dims,
                b.rejected_chunks == b0.rejected_chunks,
                b.reserve == b0.reserve,
                b.buffers.b_palette == b0.buffers.b_palette,
                b.palette_synced_at == b0.palette_synced_at,
                b0.reserve == reserve_words,
                forall|c: ChunkCoord| #[trigger]
                    b.chunks.has(c) <==> (g0.content(c) && index_pos(b.origin, b.dims, c.0) is Some
                        && g0.chunks.index_of(c) < i),
                forall|c: ChunkCoord| #[trigger]
                    b.chunks.has(c) ==> b.laid_out(c, &g0.chunks.at(c)),
                b.words().len() == filled(&g0, b.origin, b.dims, reserve_words as int, i as nat).1,
                filled(&g0, b.origin, b.dims, reserve_words as int, i as nat).0 <= TREE_BASE
                    + reserve_words,
                forall|w: int| #[trigger]
                    b.free.has(w) <==> filled(&g0, b.origin, b.dims, reserve_words as int, i as nat).0 <= w
                        < TREE_BASE + reserve_words,
                forall|j: int|
                    0 <= j < i && b.chunks.has((#[trigger] items[j]).0) ==> b.base_of(items[j].0)
                        == fill_place(&g0, b.origin, b.dims, reserve_words as int, j),
                forall|w: int|
                    0 <= w < b.words().len() && !b.live(w) ==> #[trigger] b.words()[w] == 0,
                reserve_words == 0 ==> b.free.total() == 0 && forall|w: int| !#[trigger] b.free.has(w),
                reserve_words == 0 ==> forall|c: ChunkCoord, d: ChunkCoord| #[trigger]
                    b.chunks.has(c) && #[trigger] b.chunks.has(d) && lex_less(c.0, d.0) ==> b.base_of(c)
                        < b.base_of(d),
                TREE_BASE + reserve_words <= b.words().len() <= TREE_BASE + reserve_words
                    + content_words(&g0, i as nat),
                len_ok(TREE_BASE + reserve_words + content_words(&g0, n as nat)),
            decreases n - i,
        {
            let c: ChunkCoord = grid.chunks.entry(i).0;
            let tree: &ChunkTree = &grid.chunks.entry(i).1;
            let ghost before = b;
            proof {
                g0.chunks.lemma_index(i as int);
                lemma_content_words_mono(&g0, (i + 1) as nat, n as nat);
                assert(items[i as int].0 == c);
                assert(g0.chunks.at(c).wf());
                lemma_rooms_nonneg(tree.nodes@, tree.nodes@.len());
            }
            if !tree.is_empty() && chunk_index_pos(b.origin, b.dims, c.0).is_some() {
                b.install_chunk(c, tree);
            }
            proof {
                assert forall|d: ChunkCoord| #[trigger] b.chunks.has(d) <==> (g0.content(d) && index_pos(
                    b.origin,
                    b.dims,
                    d.0,
                ) is Some && g0.chunks.index_of(d) < i + 1) by {
                    if d != c && g0.chunks.has(d) {
                        let j = g0.chunks.index_of(d);
                        assert(items[j].0 == d);
                        assert(j != i);
                    }
                    assert(d != c ==> (b.chunks.has(d) <==> before.chunks.has(d)));
                }
                assert forall|d: ChunkCoord| #[trigger] b.chunks.has(d) implies b.laid_out(
                    d,
                    &g0.chunks.at(d),
                ) by {
                    if d != c {
                        assert(before.chunks.has(d));
                        assert(b.chunks.at(d) == before.chunks.at(d));
                        assert(before.laid_out(d, &g0.chunks.at(d)));
                        assert forall|w: int| #[trigger] before.block_has(d, w) implies b.words()[w]
                            == before.words()[w] by {
                            before.lemma_block_bound(d);
                            if b.chunks.has(c) {
                                lemma_rooms_nonneg(tree.nodes@, tree.nodes@.len());
                                b.lemma_apart(c, d);
                            }
                        }
                        Self::lemma_laid_kept(&before, &b, d, &g0.chunks.at(d));
                    }
                }
                if b.chunks.has(c) {
                    let (next, end) = filled(&g0, b.origin, b.dims, reserve_words as int, i as nat);
                    lemma_one_segment(
                        before.free,
                        next,
                        TREE_BASE + reserve_words,
                        before.words().len() as int,
                        b.cap_of(c),
                        b.base_of(c),
                    );
                    before.free_table().lemma_total_nonneg();
                    assert(before.has_room(b.cap_of(c)) <==> next + b.cap_of(c) <= TREE_BASE
                        + reserve_words) by {
                        if next + b.cap_of(c) <= TREE_BASE + reserve_words {
                            assert(before.free.has(next));
                            assert(before.free_table().fits_at(next, b.cap_of(c)));
                        }
                        if before.has_room(b.cap_of(c)) {
                            let t = choose|t: int| before.free_table().fits_at(t, b.cap_of(c));
                            assert(before.free.has(t) && !before.free.has(t - 1));
                            assert(before.free.has(t + b.cap_of(c) - 1));
                        }
                    }
                    assert forall|w: int| 0 <= w < b.words().len() && !b.live(w) implies #[trigger] b.words()[w]
                        == 0 by {
                        if b.base_of(c) <= w < b.base_of(c) + tree.wire_len() {
                            let k = w - b.base_of(c);
                            if is_content(tree.layout(), tree.model(), k) {
                                let id = choose|id: u32| #[trigger]
                                    tree.model().dom().contains(id) && tree.layout()[id as int].off <= k
                                        < tree.layout()[id as int].off + content_len(tree.model()[id]);
                                assert(b.node_word(c, id, w));
                            }
                            assert(b.words()[b.base_of(c) + k] == 0);
                        } else if w < before.words().len() {
                            if before.live(w) {
                                let (d, id) = choose|d: ChunkCoord, id: u32| before.node_word(d, id, w);
                                assert(before.chunks.has(d) && d != c && b.chunks.has(d));
                                assert(b.chunks.at(d) == before.chunks.at(d));
                                assert(b.node_word(d, id, w));
                            }
                        }
                    }
                }
                assert forall|j: int| 0 <= j < i + 1 && b.chunks.has((#[trigger] items[j]).0) implies b.base_of(
                    items[j].0,
                ) == fill_place(&g0, b.origin, b.dims, reserve_words as int, j) by {
                    if j < i {
                        g0.chunks.lemma_ascending(j, i as int);
                        assert(items[j].0 != c);
                        assert(before.chunks.has(items[j].0));
                        assert(b.chunks.at(items[j].0) == before.chunks.at(items[j].0));
                    }
                }
            }
            proof {
                if reserve_words == 0 && b.chunks.has(c) {
                    assert forall|t: int, m: int| !before.free.fits_at(t, m) by {
                        assert(!before.free.has(t));
                    }
                    assert(b.base_of(c) == before.words().len());
                    assert forall|x: ChunkCoord, y: ChunkCoord| #[trigger]
                        b.chunks.has(x) && #[trigger] b.chunks.has(y) && lex_less(x.0, y.0) implies b.base_of(
                        x,
                    ) < b.base_of(y) by {
                        if x == c {
                            let j = g0.chunks.index_of(y);
                            assert(items[j].0 == y);
                            if j < i {
                                g0.chunks.lemma_ascending(j, i as int);
                            }
                        } else {
                            assert(before.chunks.has(x));
                            assert(b.chunks.at(x) == before.chunks.at(x));
                            assert(before.regions().dom().contains(x));
                            if y != c {
                                assert(before.chunks.has(y));
                                assert(b.chunks.at(y) == before.chunks.at(y));
                            }
                        }
                    }
                }
            }
            i += 1;
        }
        let ghost b2 = b;
        proof {
            let (next, end) = filled(&g0, b.origin, b.dims, reserve_words as int, n as nat);
            b.free.lemma_one_run(next, TREE_BASE + reserve_words);
        }
        b.refresh_globals();
        let ghost b1 = b;
        let _ = b.take_dirty_ranges();
        proof {
            assert(b.blocks() == b1.blocks());
            assert forall|c: ChunkCoord| #[trigger] b.resident(c) <==> g0.content(c) && b.pos_of(
                c,
            ) is Some by {
                assert(b.resident(c) <==> b1.chunks.has(c));
                if g0.content(c) {
                    let j = g0.chunks.index_of(c);
                    assert(items[j].0 == c);
                }
            }
            assert forall|c: ChunkCoord| #[trigger] b.resident(c) implies b.laid_out(
                c,
                &g0.chunks.at(c),
            ) by {
                assert(b1.chunks.has(c) && b2.chunks.has(c));
                Self::lemma_laid_kept(&b2, &b, c, &g0.chunks.at(c));
            }
            assert forall|w: int| 0 <= w < b.words().len() && !b.live(w) implies #[trigger] b.words()[w]
                == 0 by {
                if b2.live(w) && !(0 <= w < TREE_BASE) {
                    let (d, id) = choose|d: ChunkCoord, id: u32| b2.node_word(d, id, w);
                    assert(b.node_word(d, id, w));
                }
                assert(b2.words()[w] == 0);
            }
            assert forall|i: int| 0 <= i < n && b.resident((#[trigger] items[i]).0) implies b.base_of(
                items[i].0,
            ) == fill_place(&g0, b.origin, b.dims, reserve_words as int, i) by {
                assert(b1.chunks.has(items[i].0));
            }
        }
        b
    }

    pub fn buffers(&self) -> (r: &BrickMapBuffers)
        ensures
            r.b_struct@ == self.words(),
            r.b_palette@ == self.palette_words(),
            r.globals == self.globals(),
    {
        &self.buffers
    }

    /// Takes the ranges that await an upload.
    pub fn take_dirty_ranges(&mut self) -> (r: DirtyRanges)
        requires
            old(self).wf(),
        ensures
            final(self).wf(),
            r.struct_ranges@ == old(self).dirty_list(),
            r.palette_range == old(self).dirty_entries(),
            dirty_ok(r.struct_ranges@, old(self).words().len() as int),
            match r.palette_range {
                Some((lo, hi)) => lo <= hi,
                None => true,
            },
            final(self).dirty_list().len() == 0,
            final(self).dirty_entries() is None,
            final(self).words() == old(self).words(),
            final(self).blocks() == old(self).blocks(),
            final(self).block_total() == old(self).block_total(),
            final(self).free_table() == old(self).free_table(),
            final(self).palette_words() == old(self).palette_words(),
            final(self).palette_version() == old(self).palette_version(),
            final(self).globals() == old(self).globals(),
            final(self).same_setup(old(self)),
    {
        let ghost o = *self;
        let mut ranges: Vec<(usize, usize)> = Vec::new();
        ranges.append(&mut self.dirty_struct);
        let palette_range: Option<(u16, u16)> = self.dirty_palette;
        self.dirty_palette = None;
        proof {
            assert(ranges@ =~= o.dirty_struct@);
            let r = o.regions();
            assert(self.regions() =~= r);
            assert(self.blocks() =~= o.blocks());
            assert forall|p: int| 0 <= p < TREE_BASE && #[trigger] self.buffers.b_struct@[p] != 0 implies exists|
                c: ChunkCoord,
            | #[trigger]
                r.dom().contains(c) && index_pos(self.origin, self.dims, c.0) == Some(p) by {
                assert(o.buffers.b_struct@[p] != 0);
            }
            assert(self.frame_on(r));
            assert forall|c: ChunkCoord| #[trigger] self.chunks.has(c) implies self.chunks.at(c).block_ok(
                self.buffers.b_struct@,
            ) by {
                assert(o.chunks.has(c));
            }
        }
        DirtyRanges { struct_ranges: ranges, palette_range }
    }

    /// Something awaits an upload.
    pub fn has_dirty(&self) -> (r: bool)
        ensures
            r == (self.dirty_list().len() > 0 || self.dirty_entries() is Some),
    {
        self.dirty_struct.len() > 0 || self.dirty_palette.is_some()
    }

    /// First word of a chunk's block; `None` when it has none.
    pub fn chunk_base(&self, coord: ChunkCoord) -> (r: Option<usize>)
        requires
            self.wf(),
        ensures
            match r {
                Some(b) => self.resident(coord) && b == self.base_of(coord),
                None => !self.resident(coord),
            },
    {
        match self.chunks.get(coord) {
            Some(s) => Some(s.base),
            None => None,
        }
    }

    pub fn is_resident(&self, coord: ChunkCoord) -> (r: bool)
        requires
            self.wf(),
        ensures
            r == self.resident(coord),
    {
        self.chunks.contains_key(coord)
    }

    /// Words of all blocks.
    pub fn resident_words(&self) -> (r: usize)
        requires
            self.wf(),
        ensures
            r == self.block_total(),
            r + self.free_total() == self.words().len() - TREE_BASE,
    {
        proof {
            self.lemma_count_bound();
        }
        self.buffers.b_struct.len() - TREE_BASE - self.free.words()
    }

    /// Bytes of a chunk's block; `None` when it has none.
    pub fn resident_bytes_of(&self, coord: ChunkCoord) -> (r: Option<usize>)
        requires
            self.wf(),
        ensures
            match r {
                Some(b) => self.resident(coord) && b == 4 * self.cap_of(coord),
                None => !self.resident(coord),
            },
    {
        match self.chunks.get(coord) {
            Some(s) => {
                proof {
                    assert(self.regions().dom().contains(coord));
                }
                Some(s.cap * 4)
            },
            None => None,
        }
    }

    /// The chunks with a block, in ascending order.
    pub fn resident_chunks(&self) -> (r: Vec<ChunkCoord>)
        requires
            self.wf(),
        ensures
            forall|c: ChunkCoord| #[trigger] r@.contains(c) <==> self.resident(c),
            forall|i: int, j: int|
                0 <= i < j < r.len() ==> lex_less((#[trigger] r@[i]).0, (#[trigger] r@[j]).0),
    {
        let n: usize = self.chunks.len();
        let mut r: Vec<ChunkCoord> = Vec::with_capacity(n);
        let mut i: usize = 0;
        while i < n
            invariant
                i <= n,
                n == self.chunks.items().len(),
                self.chunks.wf(),
                r.len() == i,
                forall|j: int| 0 <= j < i ==> #[trigger] r@[j] == self.chunks.items()[j].0,
            decreases n - i,
        {
            r.push(self.chunks.entry(i).0);
            i += 1;
        }
        proof {
            assert forall|a: int, b: int| 0 <= a < b < r.len() implies lex_less(
                (#[trigger] r@[a]).0,
                (#[trigger] r@[b]).0,
            ) by {
                self.chunks.lemma_ascending(a, b);
            }
            assert forall|c: ChunkCoord| #[trigger] r@.contains(c) <==> self.resident(c) by {
                if r@.contains(c) {
                    let j = choose|j: int| 0 <= j < r@.len() && r@[j] == c;
                    assert(self.chunks.items()[j].0 == c);
                }
                if self.chunks.has(c) {
                    assert(r@[self.chunks.index_of(c)] == c);
                }
            }
        }
        r
    }

    /// `b` is `a` with a new block for `coord` that holds `tree`.
    pub open spec fn installed(a: &Self, b: &Self, coord: ChunkCoord, tree: &ChunkTree) -> bool {
        &&& forall|c: ChunkCoord| #[trigger] b.resident(c) <==> a.resident(c) || c == coord
        &&& forall|c: ChunkCoord|
            c != coord && #[trigger] b.resident(c) ==> b.blocks()[c] == a.blocks()[c]
        &&& b.laid_out(coord, tree)
        &&& b.marked_whole(coord)
        &&& Self::marks_writes(a, b)
        &&& Self::writes_only(a, b, coord, tree.wire_len())
        &&& b.block_total() == a.block_total() + b.cap_of(coord)
        &&& b.free_total() == a.free_total() - (if a.has_room(b.cap_of(coord)) {
            b.cap_of(coord)
        } else {
            0
        })
        &&& first_place(a.free_table(), a.words().len() as int, b.cap_of(coord), b.base_of(coord))
        &&& forall|w: int| #[trigger]
            b.free_table().has(w) <==> a.free_table().has(w) && !(b.base_of(coord) <= w < b.base_of(
                coord,
            ) + b.cap_of(coord))
        &&& b.fresh_globals()
        &&& b.words().len() == a.words().len() + (if a.has_room(b.cap_of(coord)) {
            0
        } else {
            b.cap_of(coord)
        })
    }

    /// `b` is `a` without the block of `coord`.
    pub open spec fn evicted(a: &Self, b: &Self, coord: ChunkCoord) -> bool {
        &&& forall|c: ChunkCoord| #[trigger] b.resident(c) <==> a.resident(c) && c != coord
        &&& forall|c: ChunkCoord| #[trigger] b.resident(c) ==> b.blocks()[c] == a.blocks()[c]
        &&& b.words().len() == a.words().len()
        &&& Self::marks_writes(a, b)
        &&& Self::writes_only(a, b, coord, 0)
        &&& b.block_total() == a.block_total() - a.cap_of(coord)
        &&& b.free_total() == a.free_total() + a.cap_of(coord)
        &&& forall|w: int| #[trigger]
            b.free_table().has(w) <==> a.free_table().has(w) || a.base_of(coord) <= w < a.base_of(
                coord,
            ) + a.cap_of(coord)
        &&& b.fresh_globals()
    }

    /// What was given back has room for a block of its size.
    pub proof fn lemma_room_after_evict(a: &Self, b: &Self, coord: ChunkCoord)
        requires
            a.wf(),
            b.wf(),
            a.resident(coord),
            Self::evicted(a, b, coord),
        ensures
            b.has_room(a.cap_of(coord)),
    {
        let (base, cap) = (a.base_of(coord), a.cap_of(coord));
        a.lemma_block_bound(coord);
        let f = b.free_table();
        assert(f.has(base));
        let t = lemma_run_start(f, base);
        assert forall|w: int| t <= w < t + cap implies f.has(w) by {
            if w > base {
                assert(base <= w < base + cap);
            }
        }
        assert(f.fits_at(t, cap));
    }

    /// Giving a block back and installing its tree again loses nothing: every chunk has the same
    /// tree as before, other chunks have the same block, and a block that was as large as a new
    /// installation makes it is that large again. The index leads to the new block, and its words are
    /// those of the tree, node by node.
    pub proof fn lemma_evict_then_wake_is_lossless(
        a: &Self,
        b: &Self,
        c: &Self,
        coord: ChunkCoord,
        tree: &ChunkTree,
    )
        requires
            a.resident(coord),
            a.tree_of(coord) == tree.model(),
            Self::evicted(a, b, coord),
            Self::installed(b, c, coord, tree),
            c.wf(),
        ensures
            c.words()[c.pos_of(coord)->0] == c.base_of(coord) + 1,
            forall|id: u32| #[trigger]
                tree.model().dom().contains(id) ==> node_at(
                    c.words(),
                    c.base_of(coord) + c.offset_of(coord, id),
                    tree.model()[id],
                    tree.layout(),
                ),
            forall|d: ChunkCoord| #[trigger] c.resident(d) <==> a.resident(d),
            forall|d: ChunkCoord| #[trigger] c.resident(d) ==> c.tree_of(d) == a.tree_of(d),
            forall|d: ChunkCoord|
                d != coord && #[trigger] c.resident(d) ==> c.blocks()[d] == a.blocks()[d],
            a.cap_of(coord) == block_words(tree.wire_len()) ==> c.block_total() == a.block_total(),
    {
        c.lemma_block_reads(coord, 0);
        assert forall|id: u32| #[trigger] tree.model().dom().contains(id) implies node_at(
            c.words(),
            c.base_of(coord) + c.offset_of(coord, id),
            tree.model()[id],
            tree.layout(),
        ) by {
            c.lemma_block_reads(coord, id);
        }
        assert forall|d: ChunkCoord| #[trigger] c.resident(d) <==> a.resident(d) by {
            assert(b.resident(d) <==> a.resident(d) && d != coord);
        }
        assert forall|d: ChunkCoord| #[trigger] c.resident(d) && d != coord implies c.blocks()[d]
            == a.blocks()[d] by {
            assert(b.resident(d));
        }
    }

    /// Syncing brings the palette words up to date, whatever earlier version of the palette they
    /// showed, and whoever took its report in between.
    pub proof fn lemma_palette_follows(a: &Self, b: &Self, p0: Palette, p1: Palette)
        requires
            p0.wf(),
            a.follows(p0),
            Self::synced(a, b, p0, p1),
        ensures
            b.shows_palette(p0),
            b.shows_palette(p1),
    {
        if a.palette_version() != Some(p0.version) {
            let span = palette_span(a.palette_version(), p0);
            assert forall|w: int| 0 <= w < PALETTE_WORDS implies #[trigger] b.palette_words()[w]
                == entry_word(p0.entries@[w / 2], w % 2) by {
                if !(span.0 <= w / 2 <= span.1) {
                    let v = a.palette_version()->0;
                    assert(!p0.reports(w / 2));
                    assert(p0.past@[v as int][w / 2] == p0.entries@[w / 2]);
                    assert(a.palette_words()[w] == entry_word(p0.past@[v as int][w / 2], w % 2));
                }
            }
        }
    }

    /// A builder that shows a palette follows all that becomes of it: writes, and reports taken by
    /// other builders.
    pub proof fn lemma_still_follows(a: &Self, p0: Palette, p1: Palette)
        requires
            p0.wf(),
            a.follows(p0),
            Palette::grew(p0, p1) || Palette::taken(p0, p1),
        ensures
            a.follows(p1),
    {
    }

    /// Installs a tree for a chunk that has no block.
    ///
    /// Nothing happens when the chunk has a block, the tree is air, or the chunk is outside the
    /// window; the answer says whether a block was installed.
    pub fn ensure_resident_tree(&mut self, coord: ChunkCoord, tree: &ChunkTree) -> (r: bool)
        requires
            old(self).wf(),
            tree.wf(),
            !old(self).resident(coord) && !tree.is_air() && old(self).pos_of(coord) is Some ==> old(
                self).can_take(block_words(tree.wire_len())),
        ensures
            final(self).wf(),
            r == (!old(self).resident(coord) && !tree.is_air() && old(self).pos_of(coord) is Some),
            !r ==> *final(self) == *old(self),
            Self::marks_local(old(self), final(self), coord),
            Self::marks_changes(old(self), final(self)),
            final(self).same_setup(old(self)),
            final(self).same_palette(old(self)),
            r ==> Self::installed(old(self), final(self), coord, tree),
    {
        let ghost o = *self;
        proof {
            self.lemma_same_wf(&o);
        }
        if self.chunks.contains_key(coord) || tree.is_empty() {
            return false;
        }
        if chunk_index_pos(self.origin, self.dims, coord.0).is_none() {
            return false;
        }
        self.install_chunk(coord, tree);
        let ghost s1 = *self;
        proof {
            assert forall|c: ChunkCoord| #[trigger] s1.resident(c) <==> o.resident(c) || c == coord by {
                assert(s1.chunks.has(c) <==> o.chunks.has(c) || c == coord);
            }
            assert forall|c: ChunkCoord| c != coord && #[trigger] s1.resident(c) implies s1.blocks()[c]
                == o.blocks()[c] by {
                assert(s1.chunks.has(c));
            }
        }
        self.refresh_globals();
        proof {
            Self::lemma_marks_trans(&o, &s1, self);
            assert(self.blocks() == s1.blocks());
            Self::lemma_local_same(&o, &s1, self, coord);
            assert(self.resident(coord));
            Self::lemma_laid_kept(&s1, self, coord, tree);
            assert forall|id: u32, w: int| #[trigger] self.node_word(coord, id, w) implies self.dirty_word(
                w,
            ) by {
                assert(s1.node_word(coord, id, w));
                assert(s1.dirty_word(w));
            }
            assert forall|w: int| #[trigger] o.dirty_word(w) implies self.dirty_word(w) by {
                assert(s1.dirty_word(w));
            }
            assert forall|w: int|
                0 <= w < o.words().len() && #[trigger] self.words()[w] != o.words()[w] implies self.dirty_word(
                w,
            ) by {
                assert(s1.dirty_word(w));
            }
            assert forall|c: ChunkCoord| #[trigger] self.resident(c) <==> o.resident(c) || c == coord by {
                assert(s1.resident(c) <==> o.resident(c) || c == coord);
            }
            assert forall|c: ChunkCoord| c != coord && #[trigger] self.resident(c) implies self.blocks()[c]
                == o.blocks()[c] by {
                assert(s1.resident(c));
            }
        }
        true
    }

    /// Installs a chunk's own tree (see [`Self::ensure_resident_tree`]).
    pub fn ensure_resident(&mut self, grid: &VolumeGrid, coord: ChunkCoord) -> (r: bool)
        requires
            old(self).wf(),
            grid.wf(),
            grid.content(coord) && !old(self).resident(coord) && old(self).pos_of(coord) is Some ==> old(
                self).can_take(block_words(grid.chunks.at(coord).wire_len())),
        ensures
            final(self).wf(),
            r == (grid.content(coord) && !old(self).resident(coord) && old(self).pos_of(coord) is Some),
            !r ==> *final(self) == *old(self),
            Self::marks_local(old(self), final(self), coord),
            Self::marks_changes(old(self), final(self)),
            final(self).same_setup(old(self)),
            final(self).same_palette(old(self)),
            r ==> Self::installed(old(self), final(self), coord, &grid.chunks.at(coord)),
    {
        let ghost o = *self;
        proof {
            self.lemma_same_wf(&o);
        }
        match grid.chunk(coord) {
            Some(tree) => {
                if tree.is_empty() {
                    false
                } else {
                    self.ensure_resident_tree(coord, tree)
                }
            },
            None => false,
        }
    }

    /// Gives a chunk's block back; its tree is not touched, so it can be installed again. Answers
    /// whether there was a block.
    pub fn evict(&mut self, coord: ChunkCoord) -> (r: bool)
        requires
            old(self).wf(),
        ensures
            final(self).wf(),
            r == old(self).resident(coord),
            !r ==> *final(self) == *old(self),
            Self::marks_local(old(self), final(self), coord),
            Self::marks_changes(old(self), final(self)),
            final(self).same_setup(old(self)),
            final(self).same_palette(old(self)),
            r ==> Self::evicted(old(self), final(self), coord),
    {
        let ghost o = *self;
        proof {
            self.lemma_same_wf(&o);
        }
        if !self.chunks.contains_key(coord) {
            return false;
        }
        self.release_chunk(coord);
        let ghost s1 = *self;
        proof {
            assert forall|c: ChunkCoord| #[trigger] s1.resident(c) <==> o.resident(c) && c != coord by {
                assert(s1.chunks.has(c) <==> o.chunks.has(c) && c != coord);
            }
            assert forall|c: ChunkCoord| #[trigger] s1.resident(c) implies s1.blocks()[c]
                == o.blocks()[c] by {
                assert(s1.chunks.has(c));
            }
        }
        self.refresh_globals();
        proof {
            Self::lemma_marks_trans(&o, &s1, self);
            assert(self.blocks() == s1.blocks());
            Self::lemma_local_same(&o, &s1, self, coord);
            assert(Self::marks_writes(&s1, self));
            Self::lemma_writes_trans(&o, &s1, self);
            assert forall|c: ChunkCoord| #[trigger] self.resident(c) <==> o.resident(c) && c != coord by {
                assert(s1.resident(c) <==> o.resident(c) && c != coord);
            }
            assert forall|c: ChunkCoord| #[trigger] self.resident(c) implies self.blocks()[c]
                == o.blocks()[c] by {
                assert(s1.resident(c));
            }
        }
        true
    }

    pub fn origin(&self) -> (r: IVec3)
        ensures
            r == self.window_spec().0,
    {
        self.origin
    }

    pub fn dims(&self) -> (r: IVec3)
        ensures
            r == self.window_spec().1,
    {
        self.dims
    }

    /// The window: origin and size, in chunks.
    pub fn window(&self) -> (r: (IVec3, IVec3))
        ensures
            r == self.window_spec(),
    {
        (self.origin, self.dims)
    }

    /// The index word of a chunk; `None` outside the window.
    pub fn window_word(&self, coord: ChunkCoord) -> (r: Option<usize>)
        requires
            self.wf(),
        ensures
            match r {
                Some(p) => self.pos_of(coord) == Some(p as int) && p < TREE_BASE,
                None => self.pos_of(coord) is None,
            },
    {
        chunk_index_pos(self.origin, self.dims, coord.0)
    }

    /// The blocks of the chunks that the window reaches.
    spec fn window_regions(&self) -> Regions {
        Map::new(
            |c: ChunkCoord|
                self.chunks.has(c) && index_pos(self.origin, self.dims, c.0) is Some,
            |c: ChunkCoord| (self.chunks.at(c).base as int, self.chunks.at(c).cap as int),
        )
    }

    /// Blocks lie in the tree region, apart from each other and from the free segments.
    spec fn space_ok(&self) -> bool {
        let r = self.regions();
        &&& forall|c: ChunkCoord| #[trigger]
            r.dom().contains(c) ==> TREE_BASE <= r[c].0 && 67 <= r[c].1 && r[c].0 + r[c].1
                <= self.words().len()
        &&& forall|c: ChunkCoord, w: int|
            r.dom().contains(c) && #[trigger] in_region(r[c], w) ==> !#[trigger] self.free.has(w)
        &&& forall|c: ChunkCoord, d: ChunkCoord| #[trigger]
            r.dom().contains(c) && #[trigger] r.dom().contains(d) && c != d ==> regions_apart(r[c], r[d])
    }

    /// Moves the window.
    ///
    /// Index entries are block addresses, which do not depend on the window, so the entries move and
    /// the blocks stay. All entries are read before any is written: a chunk's new place may be
    /// another's former one. Chunks that the new window does not reach give their blocks back.
    #[verifier::rlimit(50)]
    #[verifier::spinoff_prover]
    pub fn set_window(&mut self, origin: IVec3, dims: IVec3)
        requires
            old(self).wf(),
            window_ok(dims),
        ensures
            final(self).wf(),
            final(self).window_spec() == (origin, dims),
            final(self).reserved() == old(self).reserved(),
            final(self).rejected() == old(self).rejected(),
            final(self).same_palette(old(self)),
            old(self).window_spec() == (origin, dims) ==> *final(self) == *old(self),
            forall|c: ChunkCoord| #[trigger]
                final(self).resident(c) <==> old(self).resident(c) && index_pos(origin, dims, c.0) is Some,
            forall|c: ChunkCoord| #[trigger]
                final(self).resident(c) ==> final(self).blocks()[c] == old(self).blocks()[c],
            final(self).words().len() == old(self).words().len(),
            forall|w: int|
                TREE_BASE <= w < old(self).words().len() ==> #[trigger] final(self).words()[w] == old(
                    self).words()[w],
            Self::freed_outside(old(self), final(self)),
            Self::marks_changes(old(self), final(self)),
            // the blocks stay, and nothing of them is uploaded again
            forall|w: int| #[trigger]
                final(self).dirty_word(w) <==> old(self).dirty_word(w) || (old(self).window_spec() != (
                    origin,
                    dims,
                ) && 0 <= w < TREE_BASE),
            final(self).globals() == (BrickMapGlobals {
                index_origin_x: origin.x,
                index_origin_y: origin.y,
                index_origin_z: origin.z,
                index_dims_x: dims.x as u32,
                index_dims_y: dims.y as u32,
                index_dims_z: dims.z as u32,
                ..old(self).globals()
            }),
    {
        let ghost o = *self;
        proof {
            self.lemma_same_wf(&o);
        }
        if self.origin == origin && self.dims == dims {
            proof {
                assert forall|c: ChunkCoord| #[trigger] self.resident(c) implies index_pos(
                    origin,
                    dims,
                    c.0,
                ) is Some by {
                    assert(self.regions().dom().contains(c));
                }
            }
            return;
        }
        let n: usize = self.chunks.len();
        let ghost items = self.chunks.items();
        let mut keep: Vec<(usize, u32)> = Vec::new();
        let mut dropped: Vec<ChunkCoord> = Vec::new();
        let ghost mut kept_at: Seq<int> = Seq::empty();
        let ghost mut dropped_at: Seq<int> = Seq::empty();
        let mut i: usize = 0;
        while i < n
            invariant
                i <= n,
                *self == o,
                o.wf(),
                n == items.len(),
                items == o.chunks.items(),
                window_ok(dims),
                kept_at.len() == keep@.len(),
                dropped_at.len() == dropped@.len(),
                forall|q: int|
                    0 <= q < kept_at.len() ==> 0 <= #[trigger] kept_at[q] < i && index_pos(
                        origin,
                        dims,
                        items[kept_at[q]].0.0,
                    ) == Some(keep@[q].0 as int) && keep@[q].0 < TREE_BASE && keep@[q].1
                        == items[kept_at[q]].1.base + 1,
                forall|a: int, b: int|
                    0 <= a < b < kept_at.len() ==> #[trigger] kept_at[a] < #[trigger] kept_at[b],
                forall|q: int|
                    0 <= q < dropped_at.len() ==> 0 <= #[trigger] dropped_at[q] < i && dropped@[q]
                        == items[dropped_at[q]].0 && index_pos(origin, dims, dropped@[q].0) is None,
                forall|a: int, b: int|
                    0 <= a < b < dropped_at.len() ==> #[trigger] dropped_at[a] < #[trigger] dropped_at[b],
                forall|j: int|
                    0 <= j < i ==> if index_pos(origin, dims, (#[trigger] items[j]).0.0) is Some {
                        kept_at.contains(j)
                    } else {
                        dropped_at.contains(j)
                    },
            decreases n - i,
        {
            let c: ChunkCoord = self.chunks.entry(i).0;
            let ghost (k0, d0) = (kept_at, dropped_at);
            proof {
                o.chunks.lemma_index(i as int);
                assert(o.regions().dom().contains(c));
                lemma_index_pos(self.origin, self.dims, c.0, c.0);
            }
            match chunk_index_pos(self.origin, self.dims, c.0) {
                Some(a) => {
                    let entry: u32 = self.buffers.b_struct[a];
                    match chunk_index_pos(origin, dims, c.0) {
                        Some(b) => {
                            keep.push((b, entry));
                            proof {
                                kept_at = kept_at.push(i as int);
                                assert(kept_at.last() == i);
                            }
                        },
                        None => {
                            dropped.push(c);
                            proof {
                                dropped_at = dropped_at.push(i as int);
                                assert(dropped_at.last() == i);
                            }
                        },
                    }
                },
                None => {
                    dropped.push(c);
                },
            }
            proof {
                assert forall|j: int| 0 <= j < i + 1 implies if index_pos(
                    origin,
                    dims,
                    (#[trigger] items[j]).0.0,
                ) is Some {
                    kept_at.contains(j)
                } else {
                    dropped_at.contains(j)
                } by {
                    if j < i {
                        if k0.contains(j) {
                            let q = choose|q: int| 0 <= q < k0.len() && k0[q] == j;
                            assert(kept_at[q] == j);
                        }
                        if d0.contains(j) {
                            let q = choose|q: int| 0 <= q < d0.len() && d0[q] == j;
                            assert(dropped_at[q] == j);
                        }
                    }
                }
            }
            i += 1;
        }
        let ghost b0 = self.buffers.b_struct@;
        i = 0;
        while i < TREE_BASE
            invariant
                i <= TREE_BASE <= b0.len(),
                self.buffers.b_struct@.len() == b0.len(),
                forall|p: int| 0 <= p < i ==> #[trigger] self.buffers.b_struct@[p] == 0,
                forall|p: int| i <= p < b0.len() ==> #[trigger] self.buffers.b_struct@[p] == b0[p],
                self.same_rest(&o),
                self.free == o.free,
                self.dirty_struct == o.dirty_struct,
            decreases TREE_BASE - i,
        {
            self.buffers.b_struct[i] = 0;
            i += 1;
        }
        i = 0;
        while i < keep.len()
            invariant
                i <= keep.len(),
                TREE_BASE <= b0.len(),
                self.buffers.b_struct@.len() == b0.len(),
                n == items.len(),
                items == o.chunks.items(),
                o.chunks.wf(),
                window_ok(dims),
                kept_at.len() == keep@.len(),
                forall|q: int|
                    0 <= q < kept_at.len() ==> 0 <= #[trigger] kept_at[q] < n && index_pos(
                        origin,
                        dims,
                        items[kept_at[q]].0.0,
                    ) == Some(keep@[q].0 as int) && keep@[q].0 < TREE_BASE,
                forall|a: int, b: int|
                    0 <= a < b < kept_at.len() ==> #[trigger] kept_at[a] < #[trigger] kept_at[b],
                forall|q: int|
                    0 <= q < i ==> self.buffers.b_struct@[(#[trigger] keep@[q]).0 as int] == keep@[q].1,
                forall|p: int|
                    0 <= p < TREE_BASE && #[trigger] self.buffers.b_struct@[p] != 0 ==> exists|q: int|
                        0 <= q < i && (#[trigger] keep@[q]).0 == p,
                forall|p: int|
                    TREE_BASE <= p < b0.len() ==> #[trigger] self.buffers.b_struct@[p] == b0[p],
                self.same_rest(&o),
                self.free == o.free,
                self.dirty_struct == o.dirty_struct,
            decreases keep.len() - i,
        {
            let (p, entry) = keep[i];
            let ghost before = self.buffers.b_struct@;
            proof {
                assert(0 <= kept_at[i as int] < n);
            }
            self.buffers.b_struct[p] = entry;
            proof {
                assert forall|q: int| 0 <= q < i + 1 implies self.buffers.b_struct@[(
                #[trigger] keep@[q]).0 as int] == keep@[q].1 by {
                    if q < i {
                        assert(kept_at[q] < kept_at[i as int]);
                        o.chunks.lemma_ascending(kept_at[q], kept_at[i as int]);
                        lemma_index_pos(
                            origin,
                            dims,
                            items[kept_at[q]].0.0,
                            items[kept_at[i as int]].0.0,
                        );
                        assert(keep@[q].0 != p);
                    }
                }
                assert forall|w: int| 0 <= w < TREE_BASE && #[trigger] self.buffers.b_struct@[w] != 0 implies exists|
                    q: int,
                | 0 <= q < i + 1 && (#[trigger] keep@[q]).0 == w by {
                    if w == p {
                        assert(keep@[i as int].0 == w);
                    } else {
                        assert(before[w] != 0);
                        let q = choose|q: int| 0 <= q < i && (#[trigger] keep@[q]).0 == w;
                        assert(keep@[q].0 == w);
                    }
                }
            }
            i += 1;
        }
        self.origin = origin;
        self.dims = dims;
        self.buffers.globals.index_origin_x = origin.x;
        self.buffers.globals.index_origin_y = origin.y;
        self.buffers.globals.index_origin_z = origin.z;
        self.buffers.globals.index_dims_x = dims.x as u32;
        self.buffers.globals.index_dims_y = dims.y as u32;
        self.buffers.globals.index_dims_z = dims.z as u32;
        let ghost s1 = *self;
        proof {
            self.lemma_reindexed(o, keep@, kept_at, dropped_at);
        }
        i = 0;
        while i < dropped.len()
            invariant
                i <= dropped.len(),
                o.wf(),
                n == items.len(),
                items == o.chunks.items(),
                dropped_at.len() == dropped@.len(),
                forall|q: int|
                    0 <= q < dropped_at.len() ==> 0 <= #[trigger] dropped_at[q] < n && dropped@[q]
                        == items[dropped_at[q]].0 && index_pos(origin, dims, dropped@[q].0) is None,
                forall|a: int, b: int|
                    0 <= a < b < dropped_at.len() ==> #[trigger] dropped_at[a] < #[trigger] dropped_at[b],
                self.origin == origin,
                self.dims == dims,
                self.rejected_chunks == o.rejected_chunks,
                self.dirty_palette == o.dirty_palette,
                self.palette_synced_at == o.palette_synced_at,
                self.reserve == o.reserve,
                self.buffers == s1.buffers,
                self.dirty_struct == o.dirty_struct,
                self.frame_on(self.window_regions()),
                self.space_ok(),
                self.acct(0),
                self.blocks_ok(),
                forall|c: ChunkCoord| #[trigger]
                    self.chunks.has(c) <==> o.chunks.has(c) && !(exists|q: int|
                        0 <= q < i && (#[trigger] dropped@[q]) == c),
                forall|c: ChunkCoord| #[trigger]
                    self.chunks.has(c) ==> self.chunks.at(c) == o.chunks.at(c),
                forall|w: int| #[trigger]
                    self.free.has(w) <==> o.free.has(w) || exists|q: int|
                        0 <= q < i && o.block_has(#[trigger] dropped@[q], w),
            decreases dropped.len() - i,
        {
            let c: ChunkCoord = dropped[i];
            let ghost before = *self;
            let ghost r = self.regions();
            proof {
                assert(0 <= dropped_at[i as int] < n);
                o.chunks.lemma_index(dropped_at[i as int]);
                assert forall|q: int| 0 <= q < i implies #[trigger] dropped@[q] != c by {
                    assert(dropped_at[q] < dropped_at[i as int]);
                    o.chunks.lemma_ascending(dropped_at[q], dropped_at[i as int]);
                }
                assert(before.chunks.has(c));
                assert(r.dom().contains(c));
            }
            let ghost it = self.chunks.items();
            let ghost ix = self.chunks.index_of(c);
            if let Some(slot) = self.chunks.remove(c) {
                proof {
                    lemma_caps_remove(it, ix);
                    assert forall|w: int| slot.base <= w < slot.base + slot.cap implies !self.free.has(w) by {
                        assert(in_region(r[c], w));
                    }
                }
                self.free.free_run(slot.base, slot.cap);
                proof {
                    let q = self.regions();
                    assert(q =~= r.remove(c));
                    let wr = self.window_regions();
                    assert(wr =~= before.window_regions());
                    assert forall|d: ChunkCoord, w: int|
                        q.dom().contains(d) && #[trigger] in_region(q[d], w) implies !#[trigger] self.free.has(
                    w) by {
                        assert(r.dom().contains(d) && in_region(r[d], w));
                        assert(regions_apart(r[d], r[c]));
                    }
                    assert forall|d: ChunkCoord, w: int|
                        wr.dom().contains(d) && #[trigger] in_region(wr[d], w) implies !#[trigger] self.free.has(
                    w) by {
                        assert(q.dom().contains(d) && in_region(q[d], w));
                    }
                    assert forall|d: ChunkCoord, e: ChunkCoord| #[trigger]
                        q.dom().contains(d) && #[trigger] q.dom().contains(e) && d != e implies regions_apart(
                        q[d],
                        q[e],
                    ) by {
                        assert(r.dom().contains(d) && r.dom().contains(e));
                    }
                    assert forall|p: int|
                        0 <= p < TREE_BASE && #[trigger] self.buffers.b_struct@[p] != 0 implies exists|
                        d: ChunkCoord,
                    | #[trigger]
                        wr.dom().contains(d) && index_pos(self.origin, self.dims, d.0) == Some(p) by {
                        assert(before.buffers.b_struct@[p] != 0);
                    }
                    assert forall|d: ChunkCoord| #[trigger] self.chunks.has(d) implies self.chunks.at(
                        d,
                    ).block_ok(self.buffers.b_struct@) && self.chunks.at(d) == o.chunks.at(d) by {
                        assert(before.chunks.has(d));
                    }
                }
            }
            proof {
                assert forall|w: int| #[trigger] self.free.has(w) <==> o.free.has(w) || exists|q: int|
                    0 <= q < i + 1 && o.block_has(#[trigger] dropped@[q], w) by {
                    assert(before.free.has(w) <==> o.free.has(w) || exists|q: int|
                        0 <= q < i && o.block_has(#[trigger] dropped@[q], w));
                    assert(self.free.has(w) <==> before.free.has(w) || o.block_has(c, w));
                    if o.block_has(c, w) {
                        assert(o.block_has(dropped@[i as int], w));
                    }
                    if exists|q: int| 0 <= q < i && o.block_has(#[trigger] dropped@[q], w) {
                        let q = choose|q: int| 0 <= q < i && o.block_has(#[trigger] dropped@[q], w);
                        assert(o.block_has(dropped@[q], w));
                    }
                    if exists|q: int| 0 <= q < i + 1 && o.block_has(#[trigger] dropped@[q], w) {
                        let q = choose|q: int| 0 <= q < i + 1 && o.block_has(#[trigger] dropped@[q], w);
                        if q < i {
                            assert(o.block_has(dropped@[q], w));
                        }
                    }
                }
                assert forall|d: ChunkCoord| #[trigger] self.chunks.has(d) <==> o.chunks.has(d) && !(
                exists|q: int| 0 <= q < i + 1 && (#[trigger] dropped@[q]) == d) by {
                    assert(self.chunks.has(d) <==> before.chunks.has(d) && d != c);
                    if exists|q: int| 0 <= q < i + 1 && (#[trigger] dropped@[q]) == d {
                        let q = choose|q: int| 0 <= q < i + 1 && (#[trigger] dropped@[q]) == d;
                        if q < i {
                            assert(dropped@[q] == d);
                        }
                    }
                    if d == c {
                        assert(dropped@[i as int] == d);
                    }
                    if exists|q: int| 0 <= q < i && (#[trigger] dropped@[q]) == d {
                        let q = choose|q: int| 0 <= q < i && (#[trigger] dropped@[q]) == d;
                        assert(dropped@[q] == d);
                    }
                }
            }
            i += 1;
        }
        let ghost s2 = *self;
        mark_words(&mut self.dirty_struct, 0, TREE_BASE, Ghost(self.buffers.b_struct@.len() as int));
        proof {
            assert forall|c: ChunkCoord| #[trigger] self.chunks.has(c) <==> o.chunks.has(c) && index_pos(
                origin,
                dims,
                c.0,
            ) is Some by {
                assert(self.chunks.has(c) <==> s2.chunks.has(c));
                if o.chunks.has(c) {
                    let j = o.chunks.index_of(c);
                    assert(items[j].0 == c);
                    if index_pos(origin, dims, c.0) is None {
                        assert(dropped_at.contains(j));
                        let q = choose|q: int| 0 <= q < dropped_at.len() && dropped_at[q] == j;
                        assert(dropped@[q] == c);
                    } else {
                        if exists|q: int| 0 <= q < dropped@.len() && (#[trigger] dropped@[q]) == c {
                            let q = choose|q: int|
                                0 <= q < dropped@.len() && (#[trigger] dropped@[q]) == c;
                            assert(0 <= dropped_at[q] < n);
                        }
                    }
                }
            }
            assert forall|w: int| #[trigger] self.free_table().has(w) <==> o.free_table().has(w) || exists|
                c: ChunkCoord,
            | #[trigger] o.block_has(c, w) && !self.resident(c) by {
                assert(s2.free.has(w) <==> o.free.has(w) || exists|q: int|
                    0 <= q < dropped@.len() && o.block_has(#[trigger] dropped@[q], w));
                if exists|q: int| 0 <= q < dropped@.len() && o.block_has(#[trigger] dropped@[q], w) {
                    let q = choose|q: int|
                        0 <= q < dropped@.len() && o.block_has(#[trigger] dropped@[q], w);
                    assert(0 <= dropped_at[q] < n);
                    assert(!self.chunks.has(dropped@[q]));
                    assert(o.block_has(dropped@[q], w) && !self.resident(dropped@[q]));
                }
                if exists|c: ChunkCoord| #[trigger] o.block_has(c, w) && !self.resident(c) {
                    let c = choose|c: ChunkCoord| #[trigger] o.block_has(c, w) && !self.resident(c);
                    assert(o.chunks.has(c) && !self.chunks.has(c));
                    let j = o.chunks.index_of(c);
                    assert(items[j].0 == c);
                    assert(dropped_at.contains(j));
                    let q = choose|q: int| 0 <= q < dropped_at.len() && dropped_at[q] == j;
                    assert(dropped@[q] == c);
                    assert(o.block_has(dropped@[q], w));
                }
            }
            assert(self.window_regions() =~= self.regions());
            let r = self.regions();
            assert(s2.window_regions() =~= r);
            assert forall|p: int| 0 <= p < TREE_BASE && #[trigger] self.buffers.b_struct@[p] != 0 implies exists|
                d: ChunkCoord,
            | #[trigger]
                r.dom().contains(d) && index_pos(self.origin, self.dims, d.0) == Some(p) by {
                assert(s2.buffers.b_struct@[p] != 0);
            }
            assert(self.frame_on(r));
            assert forall|c: ChunkCoord| #[trigger] self.chunks.has(c) implies self.chunks.at(c).block_ok(
                self.buffers.b_struct@,
            ) && self.chunks.at(c) == o.chunks.at(c) by {
                assert(s2.chunks.has(c));
            }
            assert forall|w: int| #[trigger] self.live(w) && !self.dirty_word(w) implies o.live(w)
                && o.words()[w] == self.words()[w] by {
                if 0 <= w < TREE_BASE {
                    assert(dirty_has(self.dirty_struct@, w));
                } else {
                    let (c, id) = choose|c: ChunkCoord, id: u32| self.node_word(c, id, w);
                    assert(self.chunks.has(c));
                    let s = self.chunks.at(c);
                    lemma_room_bound(id, s.tree@[id]);
                    assert(r.dom().contains(c));
                    assert(o.node_word(c, id, w));
                }
            }
            assert forall|c: ChunkCoord| #[trigger] self.resident(c) implies self.blocks()[c]
                == o.blocks()[c] by {
                assert(self.chunks.has(c));
            }
        }
    }

    /// After the entries have moved, the index leads to the chunks that the new window reaches.
    proof fn lemma_reindexed(
        &self,
        o: Self,
        keep: Seq<(usize, u32)>,
        kept_at: Seq<int>,
        dropped_at: Seq<int>,
    )
        requires
            o.wf(),
            self.chunks == o.chunks,
            self.free == o.free,
            self.dirty_struct == o.dirty_struct,
            self.dirty_palette == o.dirty_palette,
            self.buffers.b_palette == o.buffers.b_palette,
            self.buffers.b_struct@.len() == o.buffers.b_struct@.len(),
            window_ok(self.dims),
            self.buffers.globals.index_origin_x == self.origin.x,
            self.buffers.globals.index_origin_y == self.origin.y,
            self.buffers.globals.index_origin_z == self.origin.z,
            self.buffers.globals.index_dims_x == self.dims.x,
            self.buffers.globals.index_dims_y == self.dims.y,
            self.buffers.globals.index_dims_z == self.dims.z,
            self.buffers.globals.rest_is_zero(),
            kept_at.len() == keep.len(),
            forall|q: int|
                0 <= q < kept_at.len() ==> 0 <= #[trigger] kept_at[q] < o.chunks.items().len()
                    && index_pos(self.origin, self.dims, o.chunks.items()[kept_at[q]].0.0) == Some(
                    keep[q].0 as int,
                ) && keep[q].0 < TREE_BASE && keep[q].1 == o.chunks.items()[kept_at[q]].1.base + 1,
            forall|j: int|
                0 <= j < o.chunks.items().len() ==> if index_pos(
                    self.origin,
                    self.dims,
                    (#[trigger] o.chunks.items()[j]).0.0,
                ) is Some {
                    kept_at.contains(j)
                } else {
                    dropped_at.contains(j)
                },
            forall|q: int|
                0 <= q < keep.len() ==> self.buffers.b_struct@[(#[trigger] keep[q]).0 as int] == keep[q].1,
            forall|p: int|
                0 <= p < TREE_BASE && #[trigger] self.buffers.b_struct@[p] != 0 ==> exists|q: int|
                    0 <= q < keep.len() && (#[trigger] keep[q]).0 == p,
            forall|p: int|
                TREE_BASE <= p < o.buffers.b_struct@.len() ==> #[trigger] self.buffers.b_struct@[p]
                    == o.buffers.b_struct@[p],
        ensures
            self.frame_on(self.window_regions()),
            self.space_ok(),
            self.acct(0),
            self.blocks_ok(),
    {
        let r = self.regions();
        let wr = self.window_regions();
        let b = self.buffers.b_struct@;
        let items = o.chunks.items();
        assert(r =~= o.regions());
        assert forall|c: ChunkCoord, w: int|
            wr.dom().contains(c) && #[trigger] in_region(wr[c], w) implies !#[trigger] self.free.has(w) by {
            assert(r.dom().contains(c) && in_region(r[c], w));
        }
        assert forall|c: ChunkCoord, d: ChunkCoord| #[trigger]
            wr.dom().contains(c) && #[trigger] wr.dom().contains(d) && c != d implies regions_apart(
            wr[c],
            wr[d],
        ) by {
            assert(r.dom().contains(c) && r.dom().contains(d));
        }
        assert forall|c: ChunkCoord| #[trigger] wr.dom().contains(c) implies TREE_BASE <= wr[c].0 && 67
            <= wr[c].1 && wr[c].0 + wr[c].1 <= b.len() && b[index_pos(
            self.origin,
            self.dims,
            c.0,
        )->0] == wr[c].0 + 1 by {
            assert(r.dom().contains(c));
            let j = o.chunks.index_of(c);
            assert(items[j].0 == c);
            assert(kept_at.contains(j));
            let q = choose|q: int| 0 <= q < kept_at.len() && kept_at[q] == j;
            assert(keep[q].1 == items[kept_at[q]].1.base + 1);
            assert(b[keep[q].0 as int] == keep[q].1);
        }
        assert forall|p: int| 0 <= p < TREE_BASE && #[trigger] b[p] != 0 implies exists|c: ChunkCoord|
            #[trigger]
            wr.dom().contains(c) && index_pos(self.origin, self.dims, c.0) == Some(p) by {
            let q = choose|q: int| 0 <= q < keep.len() && (#[trigger] keep[q]).0 == p;
            assert(0 <= kept_at[q] < items.len());
            o.chunks.lemma_index(kept_at[q]);
            assert(wr.dom().contains(items[kept_at[q]].0));
        }
        assert forall|c: ChunkCoord| #[trigger] self.chunks.has(c) implies self.chunks.at(c).block_ok(b) by {
            assert(o.chunks.has(c));
            assert(r.dom().contains(c));
            lemma_block_frame(o.chunks.at(c), o.buffers.b_struct@, b);
        }
    }

    /// What a block's words say of a node, and where the index leads.
    pub proof fn lemma_block_reads(&self, c: ChunkCoord, id: u32)
        requires
            self.wf(),
            self.resident(c),
        ensures
            tree_wf(self.tree_of(c)),
            self.pos_of(c) is Some,
            0 <= self.pos_of(c)->0 < TREE_BASE,
            self.words()[self.pos_of(c)->0] == self.base_of(c) + 1,
            self.offset_of(c, 0) == 0,
            self.base_of(c) >= TREE_BASE,
            self.base_of(c) + self.cap_of(c) <= self.words().len(),
            self.tree_of(c).dom().contains(id) ==> {
                &&& node_at(
                    self.words(),
                    self.base_of(c) + self.offset_of(c, id),
                    self.tree_of(c)[id],
                    self.blocks()[c].slots,
                )
                &&& self.offset_of(c, id) + content_len(self.tree_of(c)[id]) <= self.cap_of(c)
            },
    {
        assert(self.chunks.has(c));
        assert(self.regions().dom().contains(c));
        lemma_index_pos(self.origin, self.dims, c.0, c.0);
        let s = self.chunks.at(c);
        if s.tree@.dom().contains(id) {
            lemma_room_bound(id, s.tree@[id]);
        }
    }

    /// An index entry that is set leads to a block.
    pub proof fn lemma_index_entry(&self, p: int) -> (c: ChunkCoord)
        requires
            self.wf(),
            0 <= p < TREE_BASE,
            self.words()[p] != 0,
        ensures
            self.resident(c),
            self.pos_of(c) == Some(p),
    {
        let r = self.regions();
        let c = choose|c: ChunkCoord| #[trigger]
            r.dom().contains(c) && index_pos(self.origin, self.dims, c.0) == Some(p);
        c
    }

    /// The words hold the index and can be addressed.
    pub proof fn lemma_len(&self)
        requires
            self.wf(),
        ensures
            TREE_BASE <= self.words().len(),
            len_ok(self.words().len() as int),
            window_ok(self.window_spec().1),
            self.palette_words().len() == PALETTE_WORDS,
            self.globals().index_origin_x == self.window_spec().0.x,
            self.globals().index_origin_y == self.window_spec().0.y,
            self.globals().index_origin_z == self.window_spec().0.z,
            self.globals().index_dims_x == self.window_spec().1.x,
            self.globals().index_dims_y == self.window_spec().1.y,
            self.globals().index_dims_z == self.window_spec().1.z,
            self.globals().rest_is_zero(),
            dirty_ok(self.dirty_list(), self.words().len() as int),
    {
    }

    /// Number of byte ranges that await an upload.
    pub fn dirty_count(&self) -> (r: usize)
        ensures
            r == self.dirty_list().len(),
    {
        self.dirty_struct.len()
    }
}

/// Component number `axis` of a vector.
pub open spec fn axis_of(v: IVec3, axis: int) -> i32 {
    if axis == 0 {
        v.x
    } else if axis == 1 {
        v.y
    } else {
        v.z
    }
}

/// Some chunk has content.
pub open spec fn any_content(grid: &VolumeGrid) -> bool {
    exists|c: ChunkCoord| grid.content(c)
}

/// `v` is the lowest coordinate of the content on an axis.
pub open spec fn is_lowest(grid: &VolumeGrid, axis: int, v: int) -> bool {
    &&& forall|c: ChunkCoord| #[trigger] grid.content(c) ==> v <= axis_of(c.0, axis)
    &&& exists|c: ChunkCoord| #[trigger] grid.content(c) && axis_of(c.0, axis) == v
}

/// `v` is the highest coordinate of the content on an axis.
pub open spec fn is_highest(grid: &VolumeGrid, axis: int, v: int) -> bool {
    &&& forall|c: ChunkCoord| #[trigger] grid.content(c) ==> v >= axis_of(c.0, axis)
    &&& exists|c: ChunkCoord| #[trigger] grid.content(c) && axis_of(c.0, axis) == v
}

/// The window of one axis: a margin of one chunk round the content, at most 64 chunks.
pub open spec fn axis_window(grid: &VolumeGrid, axis: int, o: int, d: int) -> bool {
    &&& is_lowest(grid, axis, o + 1)
    &&& exists|hi: int| #[trigger]
        is_highest(grid, axis, hi) && d == (if hi - (o + 1) + 3 < 64 {
            hi - (o + 1) + 3
        } else {
            64
        })
}

/// The window of a volume: the pinned one, or the one round its content.
pub open spec fn is_window(grid: &VolumeGrid, o: IVec3, d: IVec3) -> bool {
    match grid.stream_window {
        Some((so, sd)) => o == so && d == sd,
        None => if any_content(grid) {
            forall|axis: int|
                0 <= axis < 3 ==> #[trigger] axis_window(
                    grid,
                    axis,
                    axis_of(o, axis) as int,
                    axis_of(d, axis) as int,
                )
        } else {
            o == (IVec3 { x: 0, y: 0, z: 0 }) && d == (IVec3 { x: 0, y: 0, z: 0 })
        },
    }
}

/// Chunks with content that window `(o, d)` does not reach, among the first `n`.
pub open spec fn rejected_among(grid: &VolumeGrid, o: IVec3, d: IVec3, n: nat) -> nat
    decreases n,
{
    if n == 0 {
        0
    } else {
        let c = grid.chunks.items()[n - 1].0;
        rejected_among(grid, o, d, (n - 1) as nat) + (if grid.content(c) && index_pos(o, d, c.0) is None {
            1nat
        } else {
            0nat
        })
    }
}

/// Chunks with content that a computed window does not reach; none for a pinned window.
pub open spec fn rejected_count(grid: &VolumeGrid, o: IVec3, d: IVec3) -> nat {
    if grid.stream_window is Some {
        0
    } else {
        rejected_among(grid, o, d, grid.chunks.items().len())
    }
}

/// The span of one axis, at most 64 chunks.
fn axis_span(lo: i32, hi: i32) -> (r: i32)
    requires
        lo <= hi,
    ensures
        r == (if hi - lo + 3 < 64 {
            hi - lo + 3
        } else {
            64
        }),
{
    let s: i64 = hi as i64 - lo as i64 + 3;
    if s < 64 {
        s as i32
    } else {
        64
    }
}

/// `p` lies in the box with these corners.
spec fn between(lo: IVec3, p: IVec3, hi: IVec3) -> bool {
    lo.x <= p.x <= hi.x && lo.y <= p.y <= hi.y && lo.z <= p.z <= hi.z
}

/// The first `n` chunks with content lie in the box with these corners.
spec fn corners_hold(grid: &VolumeGrid, lo: IVec3, hi: IVec3, n: int) -> bool {
    forall|k: int|
        0 <= k < n && grid.content((#[trigger] grid.chunks.items()[k]).0) ==> between(
            lo,
            grid.chunks.items()[k].0.0,
            hi,
        )
}

/// The volume's window and how many chunks with content it does not reach.
fn compute_window(grid: &VolumeGrid) -> (r: (IVec3, IVec3, usize))
    requires
        grid.wf(),
        grid.window_fits(),
    ensures
        is_window(grid, r.0, r.1),
        window_ok(r.1),
        r.2 == rejected_count(grid, r.0, r.1),
        r.2 <= grid.chunks.items().len(),
{
    if let Some((o, d)) = grid.stream_window {
        return (o, d, 0);
    }
    let n: usize = grid.chunks.len();
    let mut lo: IVec3 = IVec3::splat(i32::MAX);
    let mut hi: IVec3 = IVec3::splat(i32::MIN);
    let mut any: bool = false;
    let mut i: usize = 0;
    let ghost items = grid.chunks.items();
    while i < n
        invariant
            i <= n,
            n == items.len(),
            items == grid.chunks.items(),
            grid.wf(),
            any <==> exists|k: int| 0 <= k < i && grid.content((#[trigger] items[k]).0),
            corners_hold(grid, lo, hi, i as int),
            any ==> forall|axis: int|
                0 <= axis < 3 ==> exists|k: int|
                    0 <= k < i && grid.content((#[trigger] items[k]).0) && axis_of(items[k].0.0, axis)
                        == #[trigger] axis_of(lo, axis),
            any ==> forall|axis: int|
                0 <= axis < 3 ==> exists|k: int|
                    0 <= k < i && grid.content((#[trigger] items[k]).0) && axis_of(items[k].0.0, axis)
                        == #[trigger] axis_of(hi, axis),
            !any ==> lo == (IVec3 { x: i32::MAX, y: i32::MAX, z: i32::MAX }) && hi == (IVec3 {
                x: i32::MIN,
                y: i32::MIN,
                z: i32::MIN,
            }),
        decreases n - i,
    {
        let c: ChunkCoord = grid.chunks.entry(i).0;
        let ghost (lo0, hi0, any0) = (lo, hi, any);
        if chunk_has_content(grid, c) {
            any = true;
            lo = lo.min(c.0);
            hi = hi.max(c.0);
            proof {
                assert(grid.content(items[i as int].0));
                assert forall|axis: int| 0 <= axis < 3 implies exists|k: int|
                    0 <= k < i + 1 && grid.content((#[trigger] items[k]).0) && axis_of(
                        items[k].0.0,
                        axis,
                    ) == #[trigger] axis_of(lo, axis) by {
                    if axis_of(lo, axis) == axis_of(c.0, axis) {
                        assert(axis_of(items[i as int].0.0, axis) == axis_of(lo, axis));
                    } else {
                        assert(axis_of(lo, axis) == axis_of(lo0, axis));
                        assert(any0);
                        let k = choose|k: int|
                            0 <= k < i && grid.content((#[trigger] items[k]).0) && axis_of(
                                items[k].0.0,
                                axis,
                            ) == axis_of(lo0, axis);
                        assert(axis_of(items[k].0.0, axis) == axis_of(lo, axis));
                    }
                }
                assert forall|axis: int| 0 <= axis < 3 implies exists|k: int|
                    0 <= k < i + 1 && grid.content((#[trigger] items[k]).0) && axis_of(
                        items[k].0.0,
                        axis,
                    ) == #[trigger] axis_of(hi, axis) by {
                    if axis_of(hi, axis) == axis_of(c.0, axis) {
                        assert(axis_of(items[i as int].0.0, axis) == axis_of(hi, axis));
                    } else {
                        assert(axis_of(hi, axis) == axis_of(hi0, axis));
                        assert(any0);
                        let k = choose|k: int|
                            0 <= k < i && grid.content((#[trigger] items[k]).0) && axis_of(
                                items[k].0.0,
                                axis,
                            ) == axis_of(hi0, axis);
                        assert(axis_of(items[k].0.0, axis) == axis_of(hi, axis));
                    }
                }
            }
        }
        proof {
            assert forall|k: int| 0 <= k < i + 1 && grid.content((#[trigger] items[k]).0) implies between(
                lo,
                items[k].0.0,
                hi,
            ) by {
                if k < i {
                    assert(between(lo0, items[k].0.0, hi0));
                }
            }
        }
        i += 1;
    }
    proof {
        assert forall|c: ChunkCoord| #[trigger] grid.content(c) implies exists|k: int|
            0 <= k < n && (#[trigger] items[k]).0 == c by {
            assert(items[grid.chunks.index_of(c)].0 == c);
        }
        if any {
            let k = choose|k: int| 0 <= k < n && grid.content((#[trigger] items[k]).0);
            assert(grid.content(items[k].0));
        }
    }
    if !any {
        proof {
            assert(!any_content(grid));
            let z = IVec3 { x: 0, y: 0, z: 0 };
            lemma_none_rejected(grid, z, z, n as nat);
        }
        return (IVec3::splat(0), IVec3::splat(0), 0);
    }
    proof {
        assert forall|axis: int| 0 <= axis < 3 implies is_lowest(
            grid,
            axis,
            #[trigger] axis_of(lo, axis) as int,
        ) && is_highest(grid, axis, axis_of(hi, axis) as int) by {
            let k = choose|k: int|
                0 <= k < n && grid.content((#[trigger] items[k]).0) && axis_of(items[k].0.0, axis)
                    == axis_of(lo, axis);
            assert(grid.content(items[k].0) && axis_of(items[k].0.0, axis) == axis_of(lo, axis));
            assert(axis_of(hi, axis) == axis_of(hi, axis));
            let k2 = choose|k: int|
                0 <= k < n && grid.content((#[trigger] items[k]).0) && axis_of(items[k].0.0, axis)
                    == axis_of(hi, axis);
            assert(grid.content(items[k2].0) && axis_of(items[k2].0.0, axis) == axis_of(hi, axis));
            assert forall|c: ChunkCoord| #[trigger] grid.content(c) implies axis_of(lo, axis)
                <= axis_of(c.0, axis) <= axis_of(hi, axis) by {
                let q = choose|q: int| 0 <= q < n && (#[trigger] items[q]).0 == c;
                assert(grid.content(items[q].0));
            }
        }
        assert(is_lowest(grid, 0, axis_of(lo, 0) as int));
        assert(is_lowest(grid, 1, axis_of(lo, 1) as int));
        assert(is_lowest(grid, 2, axis_of(lo, 2) as int));
    }
    let o: IVec3 = IVec3::new(lo.x - 1, lo.y - 1, lo.z - 1);
    let d: IVec3 = IVec3::new(axis_span(lo.x, hi.x), axis_span(lo.y, hi.y), axis_span(lo.z, hi.z));
    proof {
        assert forall|axis: int| 0 <= axis < 3 implies #[trigger] axis_window(
            grid,
            axis,
            axis_of(o, axis) as int,
            axis_of(d, axis) as int,
        ) by {
            assert(is_lowest(grid, axis, axis_of(lo, axis) as int));
            assert(is_highest(grid, axis, axis_of(hi, axis) as int));
        }
    }
    let mut rejected: usize = 0;
    i = 0;
    while i < n
        invariant
            i <= n,
            n == grid.chunks.items().len(),
            grid.wf(),
            window_ok(d),
            rejected == rejected_among(grid, o, d, i as nat),
            rejected <= i,
        decreases n - i,
    {
        let c: ChunkCoord = grid.chunks.entry(i).0;
        if chunk_has_content(grid, c) && chunk_index_pos(o, d, c.0).is_none() {
            rejected += 1;
        }
        i += 1;
    }
    (o, d, rejected)
}

proof fn lemma_none_rejected(grid: &VolumeGrid, o: IVec3, d: IVec3, n: nat)
    requires
        !any_content(grid),
    ensures
        rejected_among(grid, o, d, n) == 0,
    decreases n,
{
    if n > 0 {
        lemma_none_rejected(grid, o, d, (n - 1) as nat);
    }
}

/// Words that blocks for the first `n` chunks take, those without content left out.
pub open spec fn content_words(grid: &VolumeGrid, n: nat) -> int
    decreases n,
{
    if n == 0 {
        0
    } else {
        content_words(grid, (n - 1) as nat) + (if grid.chunks.items()[n - 1].1.is_air() {
            0
        } else {
            block_words(grid.chunks.items()[n - 1].1.wire_len())
        })
    }
}

proof fn lemma_content_words_mono(grid: &VolumeGrid, a: nat, b: nat)
    requires
        a <= b,
    ensures
        0 <= content_words(grid, a) <= content_words(grid, b),
    decreases b,
{
    if b > 0 {
        let t = grid.chunks.items()[b - 1].1;
        lemma_rooms_nonneg(t.nodes@, t.nodes@.len());
    }
    if a < b {
        lemma_content_words_mono(grid, a, (b - 1) as nat);
    } else if a > 0 {
        lemma_content_words_mono(grid, (a - 1) as nat, (b - 1) as nat);
    }
}

/// A palette sync marks what it writes and forgets no mark: every entry whose words change awaits an
/// upload afterwards, and so does every entry that awaited one before.
pub proof fn lemma_sync_marks_entries(
    a: BrickMapBuilder,
    b: BrickMapBuilder,
    p0: Palette,
    p1: Palette,
    w: int,
)
    requires
        BrickMapBuilder::synced(&a, &b, p0, p1),
        0 <= w < PALETTE_WORDS,
    ensures
        a.palette_words()[w] != b.palette_words()[w] ==> b.dirty_entries() is Some
            && (b.dirty_entries()->0).0 <= w / 2 <= (b.dirty_entries()->0).1,
        a.dirty_entries() is Some && (a.dirty_entries()->0).0 <= w / 2 <= (a.dirty_entries()->0).1
            ==> b.dirty_entries() is Some && (b.dirty_entries()->0).0 <= w / 2
            <= (b.dirty_entries()->0).1,
{
}

/// The index has an entry for each chunk of the window, and for no other: the chunk `(x, y, z)` from
/// its origin is entry `x + 64 y + 4096 z`.
pub proof fn lemma_index_entries(origin: IVec3, dims: IVec3, c: IVec3, x: int, y: int, z: int)
    requires
        window_ok(dims),
        c.x == origin.x + x,
        c.y == origin.y + y,
        c.z == origin.z + z,
    ensures
        0 <= x < dims.x && 0 <= y < dims.y && 0 <= z < dims.z ==> index_pos(origin, dims, c) == Some(
            x + 64 * y + 4096 * z,
        ),
        x < 0 || y < 0 || z < 0 ==> index_pos(origin, dims, c) is None,
        x >= dims.x || y >= dims.y || z >= dims.z ==> index_pos(origin, dims, c) is None,
{
}

/// The window that follows from a volume's chunks starts one chunk below its content, on each axis,
/// and reaches one chunk beyond it, unless that would be more than 64 chunks: only content that far
/// from the window's origin is left out.
pub proof fn lemma_window_holds_content(g: VolumeGrid, o: IVec3, d: IVec3, c: ChunkCoord)
    requires
        g.stream_window is None,
        is_window(&g, o, d),
        g.content(c),
    ensures
        o.x < c.0.x && o.y < c.0.y && o.z < c.0.z,
        c.0.x - o.x < d.x - 1 || d.x == 64,
        c.0.y - o.y < d.y - 1 || d.y == 64,
        c.0.z - o.z < d.z - 1 || d.z == 64,
        index_pos(o, d, c.0) is None ==> c.0.x - o.x >= 64 || c.0.y - o.y >= 64 || c.0.z - o.z >= 64,
        exists|e: ChunkCoord| #[trigger] g.content(e) && e.0.x == o.x + 1,
        exists|e: ChunkCoord| #[trigger] g.content(e) && e.0.y == o.y + 1,
        exists|e: ChunkCoord| #[trigger] g.content(e) && e.0.z == o.z + 1,
        d.x < 64 ==> exists|e: ChunkCoord| #[trigger] g.content(e) && e.0.x == o.x + d.x - 2,
        d.y < 64 ==> exists|e: ChunkCoord| #[trigger] g.content(e) && e.0.y == o.y + d.y - 2,
        d.z < 64 ==> exists|e: ChunkCoord| #[trigger] g.content(e) && e.0.z == o.z + d.z - 2,
        d.x <= 64 && d.y <= 64 && d.z <= 64,
{
    assert(any_content(&g));
    assert(axis_window(&g, 0, axis_of(o, 0) as int, axis_of(d, 0) as int));
    assert(axis_window(&g, 1, axis_of(o, 1) as int, axis_of(d, 1) as int));
    assert(axis_window(&g, 2, axis_of(o, 2) as int, axis_of(d, 2) as int));
    lemma_axis_ends(&g, 0, o.x as int, d.x as int, c);
    lemma_axis_ends(&g, 1, o.y as int, d.y as int, c);
    lemma_axis_ends(&g, 2, o.z as int, d.z as int, c);
    let e0 = choose|e: ChunkCoord| #[trigger] g.content(e) && axis_of(e.0, 0) == o.x + 1;
    let e1 = choose|e: ChunkCoord| #[trigger] g.content(e) && axis_of(e.0, 1) == o.y + 1;
    let e2 = choose|e: ChunkCoord| #[trigger] g.content(e) && axis_of(e.0, 2) == o.z + 1;
    assert(e0.0.x == o.x + 1 && e1.0.y == o.y + 1 && e2.0.z == o.z + 1);
    if d.x < 64 {
        let e = choose|e: ChunkCoord| #[trigger] g.content(e) && axis_of(e.0, 0) == o.x + d.x - 2;
        assert(e.0.x == o.x + d.x - 2);
    }
    if d.y < 64 {
        let e = choose|e: ChunkCoord| #[trigger] g.content(e) && axis_of(e.0, 1) == o.y + d.y - 2;
        assert(e.0.y == o.y + d.y - 2);
    }
    if d.z < 64 {
        let e = choose|e: ChunkCoord| #[trigger] g.content(e) && axis_of(e.0, 2) == o.z + d.z - 2;
        assert(e.0.z == o.z + d.z - 2);
    }
}

proof fn lemma_axis_ends(g: &VolumeGrid, axis: int, o: int, d: int, c: ChunkCoord)
    requires
        axis_window(g, axis, o, d),
        g.content(c),
    ensures
        o < axis_of(c.0, axis),
        axis_of(c.0, axis) - o < d - 1 || d == 64,
        d <= 64,
        exists|e: ChunkCoord| #[trigger] g.content(e) && axis_of(e.0, axis) == o + 1,
        d < 64 ==> exists|e: ChunkCoord| #[trigger] g.content(e) && axis_of(e.0, axis) == o + d - 2,
{
    let hi = choose|hi: int| #[trigger]
        is_highest(g, axis, hi) && d == (if hi - (o + 1) + 3 < 64 {
            hi - (o + 1) + 3
        } else {
            64
        });
    assert(o + 1 <= axis_of(c.0, axis) <= hi);
}

/// Where packing is allowed and nothing was set aside, at most half of the tree region is free once an
/// edit has settled; packing happens only when more was, and moves nothing otherwise.
pub proof fn lemma_settled(m: BrickMapBuilder, b: BrickMapBuilder, allow_compact: bool)
    requires
        m.wf(),
        b.wf(),
        BrickMapBuilder::settled(&m, &b, allow_compact),
    ensures
        allow_compact && m.reserved() == 0 ==> 2 * b.free_total() <= b.words().len() - TREE_BASE,
        !allow_compact || m.reserved() > 0 || 2 * m.free_total() <= m.words().len() - TREE_BASE
            ==> b.words() == m.words() && b.blocks() == m.blocks(),
{
    b.lemma_len();
}

/// No content is rejected exactly when the index has an entry for all of it.
pub proof fn lemma_rejected_lie_outside(g: VolumeGrid, o: IVec3, d: IVec3, n: nat)
    requires
        n <= g.chunks.items().len(),
    ensures
        rejected_among(&g, o, d, n) <= n,
        rejected_among(&g, o, d, n) == 0 <==> forall|i: int|
            0 <= i < n && g.content((#[trigger] g.chunks.items()[i]).0) ==> index_pos(
                o,
                d,
                g.chunks.items()[i].0.0,
            ) is Some,
    decreases n,
{
    if n > 0 {
        lemma_rejected_lie_outside(g, o, d, (n - 1) as nat);
        let c = g.chunks.items()[n - 1].0;
        assert(g.content(c) || !g.content(c));
    }
}

/// A new block leaves a quarter of what it holds free, and room for a whole node and 16 words; one that
/// grows becomes half as large again, and takes a whole node more. Whatever node comes next fits.
pub proof fn lemma_block_room(need: int, cap: int)
    requires
        0 <= need,
        0 <= cap,
    ensures
        4 * (block_words(need) - need - ROOT_WIRE_WORDS - 16) <= need,
        need < 4 * (block_words(need) - need - ROOT_WIRE_WORDS - 15),
        2 * (grown(cap) - cap - ROOT_WIRE_WORDS - 1) <= cap,
        cap < 2 * (grown(cap) - cap - ROOT_WIRE_WORDS),
{
}

/// A volume with a pinned window rejects nothing; any other rejects nothing exactly when the index has
/// an entry for all of its content, and never more than it has chunks.
pub proof fn lemma_rejected_count(g: VolumeGrid, o: IVec3, d: IVec3)
    ensures
        g.stream_window is Some ==> rejected_count(&g, o, d) == 0,
        g.stream_window is None ==> (rejected_count(&g, o, d) == 0 <==> forall|i: int|
            0 <= i < g.chunks.items().len() && g.content((#[trigger] g.chunks.items()[i]).0)
                ==> index_pos(o, d, g.chunks.items()[i].0.0) is Some),
        rejected_count(&g, o, d) <= g.chunks.items().len(),
{
    lemma_rejected_lie_outside(g, o, d, g.chunks.items().len());
}

} // verus!
