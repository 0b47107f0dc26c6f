//! Several volumes in one pair of buffers.
//!
//! Volumes 1, 2, .. come first and volume 0, the main world, last: when the main world grows, no
//! other volume's words move. A snapshot is full at first, after a volume was added, and whenever a
//! volume's words have moved; otherwise it holds only what awaits an upload.

use super::builder::{
    anew, block_words, content_words, is_window, len_ok, rejected_count, BrickMapBuilder, ChunkUpdate, DirtyRanges,
};
use super::consts::FAR_TREE_RESERVE_WORDS;
use super::dirty::dirty_ok;
use super::grid::{TreeDirty, VolumeGrid};
use super::tree::ChunkTree;
use super::wire::{
    globals_for, BrickMapBuffers, BrickMapGlobals, GRID_FLAG_FAR, MAX_LEVEL, PALETTE_BYTES_PER_ENTRY,
    PALETTE_INDEX_MAX, PALETTE_WORDS, TREE_BASE,
};
use crate::math::{ChunkCoord, IVec3};
use vstd::prelude::*;

verus! {

/// Byte `j` (0 is the lowest) of a word.
pub open spec fn byte_of(w: u32, j: int) -> u8 {
    if j == 0 {
        (w % 256) as u8
    } else if j == 1 {
        (w / 256 % 256) as u8
    } else if j == 2 {
        (w / 65536 % 256) as u8
    } else {
        (w / 16777216) as u8
    }
}

/// `bytes` are the bytes of words `[lo, hi)`, lowest byte first.
pub open spec fn bytes_of(bytes: Seq<u8>, words: Seq<u32>, lo: int, hi: int) -> bool {
    &&& bytes.len() == 4 * (hi - lo)
    &&& forall|k: int|
        0 <= k < bytes.len() ==> #[trigger] bytes[k] == byte_of(words[lo + k / 4], k % 4)
}

/// The bytes of words `[lo, hi)`, lowest byte first.
pub fn words_to_bytes(words: &Vec<u32>, lo: usize, hi: usize) -> (r: Vec<u8>)
    requires
        lo <= hi <= words.len(),
        4 * (hi - lo) <= usize::MAX,
    ensures
        bytes_of(r@, words@, lo as int, hi as int),
{
    let mut r: Vec<u8> = Vec::with_capacity((hi - lo) * 4);
    let mut i: usize = lo;
    while i < hi
        invariant
            lo <= i <= hi <= words.len(),
            bytes_of(r@, words@, lo as int, i as int),
        decreases hi - i,
    {
        let w: u32 = words[i];
        r.push((w % 256) as u8);
        r.push((w / 256 % 256) as u8);
        r.push((w / 65536 % 256) as u8);
        r.push((w / 16777216) as u8);
        i += 1;
    }
    r
}

/// The part of a grid descriptor that does not depend on the volume's placement in space.
#[derive(Debug, Clone, Copy, PartialEq, Eq, Structural)]
pub struct GridDesc {
    pub tree_base: u32,
    pub tree_depth: u32,
    pub chunk_count: u32,
    pub palette_base: u32,
    pub index_origin_x: i32,
    pub index_origin_y: i32,
    pub index_origin_z: i32,
    pub index_dims_x: u32,
    pub index_dims_y: u32,
    pub index_dims_z: u32,
    pub grid_flags: u32,
}

/// What to upload.
#[derive(Debug, Clone)]
pub struct VolumesSnapshot {
    /// All words in layout order (full), or nothing.
    pub b_struct: Vec<u32>,
    /// All palette words in layout order (full), or nothing.
    pub b_palette: Vec<u32>,
    /// One descriptor per volume, in volume order.
    pub grid_descs: Vec<GridDesc>,
    /// The snapshot holds everything.
    pub full: bool,
    /// Byte offset and bytes of each changed piece (incremental).
    pub struct_blobs: Vec<(usize, Vec<u8>)>,
    pub palette_blobs: Vec<(usize, Vec<u8>)>,
    pub struct_total_bytes: usize,
    pub palette_total_bytes: usize,
    /// Marked pieces over all volumes.
    pub dirty_chunks: usize,
}

impl VolumesSnapshot {
    /// Name of the mode, for logs.
    pub fn mode_tag(&self) -> (r: &'static str)
        ensures
            r@ == (if self.full { "full"@ } else { "incremental"@ }),
    {
        if self.full {
            "full"
        } else {
            "incremental"
        }
    }
}

/// All volumes' builders.
pub struct VolumesBuilder {
    builders: Vec<BrickMapBuilder>,
    far: Vec<bool>,
    prev_tree_bases: Vec<u32>,
    prev_palette_bases: Vec<u32>,
    force_full: bool,
}

/// Words of volumes `1 .. n`.
pub open spec fn struct_before(bs: Seq<BrickMapBuilder>, n: int) -> int
    decreases n,
{
    if n <= 1 {
        0
    } else {
        struct_before(bs, n - 1) + bs[n - 1].words().len()
    }
}

/// First word of volume `i`: volumes 1, 2, .. come first, volume 0 last.
pub open spec fn tree_base_of(bs: Seq<BrickMapBuilder>, i: int) -> int {
    if i == 0 {
        struct_before(bs, bs.len() as int)
    } else {
        struct_before(bs, i)
    }
}

/// First palette word of volume `i`.
pub open spec fn palette_base_of(bs: Seq<BrickMapBuilder>, i: int) -> int {
    if i == 0 {
        (bs.len() - 1) * PALETTE_WORDS
    } else {
        (i - 1) * PALETTE_WORDS
    }
}

/// Words of all volumes.
pub open spec fn struct_total(bs: Seq<BrickMapBuilder>) -> int {
    struct_before(bs, bs.len() as int) + bs[0].words().len()
}

/// All words can be addressed.
pub open spec fn totals_ok(bs: Seq<BrickMapBuilder>) -> bool {
    &&& 1 <= bs.len()
    &&& len_ok(struct_total(bs))
    &&& len_ok(bs.len() * PALETTE_WORDS)
}

pub(crate) proof fn lemma_struct_before(bs: Seq<BrickMapBuilder>, a: int, b: int)
    requires
        a <= b,
    ensures
        0 <= struct_before(bs, a) <= struct_before(bs, b),
        1 <= a < b ==> struct_before(bs, a) + bs[a].words().len() <= struct_before(bs, b),
    decreases (if b > 0 { b } else { 0 }),
{
    if b > 1 {
        lemma_struct_before(bs, if a < b { a } else { a - 1 }, b - 1);
        if a < b - 1 {
            lemma_struct_before(bs, a, b - 1);
        }
    }
}

/// The volumes do not overlap and lie inside the total.
pub proof fn lemma_layout_apart(bs: Seq<BrickMapBuilder>, i: int, j: int)
    requires
        1 <= bs.len(),
        0 <= i < bs.len(),
        0 <= j < bs.len(),
        i != j,
    ensures
        0 <= tree_base_of(bs, i),
        tree_base_of(bs, i) + bs[i].words().len() <= struct_total(bs),
        tree_base_of(bs, i) + bs[i].words().len() <= tree_base_of(bs, j) || tree_base_of(bs, j)
            + bs[j].words().len() <= tree_base_of(bs, i),
        palette_base_of(bs, i) + PALETTE_WORDS <= palette_base_of(bs, j) || palette_base_of(bs, j)
            + PALETTE_WORDS <= palette_base_of(bs, i),
{
    let n = bs.len() as int;
    lemma_struct_before(bs, 1, n);
    if i >= 1 {
        lemma_struct_before(bs, i, n);
        if j > i {
            lemma_struct_before(bs, i, j);
        }
    }
    if j >= 1 {
        lemma_struct_before(bs, j, n);
        if i > j {
            lemma_struct_before(bs, j, i);
        }
    }
}

/// A builder made from a volume: a block for every chunk with content that the window reaches.
pub open spec fn built_from(b: BrickMapBuilder, g: VolumeGrid, reserve: int) -> bool {
    &&& b.wf()
    &&& is_window(&g, b.window_spec().0, b.window_spec().1)
    &&& b.rejected() == rejected_count(&g, b.window_spec().0, b.window_spec().1)
    &&& b.reserved() == reserve
    &&& forall|c: ChunkCoord| #[trigger] b.resident(c) <==> g.content(c) && b.pos_of(c) is Some
    &&& forall|c: ChunkCoord| #[trigger] b.resident(c) ==> b.laid_out(c, &g.chunks.at(c))
    &&& b.filled_from(&g)
    &&& b.shows_palette(g.palette)
    &&& b.fresh_globals()
    &&& b.dirty_list().len() == 0
    &&& b.dirty_entries() is None
    &&& reserve == 0 ==> b.in_key_order()
    &&& TREE_BASE + reserve <= b.words().len() <= TREE_BASE + reserve + content_words(
        &g,
        g.chunks.items().len(),
    )
}

/// A builder made for a volume, without blocks.
pub open spec fn prepared_for(b: BrickMapBuilder, g: VolumeGrid, reserve: int) -> bool {
    &&& b.wf()
    &&& is_window(&g, b.window_spec().0, b.window_spec().1)
    &&& b.rejected() == rejected_count(&g, b.window_spec().0, b.window_spec().1)
    &&& b.reserved() == reserve
    &&& forall|c: ChunkCoord| !#[trigger] b.resident(c)
    &&& b.words().len() == TREE_BASE + reserve
    &&& b.free_total() == reserve
    &&& forall|w: int| #[trigger] b.free_table().has(w) <==> TREE_BASE <= w < TREE_BASE + reserve
    &&& forall|w: int| 0 <= w < b.words().len() ==> #[trigger] b.words()[w] == 0
    &&& b.shows_palette(g.palette)
    &&& b.dirty_list().len() == 0
    &&& b.dirty_entries() == Some((0u16, PALETTE_INDEX_MAX))
    &&& b.globals() == globals_for(b.window_spec().0, b.window_spec().1, b.rejected())
}

/// Only the palette's report was taken.
pub open spec fn grid_kept(a: VolumeGrid, b: VolumeGrid) -> bool {
    &&& b.wf()
    &&& b.chunks == a.chunks
    &&& b.stream_window == a.stream_window
    &&& b.far == a.far
    &&& b.palette.entries == a.palette.entries
    &&& b.palette.version == a.palette.version
    &&& b.palette.past == a.palette.past
}

/// Words set aside for a volume: far levels have a fixed reserve, so that their words keep their
/// number and no other volume moves.
pub open spec fn reserve_words(far: bool) -> int {
    if far {
        FAR_TREE_RESERVE_WORDS as int
    } else {
        0
    }
}

/// A volume can be built.
pub open spec fn can_build(g: VolumeGrid) -> bool {
    &&& g.wf()
    &&& g.window_fits()
    &&& len_ok(TREE_BASE + reserve_words(g.far) + content_words(&g, g.chunks.items().len()))
}

/// One volume's palette sync.
pub open spec fn palette_step(
    a: BrickMapBuilder,
    b: BrickMapBuilder,
    g0: VolumeGrid,
    g1: VolumeGrid,
) -> bool {
    &&& b.wf()
    &&& BrickMapBuilder::synced(&a, &b, g0.palette, g1.palette)
    &&& b.same_blocks(&a)
    &&& b.same_setup(&a)
    &&& b.globals() == a.globals()
    &&& grid_kept(g0, g1)
}

/// One volume's window step: nothing without a pinned window, else a move to it.
pub open spec fn window_step(
    a: BrickMapBuilder,
    b: BrickMapBuilder,
    w: Option<(IVec3, IVec3)>,
) -> bool {
    match w {
        None => b == a,
        Some((o, d)) => {
            &&& b.wf()
            &&& b.window_spec() == (o, d)
            &&& b.reserved() == a.reserved()
            &&& b.rejected() == a.rejected()
            &&& b.same_palette(&a)
            &&& a.window_spec() == (o, d) ==> b == a
            &&& forall|c: ChunkCoord| #[trigger]
                b.resident(c) <==> a.resident(c) && crate::brickmap::builder::index_pos(o, d, c.0) is Some
            &&& forall|c: ChunkCoord| #[trigger] b.resident(c) ==> b.blocks()[c] == a.blocks()[c]
            &&& b.words().len() == a.words().len()
            &&& forall|w: int|
                TREE_BASE <= w < a.words().len() ==> #[trigger] b.words()[w] == a.words()[w]
            &&& BrickMapBuilder::freed_outside(&a, &b)
            &&& BrickMapBuilder::marks_changes(&a, &b)
            &&& forall|w: int| #[trigger]
                b.dirty_word(w) <==> a.dirty_word(w) || (a.window_spec() != (o, d) && 0 <= w < TREE_BASE)
            &&& b.globals() == (BrickMapGlobals {
                index_origin_x: o.x,
                index_origin_y: o.y,
                index_origin_z: o.z,
                index_dims_x: d.x as u32,
                index_dims_y: d.y as u32,
                index_dims_z: d.z as u32,
                ..a.globals()
            })
        },
    }
}

/// What [`BrickMapBuilder::update_chunk`] does, as a relation.
pub open spec fn updated(
    a: BrickMapBuilder,
    b: BrickMapBuilder,
    g0: VolumeGrid,
    g1: VolumeGrid,
    coord: ChunkCoord,
    dirty: TreeDirty,
    allow_compact: bool,
    out: ChunkUpdate,
) -> bool {
    &&& b.wf()
    &&& grid_kept(g0, g1)
    &&& out == (if a.pos_of(coord) is None {
        ChunkUpdate::OutsideWindow
    } else if g0.content(coord) {
        ChunkUpdate::Rebuilt
    } else if a.resident(coord) {
        ChunkUpdate::Released
    } else {
        ChunkUpdate::Unchanged
    })
    &&& b.same_setup(&a)
    &&& BrickMapBuilder::marks_changes(&a, &b)
    &&& out is OutsideWindow ==> b == a && g1 == g0
    &&& out !is OutsideWindow ==> {
        &&& forall|c: ChunkCoord| #[trigger]
            b.resident(c) <==> (if c == coord {
                g0.content(c)
            } else {
                a.resident(c)
            })
        &&& out is Rebuilt ==> b.tree_of(coord) == g0.chunks.at(coord).model()
        &&& forall|c: ChunkCoord, d: ChunkCoord|
            c != coord && d != coord && #[trigger] b.resident(c) && #[trigger] b.resident(d) && a.base_of(
                c,
            ) < a.base_of(d) ==> b.base_of(c) < b.base_of(d)
        &&& b.fresh_globals()
        &&& BrickMapBuilder::synced(&a, &b, g0.palette, g1.palette)
        &&& b.words().len() <= a.words().len() + (if out is Rebuilt {
            a.update_cost(&g0.chunks.at(coord), coord, &dirty)
        } else {
            0
        })
        &&& allow_compact && a.reserved() == 0 ==> 2 * b.free_total() <= b.words().len() - TREE_BASE
        &&& exists|m: BrickMapBuilder| #[trigger]
            BrickMapBuilder::edited(&a, &m, &g0, coord, &dirty) && BrickMapBuilder::settled(
                &m,
                &b,
                allow_compact,
            )
        &&& forall|c: ChunkCoord|
            c != coord && #[trigger] b.resident(c) ==> BrickMapBuilder::pushed_down(&a, &b, c)
        &&& BrickMapBuilder::marks_edit(
            &a,
            &b,
            coord,
            !a.resident(coord) || anew(&dirty, &g0.chunks.at(coord)),
            dirty.nodes@,
        )
    }
}

fn reserve_of(grid: &VolumeGrid) -> (r: usize)
    ensures
        r == reserve_words(grid.far),
{
    if grid.far {
        FAR_TREE_RESERVE_WORDS
    } else {
        0
    }
}

/// Marked pieces of volumes `0 .. n`.
pub open spec fn marks_before(bs: Seq<BrickMapBuilder>, n: int) -> int
    decreases n,
{
    if n <= 0 {
        0
    } else {
        marks_before(bs, n - 1) + bs[n - 1].dirty_list().len()
    }
}

/// `n`, or the largest machine integer where `n` is larger.
pub open spec fn at_most_usize(n: int) -> int {
    if n <= usize::MAX {
        n
    } else {
        usize::MAX as int
    }
}

/// Volumes among `0 .. n` with marked palette entries.
pub open spec fn spans_before(bs: Seq<BrickMapBuilder>, n: int) -> int
    decreases n,
{
    if n <= 0 {
        0
    } else {
        spans_before(bs, n - 1) + (if bs[n - 1].dirty_entries() is Some {
            1int
        } else {
            0
        })
    }
}

proof fn lemma_marks_before(bs: Seq<BrickMapBuilder>, a: int, b: int)
    requires
        a <= b,
    ensures
        0 <= marks_before(bs, a) <= marks_before(bs, b),
        0 <= spans_before(bs, a) <= spans_before(bs, b),
    decreases (if b > 0 { b } else { 0 }),
{
    if b > 0 {
        lemma_marks_before(bs, if a < b { a } else { a - 1 }, b - 1);
    }
}

pub(crate) proof fn lemma_base_bound(bs: Seq<BrickMapBuilder>, i: int)
    requires
        0 <= i < bs.len(),
    ensures
        0 <= tree_base_of(bs, i),
        tree_base_of(bs, i) + bs[i].words().len() <= struct_total(bs),
        0 <= palette_base_of(bs, i),
        palette_base_of(bs, i) + PALETTE_WORDS <= bs.len() * PALETTE_WORDS,
{
    lemma_struct_before(bs, 1, bs.len() as int);
    if i >= 1 {
        lemma_struct_before(bs, i, bs.len() as int);
    }
}

/// `blob` is marked piece `q` of volume `i`.
pub open spec fn struct_piece(blob: (usize, Vec<u8>), bs: Seq<BrickMapBuilder>, i: int, q: int) -> bool {
    let (lo, hi) = bs[i].dirty_list()[q];
    &&& blob.0 == 4 * tree_base_of(bs, i) + lo
    &&& bytes_of(blob.1@, bs[i].words(), lo as int / 4, hi as int / 4)
}

/// `blob` holds the marked palette entries of volume `i`.
pub open spec fn palette_piece(blob: (usize, Vec<u8>), bs: Seq<BrickMapBuilder>, i: int) -> bool {
    let (lo, hi) = bs[i].dirty_entries()->0;
    &&& blob.0 == 4 * palette_base_of(bs, i) + 8 * lo
    &&& bytes_of(blob.1@, bs[i].palette_words(), 2 * lo, 2 * hi + 2)
}

/// The marked pieces of all volumes, in volume order.
pub open spec fn struct_pieces(blobs: Seq<(usize, Vec<u8>)>, bs: Seq<BrickMapBuilder>) -> bool {
    &&& blobs.len() == marks_before(bs, bs.len() as int)
    &&& forall|j: int, q: int|
        0 <= j < bs.len() && 0 <= q < bs[j].dirty_list().len() ==> struct_piece(
            #[trigger] blobs[marks_before(bs, j) + q],
            bs,
            j,
            q,
        )
}

/// The marked palette entries of all volumes, in volume order.
pub open spec fn palette_pieces(blobs: Seq<(usize, Vec<u8>)>, bs: Seq<BrickMapBuilder>) -> bool {
    &&& blobs.len() == spans_before(bs, bs.len() as int)
    &&& forall|j: int|
        0 <= j < bs.len() && bs[j].dirty_entries() is Some ==> palette_piece(
            #[trigger] blobs[spans_before(bs, j)],
            bs,
            j,
        )
}

/// A full snapshot has every volume's words at its descriptor's base.
pub open spec fn full_words(r: VolumesSnapshot, bs: Seq<BrickMapBuilder>) -> bool {
    &&& r.b_struct.len() == struct_total(bs)
    &&& r.b_palette.len() == bs.len() * PALETTE_WORDS
    &&& forall|i: int, w: int|
        0 <= i < bs.len() && 0 <= w < bs[i].words().len() ==> r.b_struct@[tree_base_of(bs, i) + w]
            == #[trigger] bs[i].words()[w]
    &&& forall|i: int, w: int|
        0 <= i < bs.len() && 0 <= w < PALETTE_WORDS ==> r.b_palette@[palette_base_of(bs, i) + w]
            == #[trigger] bs[i].palette_words()[w]
}

/// First words of the volumes.
pub open spec fn bases_of(bs: Seq<BrickMapBuilder>, t: Seq<u32>, p: Seq<u32>) -> bool {
    &&& t.len() == bs.len()
    &&& p.len() == bs.len()
    &&& forall|i: int| 0 <= i < bs.len() ==> #[trigger] t[i] == tree_base_of(bs, i)
    &&& forall|i: int| 0 <= i < bs.len() ==> #[trigger] p[i] == palette_base_of(bs, i)
}

/// A volume's descriptor.
pub open spec fn desc_of(b: BrickMapBuilder, far: bool, tree_base: u32, palette_base: u32) -> GridDesc {
    GridDesc {
        tree_base,
        tree_depth: MAX_LEVEL,
        chunk_count: b.globals().tile_count,
        palette_base,
        index_origin_x: b.globals().index_origin_x,
        index_origin_y: b.globals().index_origin_y,
        index_origin_z: b.globals().index_origin_z,
        index_dims_x: b.globals().index_dims_x,
        index_dims_y: b.globals().index_dims_y,
        index_dims_z: b.globals().index_dims_z,
        grid_flags: if far {
            GRID_FLAG_FAR
        } else {
            0
        },
    }
}

/// `x` are the words of builder `b`.
pub open spec fn shows_words(x: BrickMapBuffers, b: BrickMapBuilder) -> bool {
    &&& x.b_struct@ == b.words()
    &&& x.b_palette@ == b.palette_words()
    &&& x.globals == b.globals()
}

/// `b` is `a` with its marks taken.
pub open spec fn taken(a: BrickMapBuilder, b: BrickMapBuilder) -> bool {
    &&& b.wf()
    &&& b.words() == a.words()
    &&& b.blocks() == a.blocks()
    &&& b.block_total() == a.block_total()
    &&& b.free_table() == a.free_table()
    &&& b.palette_words() == a.palette_words()
    &&& b.palette_version() == a.palette_version()
    &&& b.globals() == a.globals()
    &&& b.same_setup(&a)
    &&& b.dirty_list().len() == 0
    &&& b.dirty_entries() is None
}

pub open spec fn all_taken(a: Seq<BrickMapBuilder>, b: Seq<BrickMapBuilder>) -> bool {
    &&& a.len() == b.len()
    &&& forall|i: int| 0 <= i < a.len() ==> taken(a[i], #[trigger] b[i])
}

impl VolumesBuilder {
    pub closed spec fn builders(&self) -> Seq<BrickMapBuilder> {
        self.builders@
    }

    /// Which volumes are far levels.
    pub closed spec fn far_flags(&self) -> Seq<bool> {
        self.far@
    }

    /// The next snapshot is full whatever moved.
    pub closed spec fn forced(&self) -> bool {
        self.force_full
    }

    /// First words of the volumes at the last snapshot.
    pub closed spec fn last_bases(&self) -> (Seq<u32>, Seq<u32>) {
        (self.prev_tree_bases@, self.prev_palette_bases@)
    }

    pub closed spec fn wf(&self) -> bool {
        &&& self.far.len() == self.builders.len()
        &&& forall|i: int| 0 <= i < self.builders.len() ==> (#[trigger] self.builders@[i]).wf()
    }

    /// The volumes stand where they stood at the last snapshot.
    pub open spec fn bases_kept(&self) -> bool {
        let (t, p) = self.last_bases();
        let bs = self.builders();
        &&& t.len() == bs.len()
        &&& forall|i: int| 0 <= i < bs.len() ==> #[trigger] t[i] == tree_base_of(bs, i)
        &&& forall|i: int|
            0 <= i < bs.len() && i < p.len() ==> #[trigger] p[i] == palette_base_of(bs, i)
    }

    pub proof fn lemma_wf(&self)
        requires
            self.wf(),
        ensures
            self.far_flags().len() == self.builders().len(),
            forall|i: int| 0 <= i < self.builders().len() ==> (#[trigger] self.builders()[i]).wf(),
    {
    }

    /// Every volume was built anew.
    pub open spec fn all_built(&self, volumes: Seq<VolumeGrid>) -> bool {
        &&& self.wf()
        &&& self.builders().len() == volumes.len()
        &&& self.forced()
        &&& self.last_bases().0.len() == 0
        &&& self.last_bases().1.len() == 0
        &&& forall|i: int|
            0 <= i < volumes.len() ==> built_from(
                #[trigger] self.builders()[i],
                volumes[i],
                reserve_words(volumes[i].far),
            )
        &&& forall|i: int| 0 <= i < volumes.len() ==> #[trigger] self.far_flags()[i] == volumes[i].far
    }

    /// From `o`, volumes that have come since were built, and the far flags taken over.
    pub open spec fn caught_up(&self, o: &Self, volumes: Seq<VolumeGrid>) -> bool {
        let n0 = o.builders().len() as int;
        &&& self.wf()
        &&& self.builders().len() == (if n0 < volumes.len() {
            volumes.len() as int
        } else {
            n0
        })
        &&& self.last_bases() == o.last_bases()
        &&& self.forced() == (o.forced() || n0 < volumes.len())
        &&& forall|i: int| 0 <= i < n0 ==> #[trigger] self.builders()[i] == o.builders()[i]
        &&& forall|i: int|
            n0 <= i < volumes.len() ==> built_from(
                #[trigger] self.builders()[i],
                volumes[i],
                reserve_words(volumes[i].far),
            )
        &&& forall|i: int| 0 <= i < volumes.len() ==> #[trigger] self.far_flags()[i] == volumes[i].far
        &&& forall|i: int|
            volumes.len() <= i < n0 ==> #[trigger] self.far_flags()[i] == o.far_flags()[i]
    }

    /// Builds every volume.
    pub fn build_full(volumes: &mut Vec<VolumeGrid>) -> (r: Self)
        requires
            forall|i: int| 0 <= i < old(volumes).len() ==> can_build(#[trigger] old(volumes)@[i]),
        ensures
            r.all_built(old(volumes)@),
            final(volumes).len() == old(volumes).len(),
            forall|i: int|
                0 <= i < old(volumes).len() ==> grid_kept(
                    old(volumes)@[i],
                    #[trigger] final(volumes)@[i],
                ),
    {
        let n: usize = volumes.len();
        let mut builders: Vec<BrickMapBuilder> = Vec::with_capacity(n);
        let mut far: Vec<bool> = Vec::with_capacity(n);
        let mut i: usize = 0;
        while i < n
            invariant
                i <= n,
                n == volumes.len(),
                old(volumes).len() == n,
                builders.len() == i,
                far.len() == i,
                forall|j: int| 0 <= j < n ==> can_build(#[trigger] old(volumes)@[j]),
                forall|j: int|
                    0 <= j < i ==> built_from(
                        #[trigger] builders@[j],
                        old(volumes)@[j],
                        reserve_words(old(volumes)@[j].far),
                    ),
                forall|j: int| 0 <= j < i ==> #[trigger] far@[j] == old(volumes)@[j].far,
                forall|j: int|
                    0 <= j < i ==> grid_kept(old(volumes)@[j], #[trigger] volumes@[j]),
                forall|j: int| i <= j < n ==> #[trigger] volumes@[j] == old(volumes)@[j],
            decreases n - i,
        {
            let reserve: usize = reserve_of(&volumes[i]);
            let is_far: bool = volumes[i].far;
            assert(can_build(old(volumes)@[i as int]));
            let b: BrickMapBuilder = BrickMapBuilder::build_full_reserved(&mut volumes[i], reserve);
            builders.push(b);
            far.push(is_far);
            i += 1;
        }
        VolumesBuilder {
            builders,
            far,
            prev_tree_bases: Vec::new(),
            prev_palette_bases: Vec::new(),
            force_full: true,
        }
    }

    /// A builder for every volume, without blocks.
    pub fn new_unbuilt(volumes: &mut Vec<VolumeGrid>) -> (r: Self)
        requires
            forall|i: int|
                0 <= i < old(volumes).len() ==> (#[trigger] old(volumes)@[i]).wf() && old(
                    volumes)@[i].window_fits(),
        ensures
            r.wf(),
            r.builders().len() == old(volumes).len(),
            r.forced(),
            r.last_bases().0.len() == 0,
            r.last_bases().1.len() == 0,
            forall|i: int|
                0 <= i < old(volumes).len() ==> prepared_for(
                    #[trigger] r.builders()[i],
                    old(volumes)@[i],
                    reserve_words(old(volumes)@[i].far),
                ),
            forall|i: int|
                0 <= i < old(volumes).len() ==> #[trigger] r.far_flags()[i] == old(volumes)@[i].far,
            final(volumes).len() == old(volumes).len(),
            forall|i: int|
                0 <= i < old(volumes).len() ==> grid_kept(
                    old(volumes)@[i],
                    #[trigger] final(volumes)@[i],
                ),
    {
        let n: usize = volumes.len();
        let mut builders: Vec<BrickMapBuilder> = Vec::with_capacity(n);
        let mut far: Vec<bool> = Vec::with_capacity(n);
        let mut i: usize = 0;
        while i < n
            invariant
                i <= n,
                n == volumes.len(),
                old(volumes).len() == n,
                builders.len() == i,
                far.len() == i,
                forall|j: int|
                    0 <= j < n ==> (#[trigger] old(volumes)@[j]).wf() && old(
                        volumes)@[j].window_fits(),
                forall|j: int|
                    0 <= j < i ==> prepared_for(
                        #[trigger] builders@[j],
                        old(volumes)@[j],
                        reserve_words(old(volumes)@[j].far),
                    ),
                forall|j: int| 0 <= j < i ==> #[trigger] far@[j] == old(volumes)@[j].far,
                forall|j: int|
                    0 <= j < i ==> grid_kept(old(volumes)@[j], #[trigger] volumes@[j]),
                forall|j: int| i <= j < n ==> #[trigger] volumes@[j] == old(volumes)@[j],
            decreases n - i,
        {
            let reserve: usize = reserve_of(&volumes[i]);
            let is_far: bool = volumes[i].far;
            assert(old(volumes)@[i as int].wf());
            let b: BrickMapBuilder = BrickMapBuilder::new_unbuilt_reserved(&mut volumes[i], reserve);
            builders.push(b);
            far.push(is_far);
            i += 1;
        }
        VolumesBuilder {
            builders,
            far,
            prev_tree_bases: Vec::new(),
            prev_palette_bases: Vec::new(),
            force_full: true,
        }
    }

    /// Brings every volume's palette words up to date.
    pub fn sync_palettes(&mut self, volumes: &mut Vec<VolumeGrid>)
        requires
            old(self).wf(),
            forall|i: int| 0 <= i < old(volumes).len() ==> (#[trigger] old(volumes)@[i]).wf(),
        ensures
            final(self).wf(),
            final(self).same_state(old(self)),
            final(volumes).len() == old(volumes).len(),
            final(self).builders().len() == old(self).builders().len(),
            forall|i: int|
                0 <= i < old(self).builders().len() && i < old(volumes).len() ==> palette_step(
                    old(self).builders()[i],
                    #[trigger] final(self).builders()[i],
                    old(volumes)@[i],
                    final(volumes)@[i],
                ),
            forall|i: int|
                old(volumes).len() <= i < old(self).builders().len() ==> #[trigger] final(
                    self).builders()[i] == old(self).builders()[i],
            forall|i: int|
                old(self).builders().len() <= i < old(volumes).len() ==> #[trigger] final(volumes)@[i]
                    == old(volumes)@[i],
    {
        let mut i: usize = 0;
        while i < volumes.len() && i < self.builders.len()
            invariant
                volumes.len() == old(volumes).len(),
                self.builders@.len() == old(self).builders@.len(),
                self.far == old(self).far,
                self.prev_tree_bases == old(self).prev_tree_bases,
                self.prev_palette_bases == old(self).prev_palette_bases,
                self.force_full == old(self).force_full,
                i <= volumes.len(),
                i <= self.builders.len(),
                old(self).wf(),
                forall|j: int| 0 <= j < old(volumes).len() ==> (#[trigger] old(volumes)@[j]).wf(),
                forall|j: int|
                    0 <= j < i ==> palette_step(
                        old(self).builders@[j],
                        #[trigger] self.builders@[j],
                        old(volumes)@[j],
                        volumes@[j],
                    ),
                forall|j: int|
                    i <= j < self.builders.len() ==> #[trigger] self.builders@[j]
                        == old(self).builders@[j],
                forall|j: int| i <= j < volumes.len() ==> #[trigger] volumes@[j] == old(volumes)@[j],
            decreases volumes.len() - i,
        {
            assert(old(volumes)@[i as int].wf());
            assert(old(self).builders@[i as int].wf());
            self.builders[i].write_palette(&mut volumes[i].palette);
            i += 1;
        }
    }

    /// Snapshot `r` took `a` to `self`.
    pub open spec fn snapped(&self, a: &Self, r: VolumesSnapshot) -> bool {
        let bs = a.builders();
        &&& self.wf()
        &&& all_taken(bs, self.builders())
        &&& self.far_flags() == a.far_flags()
        &&& !self.forced()
        &&& bases_of(bs, self.last_bases().0, self.last_bases().1)
        &&& r.full == (a.forced() || !a.bases_kept())
        &&& r.struct_total_bytes == 4 * struct_total(bs)
        &&& r.palette_total_bytes == 4 * bs.len() * PALETTE_WORDS
        &&& r.dirty_chunks == at_most_usize(marks_before(bs, bs.len() as int))
        &&& r.grid_descs.len() == bs.len()
        &&& forall|i: int|
            0 <= i < r.grid_descs.len() ==> #[trigger] r.grid_descs@[i] == desc_of(
                bs[i],
                a.far_flags()[i],
                tree_base_of(bs, i) as u32,
                palette_base_of(bs, i) as u32,
            )
        &&& r.full ==> full_words(r, bs) && r.struct_blobs.len() == 0 && r.palette_blobs.len() == 0
        &&& !r.full ==> struct_pieces(r.struct_blobs@, bs) && palette_pieces(r.palette_blobs@, bs)
            && r.b_struct.len() == 0 && r.b_palette.len() == 0
    }

    /// Flags and snapshot state are the same.
    pub open spec fn same_state(&self, o: &Self) -> bool {
        &&& self.far_flags() == o.far_flags()
        &&& self.last_bases() == o.last_bases()
        &&& self.forced() == o.forced()
    }

    /// Builds volumes that have come since, and takes the far flags over.
    pub fn sync(&mut self, volumes: &mut Vec<VolumeGrid>)
        requires
            old(self).wf(),
            forall|i: int|
                old(self).builders().len() <= i < old(volumes).len() ==> can_build(
                    #[trigger] old(volumes)@[i],
                ),
        ensures
            final(self).caught_up(old(self), old(volumes)@),
            final(volumes).len() == old(volumes).len(),
            forall|i: int|
                0 <= i < old(self).builders().len() && i < old(volumes).len()
                    ==> #[trigger] final(volumes)@[i] == old(volumes)@[i],
            forall|i: int|
                old(self).builders().len() <= i < old(volumes).len() ==> grid_kept(
                    old(volumes)@[i],
                    #[trigger] final(volumes)@[i],
                ),
    {
        let ghost n0 = self.builders@.len() as int;
        while self.builders.len() < volumes.len()
            invariant
                volumes.len() == old(volumes).len(),
                n0 == old(self).builders@.len(),
                n0 <= self.builders.len(),
                self.builders.len() <= volumes.len() || self.builders.len() == n0,
                self.far.len() == self.builders.len(),
                forall|j: int| 0 <= j < n0 ==> #[trigger] self.far@[j] == old(self).far@[j],
                self.prev_tree_bases == old(self).prev_tree_bases,
                self.prev_palette_bases == old(self).prev_palette_bases,
                self.force_full == (old(self).force_full || n0 < self.builders.len()),
                old(self).wf(),
                forall|j: int| n0 <= j < old(volumes).len() ==> can_build(#[trigger] old(volumes)@[j]),
                forall|j: int|
                    0 <= j < n0 ==> #[trigger] self.builders@[j] == old(self).builders@[j],
                forall|j: int|
                    n0 <= j < self.builders.len() ==> built_from(
                        #[trigger] self.builders@[j],
                        old(volumes)@[j],
                        reserve_words(old(volumes)@[j].far),
                    ),
                forall|j: int|
                    n0 <= j < self.builders.len() ==> grid_kept(
                        old(volumes)@[j],
                        #[trigger] volumes@[j],
                    ),
                forall|j: int|
                    0 <= j < volumes.len() && (j < n0 || self.builders.len() <= j)
                        ==> #[trigger] volumes@[j] == old(volumes)@[j],
            decreases volumes.len() - self.builders.len(),
        {
            let i: usize = self.builders.len();
            let reserve: usize = reserve_of(&volumes[i]);
            let is_far: bool = volumes[i].far;
            assert(can_build(old(volumes)@[i as int]));
            let b: BrickMapBuilder = BrickMapBuilder::build_full_reserved(&mut volumes[i], reserve);
            self.builders.push(b);
            self.far.push(is_far);
            self.force_full = true;
        }
        let ghost mid = *self;
        let mut i: usize = 0;
        while i < volumes.len()
            invariant
                i <= volumes.len() <= self.far.len(),
                self.far.len() == mid.far.len(),
                forall|j: int| i <= j < mid.far.len() ==> #[trigger] self.far@[j] == mid.far@[j],
                self.builders == mid.builders,
                self.prev_tree_bases == mid.prev_tree_bases,
                self.prev_palette_bases == mid.prev_palette_bases,
                self.force_full == mid.force_full,
                forall|j: int| 0 <= j < i ==> #[trigger] self.far@[j] == volumes@[j].far,
            decreases volumes.len() - i,
        {
            self.far[i] = volumes[i].far;
            i += 1;
        }
        proof {
            assert forall|j: int| 0 <= j < self.builders.len() implies (#[trigger] self.builders@[j]).wf() by {
                if j < n0 {
                    assert(old(self).builders@[j].wf());
                }
            }
            assert forall|j: int| 0 <= j < old(volumes).len() implies #[trigger] self.far@[j] == old(
                volumes)@[j].far by {
                assert(self.far@[j] == volumes@[j].far);
                if j >= n0 {
                    assert(grid_kept(old(volumes)@[j], volumes@[j]));
                }
            }
        }
    }

    /// Brings one chunk of one volume up to date (see [`BrickMapBuilder::update_chunk`]).
    pub fn update_chunk(
        &mut self,
        volumes: &mut Vec<VolumeGrid>,
        volume_idx: usize,
        coord: ChunkCoord,
        dirty: &TreeDirty,
        allow_compact: bool,
    ) -> (out: ChunkUpdate)
        requires
            old(self).wf(),
            volume_idx < old(self).builders().len(),
            volume_idx < old(volumes).len(),
            old(volumes)@[volume_idx as int].wf(),
            old(volumes)@[volume_idx as int].content(coord) && old(
                self).builders()[volume_idx as int].pos_of(coord) is Some ==> old(
                self).builders()[volume_idx as int].can_update(
                &old(volumes)@[volume_idx as int].chunks.at(coord),
                coord,
                dirty,
            ),
        ensures
            final(self).wf(),
            final(self).same_state(old(self)),
            final(self).builders() == old(self).builders().update(
                volume_idx as int,
                final(self).builders()[volume_idx as int],
            ),
            final(volumes)@ == old(volumes)@.update(
                volume_idx as int,
                final(volumes)@[volume_idx as int],
            ),
            updated(
                old(self).builders()[volume_idx as int],
                final(self).builders()[volume_idx as int],
                old(volumes)@[volume_idx as int],
                final(volumes)@[volume_idx as int],
                coord,
                *dirty,
                allow_compact,
                out,
            ),
    {
        assert(self.builders@[volume_idx as int].wf());
        let out: ChunkUpdate = self.builders[volume_idx].update_chunk(
            &mut volumes[volume_idx],
            coord,
            dirty,
            allow_compact,
        );
        proof {
            assert(self.builders@ =~= old(self).builders@.update(
                volume_idx as int,
                self.builders@[volume_idx as int],
            ));
            assert(volumes@ =~= old(volumes)@.update(volume_idx as int, volumes@[volume_idx as int]));
            assert forall|j: int| 0 <= j < self.builders.len() implies (#[trigger] self.builders@[j]).wf() by {
                if j != volume_idx {
                    assert(old(self).builders@[j].wf());
                }
            }
        }
        out
    }

    /// The window of a volume; `None` when there is no such volume.
    pub fn window_of(&self, volume_idx: usize) -> (r: Option<(IVec3, IVec3)>)
        ensures
            r == (if volume_idx < self.builders().len() {
                Some(self.builders()[volume_idx as int].window_spec())
            } else {
                None
            }),
    {
        if volume_idx < self.builders.len() {
            Some(self.builders[volume_idx].window())
        } else {
            None
        }
    }

    /// Words or palette entries of a volume await an upload.
    pub open spec fn awaits_upload(&self) -> bool {
        exists|i: int|
            0 <= i < self.builders().len() && ((#[trigger] self.builders()[i]).dirty_list().len() > 0
                || self.builders()[i].dirty_entries() is Some)
    }

    /// Something awaits an upload.
    pub fn has_dirty(&self) -> (r: bool)
        ensures
            r == self.awaits_upload(),
    {
        let mut i: usize = 0;
        while i < self.builders.len()
            invariant
                i <= self.builders.len(),
                forall|j: int|
                    0 <= j < i ==> !((#[trigger] self.builders@[j]).dirty_list().len() > 0
                        || self.builders@[j].dirty_entries() is Some),
            decreases self.builders.len() - i,
        {
            if self.builders[i].has_dirty() {
                return true;
            }
            i += 1;
        }
        false
    }

    /// Moves the windows of volumes that have a pinned one.
    pub fn sync_windows(&mut self, volumes: &Vec<VolumeGrid>)
        requires
            old(self).wf(),
            forall|i: int|
                0 <= i < volumes.len() ==> (#[trigger] volumes@[i]).wf() && (volumes@[i].stream_window is Some
                    ==> i < old(self).builders().len()),
        ensures
            final(self).wf(),
            final(self).same_state(old(self)),
            final(self).builders().len() == old(self).builders().len(),
            forall|i: int|
                0 <= i < old(self).builders().len() ==> window_step(
                    old(self).builders()[i],
                    #[trigger] final(self).builders()[i],
                    if i < volumes.len() {
                        volumes@[i].stream_window
                    } else {
                        None
                    },
                ),
    {
        let mut i: usize = 0;
        while i < volumes.len()
            invariant
                i <= volumes.len(),
                self.builders@.len() == old(self).builders@.len(),
                self.far == old(self).far,
                self.prev_tree_bases == old(self).prev_tree_bases,
                self.prev_palette_bases == old(self).prev_palette_bases,
                self.force_full == old(self).force_full,
                old(self).wf(),
                forall|j: int|
                    0 <= j < volumes.len() ==> (#[trigger] volumes@[j]).wf() && (
                    volumes@[j].stream_window is Some ==> j < self.builders.len()),
                forall|j: int|
                    0 <= j < i && j < self.builders.len() ==> window_step(
                        old(self).builders@[j],
                        #[trigger] self.builders@[j],
                        volumes@[j].stream_window,
                    ),
                forall|j: int|
                    i <= j < self.builders.len() ==> #[trigger] self.builders@[j]
                        == old(self).builders@[j],
            decreases volumes.len() - i,
        {
            proof {
                assert(volumes@[i as int].wf());
                if i < self.builders.len() {
                    assert(old(self).builders@[i as int].wf());
                }
            }
            if let Some((o, d)) = volumes[i].stream_window {
                self.builders[i].set_window(o, d);
            }
            i += 1;
        }
        proof {
            assert forall|j: int| 0 <= j < self.builders.len() implies (#[trigger] self.builders@[j]).wf() by {
                assert(old(self).builders@[j].wf());
            }
        }
    }

    /// Makes the next snapshot full.
    pub fn force_full(&mut self)
        requires
            old(self).wf(),
        ensures
            final(self).wf(),
            final(self).forced(),
            final(self).builders() == old(self).builders(),
            final(self).far_flags() == old(self).far_flags(),
            final(self).last_bases() == old(self).last_bases(),
    {
        self.force_full = true;
    }

    /// First words of the volumes, and the totals.
    fn layout(&self) -> (r: (Vec<u32>, Vec<u32>, usize, usize))
        requires
            self.wf(),
            totals_ok(self.builders()),
        ensures
            bases_of(self.builders(), r.0@, r.1@),
            r.2 == struct_total(self.builders()),
            r.3 == self.builders().len() * PALETTE_WORDS,
    {
        let n: usize = self.builders.len();
        let ghost bs = self.builders@;
        let mut tree_bases: Vec<u32> = vec![0; n];
        let mut palette_bases: Vec<u32> = vec![0; n];
        let mut words: usize = 0;
        let mut palette: usize = 0;
        let mut i: usize = 1;
        while i < n
            invariant
                1 <= i <= n,
                n == self.builders.len(),
                bs == self.builders@,
                self.wf(),
                totals_ok(bs),
                tree_bases.len() == n,
                palette_bases.len() == n,
                words == struct_before(bs, i as int),
                palette == (i - 1) * PALETTE_WORDS,
                forall|j: int| 1 <= j < i ==> #[trigger] tree_bases@[j] == tree_base_of(bs, j),
                forall|j: int| 1 <= j < i ==> #[trigger] palette_bases@[j] == palette_base_of(bs, j),
            decreases n - i,
        {
            proof {
                lemma_struct_before(bs, i + 1, n as int);
                assert(bs[i as int].wf());
                bs[i as int].lemma_len();
            }
            tree_bases[i] = words as u32;
            palette_bases[i] = palette as u32;
            words = words + self.builders[i].buffers().b_struct.len();
            palette = palette + self.builders[i].buffers().b_palette.len();
            i += 1;
        }
        proof {
            assert(bs[0].wf());
            bs[0].lemma_len();
        }
        tree_bases[0] = words as u32;
        palette_bases[0] = palette as u32;
        words = words + self.builders[0].buffers().b_struct.len();
        palette = palette + self.builders[0].buffers().b_palette.len();
        (tree_bases, palette_bases, words, palette)
    }

    /// The descriptors of the volumes.
    fn describe(&self, tree_bases: &Vec<u32>, palette_bases: &Vec<u32>) -> (r: Vec<GridDesc>)
        requires
            self.wf(),
            tree_bases.len() == self.builders().len(),
            palette_bases.len() == self.builders().len(),
        ensures
            r.len() == self.builders().len(),
            forall|i: int|
                0 <= i < r.len() ==> #[trigger] r@[i] == desc_of(
                    self.builders()[i],
                    self.far_flags()[i],
                    tree_bases@[i],
                    palette_bases@[i],
                ),
    {
        let n: usize = self.builders.len();
        let mut r: Vec<GridDesc> = Vec::with_capacity(n);
        let mut i: usize = 0;
        while i < n
            invariant
                i <= n,
                n == self.builders.len(),
                self.wf(),
                tree_bases.len() == n,
                palette_bases.len() == n,
                r.len() == i,
                forall|j: int|
                    0 <= j < i ==> #[trigger] r@[j] == desc_of(
                        self.builders@[j],
                        self.far@[j],
                        tree_bases@[j],
                        palette_bases@[j],
                    ),
            decreases n - i,
        {
            let g = &self.builders[i].buffers().globals;
            r.push(
                GridDesc {
                    tree_base: tree_bases[i],
                    tree_depth: MAX_LEVEL,
                    chunk_count: g.tile_count,
                    palette_base: palette_bases[i],
                    index_origin_x: g.index_origin_x,
                    index_origin_y: g.index_origin_y,
                    index_origin_z: g.index_origin_z,
                    index_dims_x: g.index_dims_x,
                    index_dims_y: g.index_dims_y,
                    index_dims_z: g.index_dims_z,
                    grid_flags: if self.far[i] { GRID_FLAG_FAR } else { 0 },
                },
            );
            i += 1;
        }
        r
    }

    /// Whether the volumes stand where they stood at the last snapshot.
    fn same_bases(&self, tree_bases: &Vec<u32>, palette_bases: &Vec<u32>) -> (r: bool)
        requires
            bases_of(self.builders(), tree_bases@, palette_bases@),
        ensures
            r == self.bases_kept(),
    {
        if self.prev_tree_bases.len() != tree_bases.len() {
            return false;
        }
        let n: usize = tree_bases.len();
        let mut i: usize = 0;
        while i < n
            invariant
                i <= n,
                n == tree_bases.len(),
                n == self.prev_tree_bases.len(),
                bases_of(self.builders(), tree_bases@, palette_bases@),
                forall|j: int|
                    0 <= j < i ==> #[trigger] self.prev_tree_bases@[j] == tree_base_of(
                        self.builders(),
                        j,
                    ),
                forall|j: int|
                    0 <= j < i && j < self.prev_palette_bases.len()
                        ==> #[trigger] self.prev_palette_bases@[j] == palette_base_of(
                        self.builders(),
                        j,
                    ),
            decreases n - i,
        {
            assert(tree_bases@[i as int] == tree_base_of(self.builders(), i as int));
            assert(palette_bases@[i as int] == palette_base_of(self.builders(), i as int));
            if self.prev_tree_bases[i] != tree_bases[i] {
                assert(self.last_bases().0[i as int] != tree_base_of(self.builders(), i as int));
                return false;
            }
            if i < self.prev_palette_bases.len() && self.prev_palette_bases[i] != palette_bases[i] {
                assert(self.last_bases().1[i as int] != palette_base_of(self.builders(), i as int));
                return false;
            }
            i += 1;
        }
        true
    }

    /// All words in layout order; nothing awaits an upload afterwards.
    fn collect_full(&mut self) -> (r: (Vec<u32>, Vec<u32>))
        requires
            old(self).wf(),
            totals_ok(old(self).builders()),
        ensures
            final(self).wf(),
            final(self).same_state(old(self)),
            all_taken(old(self).builders(), final(self).builders()),
            r.0.len() == struct_total(old(self).builders()),
            r.1.len() == old(self).builders().len() * PALETTE_WORDS,
            forall|i: int, w: int|
                0 <= i < old(self).builders().len() && 0 <= w < old(self).builders()[i].words().len()
                    ==> r.0@[tree_base_of(old(self).builders(), i) + w] == #[trigger] old(
                    self).builders()[i].words()[w],
            forall|i: int, w: int|
                0 <= i < old(self).builders().len() && 0 <= w < PALETTE_WORDS
                    ==> r.1@[palette_base_of(old(self).builders(), i) + w] == #[trigger] old(
                    self).builders()[i].palette_words()[w],
    {
        let n: usize = self.builders.len();
        let ghost bs = self.builders@;
        let mut i: usize = 0;
        while i < n
            invariant
                i <= n,
                n == self.builders.len(),
                bs == old(self).builders@,
                bs.len() == n,
                old(self).wf(),
                self.far == old(self).far,
                self.prev_tree_bases == old(self).prev_tree_bases,
                self.prev_palette_bases == old(self).prev_palette_bases,
                self.force_full == old(self).force_full,
                forall|j: int| 0 <= j < i ==> taken(bs[j], #[trigger] self.builders@[j]),
                forall|j: int| i <= j < n ==> #[trigger] self.builders@[j] == bs[j],
            decreases n - i,
        {
            assert(bs[i as int].wf());
            let _ = self.builders[i].take_dirty_ranges();
            i += 1;
        }
        let mut b_struct: Vec<u32> = Vec::new();
        let mut b_palette: Vec<u32> = Vec::new();
        i = 1;
        while i < n
            invariant
                1 <= i <= n,
                n == self.builders.len(),
                bs == old(self).builders@,
                bs.len() == n,
                old(self).wf(),
                forall|j: int| 0 <= j < n ==> taken(bs[j], #[trigger] self.builders@[j]),
                b_struct.len() == struct_before(bs, i as int),
                b_palette.len() == (i - 1) * PALETTE_WORDS,
                forall|j: int, w: int|
                    1 <= j < i && 0 <= w < bs[j].words().len() ==> b_struct@[struct_before(bs, j) + w]
                        == #[trigger] bs[j].words()[w],
                forall|j: int, w: int|
                    1 <= j < i && 0 <= w < PALETTE_WORDS ==> b_palette@[(j - 1) * PALETTE_WORDS + w]
                        == #[trigger] bs[j].palette_words()[w],
            decreases n - i,
        {
            let ghost (s0, p0) = (b_struct@, b_palette@);
            let buffers: &BrickMapBuffers = self.builders[i].buffers();
            b_struct.extend_from_slice(buffers.b_struct.as_slice());
            b_palette.extend_from_slice(buffers.b_palette.as_slice());
            proof {
                assert(taken(bs[i as int], self.builders@[i as int]));
                assert(bs[i as int].wf());
                bs[i as int].lemma_len();
                assert forall|j: int, w: int|
                    1 <= j < i + 1 && 0 <= w < bs[j].words().len() implies b_struct@[struct_before(bs, j)
                    + w] == #[trigger] bs[j].words()[w] by {
                    lemma_struct_before(bs, j, i as int);
                }
                assert forall|j: int, w: int|
                    1 <= j < i + 1 && 0 <= w < PALETTE_WORDS implies b_palette@[(j - 1) * PALETTE_WORDS
                    + w] == #[trigger] bs[j].palette_words()[w] by {
                    if j < i {
                        assert((j - 1) * PALETTE_WORDS + w < p0.len());
                    }
                }
            }
            i += 1;
        }
        let ghost (s0, p0) = (b_struct@, b_palette@);
        let buffers: &BrickMapBuffers = self.builders[0].buffers();
        b_struct.extend_from_slice(buffers.b_struct.as_slice());
        b_palette.extend_from_slice(buffers.b_palette.as_slice());
        proof {
            assert(taken(bs[0], self.builders@[0]));
            assert(bs[0].wf());
            bs[0].lemma_len();
            assert forall|j: int, w: int|
                0 <= j < n && 0 <= w < bs[j].words().len() implies b_struct@[tree_base_of(bs, j) + w]
                == #[trigger] bs[j].words()[w] by {
                if j > 0 {
                    lemma_struct_before(bs, j, n as int);
                }
            }
            assert forall|j: int, w: int|
                0 <= j < n && 0 <= w < PALETTE_WORDS implies b_palette@[palette_base_of(bs, j) + w]
                == #[trigger] bs[j].palette_words()[w] by {
                if j > 0 {
                    assert((j - 1) * PALETTE_WORDS + w < p0.len());
                }
            }
            assert forall|j: int| 0 <= j < self.builders.len() implies (#[trigger] self.builders@[j]).wf() by {
                assert(taken(bs[j], self.builders@[j]));
            }
        }
        (b_struct, b_palette)
    }

    /// The marked pieces, as byte offsets and bytes; nothing awaits an upload afterwards.
    fn collect_marked(&mut self, tree_bases: &Vec<u32>, palette_bases: &Vec<u32>) -> (r: (
        Vec<(usize, Vec<u8>)>,
        Vec<(usize, Vec<u8>)>,
    ))
        requires
            old(self).wf(),
            totals_ok(old(self).builders()),
            bases_of(old(self).builders(), tree_bases@, palette_bases@),
        ensures
            final(self).wf(),
            final(self).same_state(old(self)),
            all_taken(old(self).builders(), final(self).builders()),
            struct_pieces(r.0@, old(self).builders()),
            palette_pieces(r.1@, old(self).builders()),
    {
        let n: usize = self.builders.len();
        let ghost bs = self.builders@;
        let mut struct_blobs: Vec<(usize, Vec<u8>)> = Vec::new();
        let mut palette_blobs: Vec<(usize, Vec<u8>)> = Vec::new();
        let mut i: usize = 0;
        while i < n
            invariant
                i <= n,
                n == self.builders.len(),
                bs == old(self).builders@,
                bs.len() == n,
                old(self).wf(),
                totals_ok(bs),
                bases_of(bs, tree_bases@, palette_bases@),
                self.far == old(self).far,
                self.prev_tree_bases == old(self).prev_tree_bases,
                self.prev_palette_bases == old(self).prev_palette_bases,
                self.force_full == old(self).force_full,
                forall|j: int| 0 <= j < i ==> taken(bs[j], #[trigger] self.builders@[j]),
                forall|j: int| i <= j < n ==> #[trigger] self.builders@[j] == bs[j],
                struct_blobs.len() == marks_before(bs, i as int),
                forall|j: int, q: int|
                    0 <= j < i && 0 <= q < bs[j].dirty_list().len() ==> struct_piece(
                        #[trigger] struct_blobs@[marks_before(bs, j) + q],
                        bs,
                        j,
                        q,
                    ),
                palette_blobs.len() == spans_before(bs, i as int),
                forall|j: int|
                    0 <= j < i && bs[j].dirty_entries() is Some ==> palette_piece(
                        #[trigger] palette_blobs@[spans_before(bs, j)],
                        bs,
                        j,
                    ),
            decreases n - i,
        {
            proof {
                assert(bs[i as int].wf());
                bs[i as int].lemma_len();
                assert(tree_bases@[i as int] == tree_base_of(bs, i as int));
                assert(palette_bases@[i as int] == palette_base_of(bs, i as int));
                lemma_base_bound(bs, i as int);
            }
            let dr: DirtyRanges = self.builders[i].take_dirty_ranges();
            let tb: usize = tree_bases[i] as usize;
            let pb: usize = palette_bases[i] as usize;
            let buffers: &BrickMapBuffers = self.builders[i].buffers();
            let ghost s0 = struct_blobs@;
            let ghost p0 = palette_blobs@;
            let mut k: usize = 0;
            while k < dr.struct_ranges.len()
                invariant
                    k <= dr.struct_ranges.len(),
                    0 <= i < n,
                    n == bs.len(),
                    totals_ok(bs),
                    dr.struct_ranges@ == bs[i as int].dirty_list(),
                    dirty_ok(dr.struct_ranges@, bs[i as int].words().len() as int),
                    buffers.b_struct@ == bs[i as int].words(),
                    tb == tree_base_of(bs, i as int),
                    tb + bs[i as int].words().len() <= struct_total(bs),
                    s0.len() == marks_before(bs, i as int),
                    struct_blobs.len() == s0.len() + k,
                    forall|j: int| 0 <= j < s0.len() ==> #[trigger] struct_blobs@[j] == s0[j],
                    forall|q: int|
                        0 <= q < k ==> struct_piece(
                            #[trigger] struct_blobs@[s0.len() + q],
                            bs,
                            i as int,
                            q,
                        ),
                decreases dr.struct_ranges.len() - k,
            {
                let (lo, hi) = dr.struct_ranges[k];
                let bytes: Vec<u8> = words_to_bytes(&buffers.b_struct, lo / 4, hi / 4);
                struct_blobs.push((tb * 4 + lo, bytes));
                k += 1;
            }
            if let Some((lo, hi)) = dr.palette_range {
                let w0: usize = lo as usize * 2;
                let w1: usize = hi as usize * 2 + 2;
                let bytes: Vec<u8> = words_to_bytes(&buffers.b_palette, w0, w1);
                palette_blobs.push((pb * 4 + lo as usize * PALETTE_BYTES_PER_ENTRY, bytes));
            }
            proof {
                assert(taken(bs[i as int], self.builders@[i as int]));
                assert forall|j: int, q: int|
                    0 <= j < i + 1 && 0 <= q < bs[j].dirty_list().len() implies struct_piece(
                    #[trigger] struct_blobs@[marks_before(bs, j) + q],
                    bs,
                    j,
                    q,
                ) by {
                    lemma_marks_before(bs, j, i as int);
                    if j < i {
                        lemma_marks_before(bs, j + 1, i as int);
                        assert(struct_piece(s0[marks_before(bs, j) + q], bs, j, q));
                    } else {
                        assert(struct_piece(struct_blobs@[s0.len() + q], bs, i as int, q));
                    }
                }
                assert forall|j: int| 0 <= j < i + 1 && bs[j].dirty_entries() is Some implies palette_piece(
                    #[trigger] palette_blobs@[spans_before(bs, j)],
                    bs,
                    j,
                ) by {
                    lemma_marks_before(bs, j, i as int);
                    if j < i {
                        lemma_marks_before(bs, j + 1, i as int);
                        assert(palette_piece(p0[spans_before(bs, j)], bs, j));
                    }
                }
            }
            i += 1;
        }
        proof {
            assert forall|j: int| 0 <= j < self.builders.len() implies (#[trigger] self.builders@[j]).wf() by {
                assert(taken(bs[j], self.builders@[j]));
            }
        }
        (struct_blobs, palette_blobs)
    }

    /// Takes a snapshot of all volumes.
    ///
    /// It is full after [`Self::force_full`], at first, and when a volume does not stand where it
    /// stood at the last snapshot; otherwise it holds the marked pieces.
    pub fn snapshot(&mut self) -> (r: VolumesSnapshot)
        requires
            old(self).wf(),
            totals_ok(old(self).builders()),
        ensures
            final(self).snapped(old(self), r),
    {
        let (tree_bases, palette_bases, words, palette) = self.layout();
        let ghost bs = self.builders@;
        let grid_descs: Vec<GridDesc> = self.describe(&tree_bases, &palette_bases);
        let full: bool = self.force_full || !self.same_bases(&tree_bases, &palette_bases);
        let dirty_chunks: usize = self.count_marks();
        let mut b_struct: Vec<u32> = Vec::new();
        let mut b_palette: Vec<u32> = Vec::new();
        let mut struct_blobs: Vec<(usize, Vec<u8>)> = Vec::new();
        let mut palette_blobs: Vec<(usize, Vec<u8>)> = Vec::new();
        if full {
            let (s, p) = self.collect_full();
            b_struct = s;
            b_palette = p;
        } else {
            let (s, p) = self.collect_marked(&tree_bases, &palette_bases);
            struct_blobs = s;
            palette_blobs = p;
        }
        proof {
            assert forall|i: int| 0 <= i < grid_descs.len() implies #[trigger] grid_descs@[i] == desc_of(
                bs[i],
                old(self).far@[i],
                tree_base_of(bs, i) as u32,
                palette_base_of(bs, i) as u32,
            ) by {
                assert(tree_bases@[i] == tree_base_of(bs, i));
                assert(palette_bases@[i] == palette_base_of(bs, i));
            }
        }
        self.prev_tree_bases = tree_bases;
        self.prev_palette_bases = palette_bases;
        self.force_full = false;
        VolumesSnapshot {
            b_struct,
            b_palette,
            grid_descs,
            full,
            struct_blobs,
            palette_blobs,
            struct_total_bytes: words * 4,
            palette_total_bytes: palette * 4,
            dirty_chunks,
        }
    }

    /// Number of marked pieces.
    fn count_marks(&self) -> (r: usize)
        requires
            self.wf(),
        ensures
            r == at_most_usize(marks_before(self.builders(), self.builders().len() as int)),
    {
        let n: usize = self.builders.len();
        let ghost bs = self.builders@;
        let mut r: usize = 0;
        let mut i: usize = 0;
        while i < n
            invariant
                i <= n,
                n == self.builders.len(),
                bs == self.builders@,
                r == at_most_usize(marks_before(bs, i as int)),
            decreases n - i,
        {
            r = r.saturating_add(self.builders[i].dirty_count());
            i += 1;
        }
        r
    }

    /// First word of a chunk's block in a volume.
    pub fn chunk_base(&self, volume_idx: usize, coord: ChunkCoord) -> (r: Option<usize>)
        requires
            self.wf(),
            volume_idx < self.builders().len(),
        ensures
            match r {
                Some(b) => self.builders()[volume_idx as int].resident(coord) && b
                    == self.builders()[volume_idx as int].base_of(coord),
                None => !self.builders()[volume_idx as int].resident(coord),
            },
    {
        assert(self.builders@[volume_idx as int].wf());
        self.builders[volume_idx].chunk_base(coord)
    }

    /// Whether a chunk has a block; no for a volume that is not there.
    pub fn is_resident(&self, vol_idx: usize, coord: ChunkCoord) -> (r: bool)
        requires
            self.wf(),
        ensures
            r == (vol_idx < self.builders().len() && self.builders()[vol_idx as int].resident(coord)),
    {
        if vol_idx < self.builders.len() {
            assert(self.builders@[vol_idx as int].wf());
            self.builders[vol_idx].is_resident(coord)
        } else {
            false
        }
    }

    /// Words of all blocks of a volume; 0 for a volume that is not there.
    pub fn resident_words(&self, vol_idx: usize) -> (r: usize)
        requires
            self.wf(),
        ensures
            r == (if vol_idx < self.builders().len() {
                self.builders()[vol_idx as int].block_total()
            } else {
                0
            }),
    {
        if vol_idx < self.builders.len() {
            assert(self.builders@[vol_idx as int].wf());
            self.builders[vol_idx].resident_words()
        } else {
            0
        }
    }

    /// Bytes of a chunk's block; `None` without one.
    pub fn resident_bytes_of(&self, vol_idx: usize, coord: ChunkCoord) -> (r: Option<usize>)
        requires
            self.wf(),
        ensures
            match r {
                Some(b) => vol_idx < self.builders().len()
                    && self.builders()[vol_idx as int].resident(coord) && b == 4
                    * self.builders()[vol_idx as int].cap_of(coord),
                None => !(vol_idx < self.builders().len()
                    && self.builders()[vol_idx as int].resident(coord)),
            },
    {
        if vol_idx < self.builders.len() {
            assert(self.builders@[vol_idx as int].wf());
            self.builders[vol_idx].resident_bytes_of(coord)
        } else {
            None
        }
    }

    /// The chunks of a volume that have a block.
    pub fn resident_chunks(&self, vol_idx: usize) -> (r: Vec<ChunkCoord>)
        requires
            self.wf(),
        ensures
            forall|c: ChunkCoord| #[trigger]
                r@.contains(c) <==> vol_idx < self.builders().len()
                    && self.builders()[vol_idx as int].resident(c),
            r@.no_duplicates(),
    {
        if vol_idx < self.builders.len() {
            assert(self.builders@[vol_idx as int].wf());
            self.builders[vol_idx].resident_chunks()
        } else {
            Vec::new()
        }
    }

    /// Installs a given tree (see [`BrickMapBuilder::ensure_resident_tree`]); does nothing for a
    /// volume that is not there.
    pub fn ensure_resident_tree(
        &mut self,
        vol_idx: usize,
        coord: ChunkCoord,
        tree: &ChunkTree,
    ) -> (r: bool)
        requires
            old(self).wf(),
            tree.wf(),
            vol_idx < old(self).builders().len() && !old(
                self).builders()[vol_idx as int].resident(coord) && !tree.is_air() && old(
                self).builders()[vol_idx as int].pos_of(coord) is Some ==> old(
                self).builders()[vol_idx as int].can_take(block_words(tree.wire_len())),
        ensures
            final(self).wf(),
            final(self).same_state(old(self)),
            r == (vol_idx < old(self).builders().len() && !old(
                self).builders()[vol_idx as int].resident(coord) && !tree.is_air() && old(
                self).builders()[vol_idx as int].pos_of(coord) is Some),
            !r ==> final(self).builders() == old(self).builders(),
            r ==> {
                let (a, b) = (old(self).builders()[vol_idx as int], final(self).builders()[vol_idx as int]);
                &&& final(self).builders() == old(self).builders().update(vol_idx as int, b)
                &&& BrickMapBuilder::installed(&a, &b, coord, tree)
                &&& BrickMapBuilder::marks_changes(&a, &b)
                &&& BrickMapBuilder::marks_local(&a, &b, coord)
                &&& b.same_setup(&a)
                &&& b.same_palette(&a)
            },
    {
        if vol_idx < self.builders.len() {
            assert(self.builders@[vol_idx as int].wf());
            let r: bool = self.builders[vol_idx].ensure_resident_tree(coord, tree);
            proof {
                self.lemma_one_changed(old(self), vol_idx as int);
            }
            r
        } else {
            false
        }
    }

    /// Installs a chunk's own tree; does nothing for a volume that is not there.
    pub fn ensure_resident(
        &mut self,
        volumes: &Vec<VolumeGrid>,
        vol_idx: usize,
        coord: ChunkCoord,
    ) -> (r: bool)
        requires
            old(self).wf(),
            vol_idx < volumes.len() ==> volumes@[vol_idx as int].wf(),
            vol_idx < old(self).builders().len() && vol_idx < volumes.len()
                && volumes@[vol_idx as int].content(coord) && !old(
                self).builders()[vol_idx as int].resident(coord) && old(
                self).builders()[vol_idx as int].pos_of(coord) is Some ==> old(
                self).builders()[vol_idx as int].can_take(
                block_words(volumes@[vol_idx as int].chunks.at(coord).wire_len()),
            ),
        ensures
            final(self).wf(),
            final(self).same_state(old(self)),
            r == (vol_idx < old(self).builders().len() && vol_idx < volumes.len()
                && volumes@[vol_idx as int].content(coord) && !old(
                self).builders()[vol_idx as int].resident(coord) && old(
                self).builders()[vol_idx as int].pos_of(coord) is Some),
            !r ==> final(self).builders() == old(self).builders(),
            r ==> {
                let (a, b) = (old(self).builders()[vol_idx as int], final(self).builders()[vol_idx as int]);
                &&& final(self).builders() == old(self).builders().update(vol_idx as int, b)
                &&& BrickMapBuilder::installed(&a, &b, coord, &volumes@[vol_idx as int].chunks.at(coord))
                &&& BrickMapBuilder::marks_changes(&a, &b)
                &&& BrickMapBuilder::marks_local(&a, &b, coord)
                &&& b.same_setup(&a)
                &&& b.same_palette(&a)
            },
    {
        if vol_idx < self.builders.len() && vol_idx < volumes.len() {
            assert(self.builders@[vol_idx as int].wf());
            let r: bool = self.builders[vol_idx].ensure_resident(&volumes[vol_idx], coord);
            proof {
                self.lemma_one_changed(old(self), vol_idx as int);
            }
            r
        } else {
            false
        }
    }

    /// Gives a chunk's block back; answers whether there was one.
    pub fn evict(&mut self, vol_idx: usize, coord: ChunkCoord) -> (r: bool)
        requires
            old(self).wf(),
        ensures
            final(self).wf(),
            final(self).same_state(old(self)),
            r == (vol_idx < old(self).builders().len() && old(
                self).builders()[vol_idx as int].resident(coord)),
            !r ==> final(self).builders() == old(self).builders(),
            r ==> {
                let (a, b) = (old(self).builders()[vol_idx as int], final(self).builders()[vol_idx as int]);
                &&& final(self).builders() == old(self).builders().update(vol_idx as int, b)
                &&& BrickMapBuilder::evicted(&a, &b, coord)
                &&& BrickMapBuilder::marks_changes(&a, &b)
                &&& BrickMapBuilder::marks_local(&a, &b, coord)
                &&& b.same_setup(&a)
                &&& b.same_palette(&a)
            },
    {
        if vol_idx < self.builders.len() {
            assert(self.builders@[vol_idx as int].wf());
            let r: bool = self.builders[vol_idx].evict(coord);
            proof {
                self.lemma_one_changed(old(self), vol_idx as int);
            }
            r
        } else {
            false
        }
    }

    proof fn lemma_one_changed(&self, o: &Self, i: int)
        requires
            o.wf(),
            0 <= i < o.builders@.len(),
            self.far == o.far,
            self.builders@.len() == o.builders@.len(),
            self.builders@[i].wf(),
            forall|j: int|
                0 <= j < o.builders@.len() && j != i ==> #[trigger] self.builders@[j] == o.builders@[j],
        ensures
            self.wf(),
            self.builders() == o.builders().update(i, self.builders()[i]),
            self.builders()[i] == o.builders()[i] ==> self.builders() == o.builders(),
    {
        assert(self.builders@ =~= o.builders@.update(i, self.builders@[i]));
        assert forall|j: int| 0 <= j < self.builders@.len() implies (#[trigger] self.builders@[j]).wf() by {
            if j != i {
                assert(o.builders@[j].wf());
            }
        }
        if self.builders@[i] == o.builders@[i] {
            assert(self.builders@ =~= o.builders@);
        }
    }

    /// The words of every volume, in volume order.
    pub fn volume_buffers(&self) -> (r: Vec<&BrickMapBuffers>)
        ensures
            r.len() == self.builders().len(),
            forall|i: int| 0 <= i < r.len() ==> shows_words(*#[trigger] r@[i], self.builders()[i]),
    {
        let mut r: Vec<&BrickMapBuffers> = Vec::with_capacity(self.builders.len());
        let mut i: usize = 0;
        while i < self.builders.len()
            invariant
                i <= self.builders.len(),
                r.len() == i,
                forall|j: int| 0 <= j < i ==> shows_words(*#[trigger] r@[j], self.builders@[j]),
            decreases self.builders.len() - i,
        {
            r.push(self.builders[i].buffers());
            i += 1;
        }
        r
    }

    pub fn len(&self) -> (r: usize)
        ensures
            r == self.builders().len(),
    {
        self.builders.len()
    }

    pub fn is_empty(&self) -> (r: bool)
        ensures
            r == (self.builders().len() == 0),
    {
        self.builders.len() == 0
    }
}

/// A blob covers byte `a`.
pub open spec fn covers(blob: (usize, Vec<u8>), a: int) -> bool {
    blob.0 <= a < blob.0 + blob.1@.len()
}

/// Byte `a` of a buffer that held `g` once the first `n` blobs are written over it.
pub open spec fn byte_after(
    g: spec_fn(int) -> u8,
    blobs: Seq<(usize, Vec<u8>)>,
    n: nat,
    a: int,
) -> u8
    decreases n,
{
    if n == 0 {
        g(a)
    } else if covers(blobs[n - 1], a) {
        blobs[n - 1].1@[a - blobs[n - 1].0]
    } else {
        byte_after(g, blobs, (n - 1) as nat, a)
    }
}

/// Word `w` of volume `i` stands in the buffer `g`.
pub open spec fn word_shown(g: spec_fn(int) -> u8, bs: Seq<BrickMapBuilder>, i: int, w: int) -> bool {
    forall|j: int|
        0 <= j < 4 ==> g(#[trigger] (4 * (tree_base_of(bs, i) + w) + j)) == byte_of(
            bs[i].words()[w],
            j,
        )
}

/// Every blob is a piece of some volume.
proof fn lemma_piece_of(bs: Seq<BrickMapBuilder>, k: int, n: int) -> (r: (int, int))
    requires
        0 <= k < marks_before(bs, n),
        n <= bs.len(),
    ensures
        0 <= r.0 < n,
        0 <= r.1 < bs[r.0].dirty_list().len(),
        k == marks_before(bs, r.0) + r.1,
    decreases (if n > 0 { n } else { 0 }),
{
    if n <= 0 {
        (0, 0)
    } else if k < marks_before(bs, n - 1) {
        lemma_piece_of(bs, k, n - 1)
    } else {
        (n - 1, k - marks_before(bs, n - 1))
    }
}

/// A blob that covers a byte of a volume's word holds that byte.
proof fn lemma_piece_byte(
    blobs: Seq<(usize, Vec<u8>)>,
    bs: Seq<BrickMapBuilder>,
    k: int,
    i: int,
    w: int,
    j: int,
)
    requires
        1 <= bs.len(),
        struct_pieces(blobs, bs),
        forall|v: int| 0 <= v < bs.len() ==> (#[trigger] bs[v]).wf(),
        0 <= k < blobs.len(),
        0 <= i < bs.len(),
        0 <= w < bs[i].words().len(),
        0 <= j < 4,
        covers(blobs[k], 4 * (tree_base_of(bs, i) + w) + j),
    ensures
        blobs[k].1@[4 * (tree_base_of(bs, i) + w) + j - blobs[k].0] == byte_of(bs[i].words()[w], j),
{
    let (v, q) = lemma_piece_of(bs, k, bs.len() as int);
    assert(struct_piece(blobs[marks_before(bs, v) + q], bs, v, q));
    bs[v].lemma_len();
    let (lo, hi) = bs[v].dirty_list()[q];
    let a = 4 * (tree_base_of(bs, i) + w) + j;
    assert(lo % 4 == 0 && hi % 4 == 0);
    if v != i {
        lemma_layout_apart(bs, v, i);
    }
    assert(v == i);
    let x = a - blobs[k].0;
    assert(x == 4 * (w - lo as int / 4) + j);
    assert(x / 4 == w - lo as int / 4 && x % 4 == j);
}

proof fn lemma_byte_after(
    g: spec_fn(int) -> u8,
    blobs: Seq<(usize, Vec<u8>)>,
    bs: Seq<BrickMapBuilder>,
    n: nat,
    i: int,
    w: int,
    j: int,
)
    requires
        1 <= bs.len(),
        struct_pieces(blobs, bs),
        forall|v: int| 0 <= v < bs.len() ==> (#[trigger] bs[v]).wf(),
        n <= blobs.len(),
        0 <= i < bs.len(),
        0 <= w < bs[i].words().len(),
        0 <= j < 4,
    ensures
        ({
            let a = 4 * (tree_base_of(bs, i) + w) + j;
            let r = byte_after(g, blobs, n, a);
            r == byte_of(bs[i].words()[w], j) || (r == g(a) && forall|k: int|
                0 <= k < n ==> !covers(#[trigger] blobs[k], a))
        }),
    decreases n,
{
    if n > 0 {
        let a = 4 * (tree_base_of(bs, i) + w) + j;
        if covers(blobs[n - 1], a) {
            lemma_piece_byte(blobs, bs, n - 1, i, w, j);
        } else {
            lemma_byte_after(g, blobs, bs, (n - 1) as nat, i, w, j);
        }
    }
}

/// Word `w` of volume `i` is in an upload piece, which holds its bytes.
pub open spec fn in_piece(
    blobs: Seq<(usize, Vec<u8>)>,
    bs: Seq<BrickMapBuilder>,
    i: int,
    w: int,
) -> bool {
    exists|k: int|
        0 <= k < blobs.len() && #[trigger] holds_word(
            blobs[k],
            4 * (tree_base_of(bs, i) + w),
            bs[i].words()[w],
        )
}

/// A piece holds the bytes of word `x` at byte `at` of the buffer.
pub open spec fn holds_word(blob: (usize, Vec<u8>), at: int, x: u32) -> bool {
    forall|j: int|
        0 <= j < 4 ==> covers(blob, #[trigger] (at + j)) && blob.1@[at + j - blob.0] == byte_of(x, j)
}

/// Every marked word is in an upload piece.
pub proof fn lemma_marked_words_are_uploaded(
    blobs: Seq<(usize, Vec<u8>)>,
    bs: Seq<BrickMapBuilder>,
    i: int,
    w: int,
)
    requires
        struct_pieces(blobs, bs),
        forall|v: int| 0 <= v < bs.len() ==> (#[trigger] bs[v]).wf(),
        0 <= i < bs.len(),
        bs[i].dirty_word(w),
    ensures
        in_piece(blobs, bs, i, w),
{
    bs[i].lemma_len();
    bs[i].lemma_dirty_bound(w);
    let d = bs[i].dirty_list();
    let q = choose|q: int| 0 <= q < d.len() && (#[trigger] d[q]).0 <= 4 * w && 4 * w + 4 <= d[q].1;
    lemma_marks_before(bs, i, bs.len() as int);
    lemma_marks_before(bs, i + 1, bs.len() as int);
    let k = marks_before(bs, i) + q;
    assert(struct_piece(blobs[k], bs, i, q));
    assert(d[q].0 % 4 == 0 && d[q].1 % 4 == 0);
    let at = 4 * (tree_base_of(bs, i) + w);
    assert forall|j: int| 0 <= j < 4 implies covers(blobs[k], #[trigger] (at + j)) && blobs[k].1@[at + j
        - blobs[k].0] == byte_of(bs[i].words()[w], j) by {
        assert(covers(blobs[k], at + j));
        lemma_piece_byte(blobs, bs, k, i, w, j);
    }
    assert(holds_word(blobs[k], at, bs[i].words()[w]));
}

/// Uploading only the marked pieces is enough.
///
/// `a` are the volumes as the buffer `g` shows them: every live word of theirs stands in it. `b` are
/// the volumes after any number of steps that mark their changes and leave every volume where it
/// stands. Once the marked pieces of `b` are written, every live word of `b` stands in the buffer.
pub proof fn lemma_marked_pieces_suffice(
    g: spec_fn(int) -> u8,
    a: Seq<BrickMapBuilder>,
    b: Seq<BrickMapBuilder>,
    blobs: Seq<(usize, Vec<u8>)>,
    i: int,
    w: int,
)
    requires
        1 <= b.len(),
        a.len() == b.len(),
        forall|v: int| 0 <= v < b.len() ==> (#[trigger] b[v]).wf(),
        forall|v: int|
            0 <= v < b.len() ==> BrickMapBuilder::marks_changes(&a[v], &#[trigger] b[v]) && tree_base_of(
                a,
                v,
            ) == tree_base_of(b, v),
        forall|v: int, x: int|
            0 <= v < a.len() && #[trigger] a[v].live(x) ==> word_shown(g, a, v, x),
        struct_pieces(blobs, b),
        0 <= i < b.len(),
        b[i].live(w),
    ensures
        word_shown(|y: int| byte_after(g, blobs, blobs.len(), y), b, i, w),
{
    let f = |y: int| byte_after(g, blobs, blobs.len(), y);
    assert(b[i].wf());
    b[i].lemma_live_bound(w);
    assert forall|j: int| 0 <= j < 4 implies f(#[trigger] (4 * (tree_base_of(b, i) + w) + j))
        == byte_of(b[i].words()[w], j) by {
        let y = 4 * (tree_base_of(b, i) + w) + j;
        lemma_byte_after(g, blobs, b, blobs.len(), i, w, j);
        if f(y) != byte_of(b[i].words()[w], j) {
            if b[i].dirty_word(w) {
                let d = b[i].dirty_list();
                let q = choose|q: int|
                    0 <= q < d.len() && (#[trigger] d[q]).0 <= 4 * w && 4 * w + 4 <= d[q].1;
                lemma_marks_before(b, i, b.len() as int);
                lemma_marks_before(b, i + 1, b.len() as int);
                let k = marks_before(b, i) + q;
                assert(struct_piece(blobs[k], b, i, q));
                b[i].lemma_len();
                assert(d[q].0 % 4 == 0 && d[q].1 % 4 == 0);
                assert(covers(blobs[k], y));
            } else {
                assert(BrickMapBuilder::marks_changes(&a[i], &b[i]));
                assert(a[i].live(w));
                assert(word_shown(g, a, i, w));
                assert(g(4 * (tree_base_of(a, i) + w) + j) == byte_of(a[i].words()[w], j));
            }
        }
    }
}

/// The four bytes of a word, lowest first, make up the word again.
pub proof fn lemma_bytes_make_word(w: u32)
    ensures
        byte_of(w, 0) + 256 * byte_of(w, 1) + 65536 * byte_of(w, 2) + 16777216 * byte_of(w, 3) == w,
{
    let r1 = w as int / 256;
    let r2 = r1 / 256;
    assert(r2 == w as int / 65536);
    assert(r2 / 256 == w as int / 16777216);
    assert(w == w % 256 + 256 * r1);
    assert(r1 == r1 % 256 + 256 * r2);
    assert(r2 == r2 % 256 + 256 * (r2 / 256));
    assert(w as int / 16777216 < 256);
}

proof fn lemma_spans_before(bs: Seq<BrickMapBuilder>, a: int, b: int)
    requires
        0 <= a <= b,
    ensures
        0 <= spans_before(bs, a) <= spans_before(bs, b),
    decreases b,
{
    if a < b {
        lemma_spans_before(bs, a, b - 1);
    } else if a > 0 {
        lemma_spans_before(bs, a - 1, b - 1);
    }
}

/// Both words of every marked palette entry are in an upload piece, at the place of the volume's
/// palette.
pub proof fn lemma_marked_entries_are_uploaded(
    blobs: Seq<(usize, Vec<u8>)>,
    bs: Seq<BrickMapBuilder>,
    i: int,
    e: int,
    h: int,
)
    requires
        palette_pieces(blobs, bs),
        0 <= i < bs.len(),
        bs[i].dirty_entries() is Some,
        (bs[i].dirty_entries()->0).0 <= e <= (bs[i].dirty_entries()->0).1,
        0 <= h < 2,
    ensures
        exists|k: int|
            0 <= k < blobs.len() && #[trigger] holds_word(
                blobs[k],
                4 * (palette_base_of(bs, i) + 2 * e + h),
                bs[i].palette_words()[2 * e + h],
            ),
{
    let k = spans_before(bs, i);
    lemma_spans_before(bs, 0, i);
    lemma_spans_before(bs, i + 1, bs.len() as int);
    assert(palette_piece(blobs[k], bs, i));
    let (lo, hi) = bs[i].dirty_entries()->0;
    let w = 2 * e + h;
    let at = 4 * (palette_base_of(bs, i) + 2 * e + h);
    assert forall|j: int| 0 <= j < 4 implies covers(blobs[k], #[trigger] (at + j)) && blobs[k].1@[at
        + j - blobs[k].0] == byte_of(bs[i].palette_words()[w], j) by {
        let x = at + j - blobs[k].0;
        assert(x == 4 * (w - 2 * lo) + j);
        assert(x / 4 == w - 2 * lo && x % 4 == j);
        assert(0 <= x < blobs[k].1@.len());
        assert(blobs[k].1@[x] == byte_of(bs[i].palette_words()[2 * lo + x / 4], x % 4));
    }
    assert(holds_word(blobs[k], at, bs[i].palette_words()[w]));
}

/// A far level sets aside the words of its whole pool of chunks; other volumes set nothing aside.
pub proof fn lemma_reserve(far: bool)
    ensures
        far ==> reserve_words(far) == super::consts::FAR_POOL_CHUNKS
            * super::consts::FAR_RESERVE_WORDS_PER_CHUNK,
        !far ==> reserve_words(far) == 0,
{
}

/// A count that a machine word holds is kept, and a greater one becomes the greatest.
pub proof fn lemma_at_most_usize(n: int)
    ensures
        n <= usize::MAX ==> at_most_usize(n) == n,
        n >= usize::MAX ==> at_most_usize(n) == usize::MAX,
{
}

} // verus!
