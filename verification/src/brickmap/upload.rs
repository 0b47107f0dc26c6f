//! What goes to the graphics card: how buffers are split and grown, how much a frame may drain, and
//! what one upload writes.

use super::consts::{
    BUFFER_GROW_BIG, BUFFER_GROW_RESERVE, BUFFER_SLICE_MIN, BUFFER_SLICE_TARGET, PER_CHUNK_BYTES,
    SINGLE_THRESHOLD_BYTES, UPLOAD_BYTES_PER_FRAME, VRAM_WARN_BYTES,
};
use super::volumes::{GridDesc, VolumesSnapshot};
use super::wire::{BrickMapGlobals, CHUNK_COMP_WORDS, MARCH_MASK_WORDS, TREE_BASE};
use crate::math::{IVec3, UVec3};
use vstd::prelude::*;

verus! {

/// What the device can bind.
#[derive(Debug, Clone, Copy, PartialEq, Eq, Structural)]
pub struct BindingLimits {
    pub max_storage_buffer_binding_size: u64,
}

impl BindingLimits {
    /// One binding cannot hold a buffer: it has to be split.
    pub fn force_multi(&self) -> (r: bool)
        ensures
            r == (self.max_storage_buffer_binding_size < SINGLE_THRESHOLD_BYTES),
    {
        self.max_storage_buffer_binding_size < SINGLE_THRESHOLD_BYTES
    }
}

/// How the node buffer is bound.
#[derive(Debug, Clone, Copy, PartialEq, Eq, Structural)]
pub enum BufferLayout {
    Single,
    Multi { node_slices: usize },
}

/// Bytes of a slice: as many as can be bound, between the least and the aim.
pub open spec fn slice_bytes(limit: u64) -> u64 {
    if limit >= BUFFER_SLICE_TARGET {
        BUFFER_SLICE_TARGET
    } else if limit <= BUFFER_SLICE_MIN {
        BUFFER_SLICE_MIN
    } else {
        limit
    }
}

/// The layout for bindings of at most `limit` bytes.
pub open spec fn layout_for(limit: u64) -> BufferLayout {
    if limit >= SINGLE_THRESHOLD_BYTES {
        BufferLayout::Single
    } else {
        let n = (TREE_BASE + BUFFER_SLICE_TARGET) / (slice_bytes(limit) as int);
        BufferLayout::Multi {
            node_slices: if n >= 1 {
                n as usize
            } else {
                1
            },
        }
    }
}

impl BufferLayout {
    pub fn from_limits(limits: &BindingLimits) -> (r: Self)
        ensures
            r == layout_for(limits.max_storage_buffer_binding_size),
            r == (if limits.max_storage_buffer_binding_size >= SINGLE_THRESHOLD_BYTES {
                BufferLayout::Single
            } else {
                let n = (TREE_BASE + BUFFER_SLICE_TARGET) / (slice_bytes(
                    limits.max_storage_buffer_binding_size,
                ) as int);
                BufferLayout::Multi {
                    node_slices: if n >= 1 {
                        n as usize
                    } else {
                        1
                    },
                }
            }),
    {
        if !limits.force_multi() {
            return BufferLayout::Single;
        }
        let limit: u64 = limits.max_storage_buffer_binding_size;
        let capped: u64 = if limit < BUFFER_SLICE_TARGET { limit } else { BUFFER_SLICE_TARGET };
        let left: u64 = if capped > BUFFER_SLICE_MIN { capped } else { BUFFER_SLICE_MIN };
        let n: u64 = (TREE_BASE as u64 + BUFFER_SLICE_TARGET) / left;
        assert(n <= TREE_BASE + BUFFER_SLICE_TARGET) by (nonlinear_arith)
            requires
                n == (TREE_BASE + BUFFER_SLICE_TARGET) / (left as int),
                left >= 1,
        ;
        let slices: usize = n as usize;
        BufferLayout::Multi { node_slices: if slices > 1 { slices } else { 1 } }
    }
}

/// How much a frame may upload.
#[derive(Debug, Clone, Copy, PartialEq, Eq, Structural)]
pub struct UploadBudget {
    pub max_bytes_per_frame: usize,
    /// Upload changes only; otherwise everything, every time.
    pub incremental: bool,
}

impl Default for UploadBudget {
    fn default() -> (r: Self)
        ensures
            r.max_bytes_per_frame == UPLOAD_BYTES_PER_FRAME,
            r.incremental,
    {
        UploadBudget { max_bytes_per_frame: UPLOAD_BYTES_PER_FRAME, incremental: true }
    }
}

/// Chunks that a budget pays for: at least 1, at most 64.
pub open spec fn chunk_budget(bytes: usize) -> int {
    let n = bytes as int / PER_CHUNK_BYTES as int;
    if n < 1 {
        1
    } else if n > 64 {
        64
    } else {
        n
    }
}

/// Waiting items of the first `n` volumes.
pub open spec fn backlog_of(counts: Seq<usize>, n: nat) -> int
    decreases n,
{
    if n == 0 {
        0
    } else {
        backlog_of(counts, (n - 1) as nat) + counts[n - 1]
    }
}

/// `n`, or the largest machine integer.
pub open spec fn clamped(n: int) -> int {
    super::volumes::at_most_usize(n)
}

fn total_backlog(counts: &Vec<usize>) -> (r: usize)
    ensures
        r == clamped(backlog_of(counts@, counts@.len())),
{
    let mut r: usize = 0;
    let mut i: usize = 0;
    while i < counts.len()
        invariant
            i <= counts.len(),
            r == clamped(backlog_of(counts@, i as nat)),
        decreases counts.len() - i,
    {
        r = r.saturating_add(counts[i]);
        i += 1;
    }
    r
}

/// How many data chunks and component chunks each volume may drain in this frame.
///
/// A backlog of more than three frames' worth is drained at once.
pub fn drain_counts(budget: &UploadBudget, data: &Vec<usize>, comp: &Vec<usize>) -> (r: (usize, usize))
    ensures
        ({
            let n = chunk_budget(budget.max_bytes_per_frame);
            let d = clamped(backlog_of(data@, data@.len()));
            let c = clamped(backlog_of(comp@, comp@.len()));
            if d > 3 * n {
                r.0 == d && r.1 == (if c > n {
                    c
                } else {
                    n
                })
            } else {
                r.0 == n && r.1 == (if c < 1 {
                    1
                } else if c < n {
                    c
                } else {
                    n
                })
            }
        }),
{
    let n0: usize = budget.max_bytes_per_frame / PER_CHUNK_BYTES;
    let n: usize = if n0 < 1 {
        1
    } else if n0 > 64 {
        64
    } else {
        n0
    };
    let d: usize = total_backlog(data);
    let c: usize = total_backlog(comp);
    if d > n * 3 {
        (d, if c > n { c } else { n })
    } else {
        let least: usize = if c > 1 { c } else { 1 };
        (n, if n < least { n } else { least })
    }
}

/// A box of voxels, closed below and open above.
#[derive(Debug, Clone, Copy, PartialEq, Eq, Structural)]
pub struct DirtyBox {
    pub lo: IVec3,
    pub hi: IVec3,
}

/// Every component of `a` is at most that of `b`.
pub open spec fn at_most(a: IVec3, b: IVec3) -> bool {
    a.x <= b.x && a.y <= b.y && a.z <= b.z
}

fn not_above(a: &IVec3, b: &IVec3) -> (r: bool)
    ensures
        r == at_most(*a, *b),
{
    a.x <= b.x && a.y <= b.y && a.z <= b.z
}

impl DirtyBox {
    /// `p` lies in the box.
    pub open spec fn holds(self, p: (int, int, int)) -> bool {
        self.lo.x <= p.0 < self.hi.x && self.lo.y <= p.1 < self.hi.y && self.lo.z <= p.2 < self.hi.z
    }

    /// The smallest box around both.
    pub open spec fn joined(self, o: DirtyBox) -> DirtyBox {
        DirtyBox { lo: self.lo.min_of(o.lo), hi: self.hi.max_of(o.hi) }
    }

    /// The boxes meet; boxes that only touch count.
    pub open spec fn meets(self, o: DirtyBox) -> bool {
        at_most(self.lo, o.hi) && at_most(o.lo, self.hi)
    }

    /// The boxes meet; boxes that only touch count.
    pub fn overlaps(&self, other: &Self) -> (r: bool)
        ensures
            r == self.meets(*other),
            r == (at_most(self.lo, other.hi) && at_most(other.lo, self.hi)),
    {
        not_above(&self.lo, &other.hi) && not_above(&other.lo, &self.hi)
    }

    /// Takes another box in.
    pub fn union_with(&mut self, other: &Self)
        ensures
            *final(self) == old(self).joined(*other),
    {
        self.lo = self.lo.min(other.lo);
        self.hi = self.hi.max(other.hi);
    }

    /// A joined box holds every voxel of both, and boxes that share a voxel overlap.
    pub proof fn lemma_joined_covers(self, o: DirtyBox, p: (int, int, int))
        ensures
            self.holds(p) || o.holds(p) ==> self.joined(o).holds(p),
            self.holds(p) && o.holds(p) ==> at_most(self.lo, o.hi) && at_most(o.lo, self.hi),
    {
    }
}

/// A request for a dump: it lives for two frames, so that the frame that takes it over sees it.
#[derive(Debug, Clone, Copy, PartialEq, Eq, Structural)]
pub struct VoxelDumpRequest {
    /// Frames left; 0 is none.
    pub pending: u8,
}

/// Frames that a request lives for.
pub const ARMED_FRAMES: u8 = 2;

impl Default for VoxelDumpRequest {
    fn default() -> (r: Self)
        ensures
            r.pending == 0,
    {
        VoxelDumpRequest { pending: 0 }
    }
}

impl VoxelDumpRequest {
    /// Asks for one dump.
    pub fn arm(&mut self)
        ensures
            final(self).pending == ARMED_FRAMES,
    {
        self.pending = ARMED_FRAMES;
    }

    /// A frame has passed.
    pub fn tick(&mut self)
        ensures
            final(self).pending == (if old(self).pending == 0 {
                0
            } else {
                old(self).pending - 1
            }),
    {
        self.pending = self.pending.saturating_sub(1);
    }
}

/// Bytes of a buffer that has `cap` bytes and needs `need`: large ones grow to a multiple of the
/// reserve, small ones double.
pub open spec fn grown_bytes(cap: int, need: int) -> int {
    if need >= BUFFER_GROW_BIG {
        (need + BUFFER_GROW_RESERVE - 1) / (BUFFER_GROW_RESERVE as int) * BUFFER_GROW_RESERVE
    } else if need >= 2 * cap && need >= 65536 {
        need
    } else if 2 * cap >= 65536 {
        2 * cap
    } else {
        65536
    }
}

/// Bytes of a buffer that has to grow.
pub fn grow_size(cap: u64, need: u64) -> (r: u64)
    requires
        2 * cap <= u64::MAX,
        need + BUFFER_GROW_RESERVE <= u64::MAX,
    ensures
        r == grown_bytes(cap as int, need as int),
        r >= need,
{
    if need >= BUFFER_GROW_BIG {
        let q: u64 = (need + (BUFFER_GROW_RESERVE - 1)) / BUFFER_GROW_RESERVE;
        q * BUFFER_GROW_RESERVE
    } else {
        let twice: u64 = cap * 2;
        let m: u64 = if need > twice { need } else { twice };
        if m > 65536 {
            m
        } else {
            65536
        }
    }
}

/// How a buffer comes to hold what it has to.
#[derive(Debug, Clone, Copy, PartialEq, Eq, Structural)]
pub enum Growth {
    /// It is large enough.
    Keep,
    /// A new buffer of `size` bytes takes the first `copied` bytes over; what is written starts at
    /// byte `written_from`.
    Replace { size: u64, copied: u64, written_from: u64 },
}

/// How a buffer of `cap` bytes comes to hold `need`.
pub open spec fn growth_of(cap: u64, need: u64, prefix_valid: bool) -> Growth {
    let kept: u64 = if prefix_valid {
        cap
    } else {
        0
    };
    if cap >= need {
        Growth::Keep
    } else {
        Growth::Replace {
            size: grown_bytes(cap as int, need as int) as u64,
            copied: kept,
            written_from: kept,
        }
    }
}

/// How to make room for `need` bytes. What the old buffer holds is copied where `prefix_valid`.
pub fn plan_growth(cap: u64, need: u64, prefix_valid: bool) -> (r: Growth)
    requires
        2 * cap <= u64::MAX,
        need + BUFFER_GROW_RESERVE <= u64::MAX,
    ensures
        r == growth_of(cap, need, prefix_valid),
        r == (if cap >= need {
            Growth::Keep
        } else {
            let kept: u64 = if prefix_valid {
                cap
            } else {
                0
            };
            Growth::Replace {
                size: grown_bytes(cap as int, need as int) as u64,
                copied: kept,
                written_from: kept,
            }
        }),
{
    if cap >= need {
        return Growth::Keep;
    }
    let kept: u64 = if prefix_valid { cap } else { 0 };
    Growth::Replace { size: grow_size(cap, need), copied: kept, written_from: kept }
}


/// What one upload writes.
#[derive(Debug, Clone, Copy)]
pub struct UploadPlan {
    /// Whole buffers are written; otherwise pieces.
    pub is_full: bool,
    /// The reach table has not been written yet.
    pub write_lut: bool,
    /// Bytes of the component buffer.
    pub comp_bytes: usize,
    pub struct_tx_bytes: usize,
    pub palette_tx_bytes: usize,
    pub grid_descs_tx_bytes: usize,
    pub globals: BrickMapGlobals,
    pub grid_count: u32,
    pub window_origin: IVec3,
    pub window_dims: UVec3,
    /// Chunks that the upload speaks of.
    pub chunks_show: usize,
}

/// Bytes of a grid descriptor in its buffer.
pub const GRID_DESC_BYTES: usize = 144;

/// Bytes of the first `n` pieces.
pub open spec fn piece_bytes(blobs: Seq<(usize, Vec<u8>)>, n: nat) -> int
    decreases n,
{
    if n == 0 {
        0
    } else {
        piece_bytes(blobs, (n - 1) as nat) + blobs[n - 1].1.len()
    }
}

/// Chunks of the first `n` volumes.
pub open spec fn chunks_of(descs: Seq<GridDesc>, n: nat) -> int
    decreases n,
{
    if n == 0 {
        0
    } else {
        chunks_of(descs, (n - 1) as nat) + descs[n - 1].chunk_count
    }
}

fn sum_pieces(blobs: &Vec<(usize, Vec<u8>)>) -> (r: usize)
    ensures
        r == clamped(piece_bytes(blobs@, blobs@.len())),
{
    let mut r: usize = 0;
    let mut i: usize = 0;
    while i < blobs.len()
        invariant
            i <= blobs.len(),
            r == clamped(piece_bytes(blobs@, i as nat)),
        decreases blobs.len() - i,
    {
        r = r.saturating_add(blobs[i].1.len());
        i += 1;
    }
    r
}

fn sum_chunks(descs: &Vec<GridDesc>) -> (r: usize)
    ensures
        r == clamped(chunks_of(descs@, descs@.len())),
{
    let mut r: usize = 0;
    let mut i: usize = 0;
    while i < descs.len()
        invariant
            i <= descs.len(),
            r == clamped(chunks_of(descs@, i as nat)),
        decreases descs.len() - i,
    {
        r = r.saturating_add(descs[i].chunk_count as usize);
        i += 1;
    }
    r
}

/// What the shaders read of the main world's descriptor.
pub open spec fn upload_globals(d: GridDesc, grids: u32) -> BrickMapGlobals {
    BrickMapGlobals {
        index_origin_x: d.index_origin_x,
        index_origin_y: d.index_origin_y,
        index_origin_z: d.index_origin_z,
        index_origin_w: 0,
        index_dims_x: d.index_dims_x,
        index_dims_y: d.index_dims_y,
        index_dims_z: d.index_dims_z,
        index_dims_w: 0,
        tile_count: d.chunk_count,
        node_words: 0,
        node_free_words: 0,
        brick_slabs: 0,
        brick_free: 0,
        rejected_tiles: 0,
        grid_count: grids,
        _pad1: 0,
        _pad2: 0,
        _pad3: 0,
        _pad4: 0,
    }
}

/// A descriptor with nothing in it.
pub open spec fn no_desc() -> GridDesc {
    GridDesc {
        tree_base: 0,
        tree_depth: 0,
        chunk_count: 0,
        palette_base: 0,
        index_origin_x: 0,
        index_origin_y: 0,
        index_origin_z: 0,
        index_dims_x: 0,
        index_dims_y: 0,
        index_dims_z: 0,
        grid_flags: 0,
    }
}

/// The main world's descriptor.
pub open spec fn main_desc(descs: Seq<GridDesc>) -> GridDesc {
    if descs.len() == 0 {
        no_desc()
    } else {
        descs[0]
    }
}

fn first_desc(descs: &Vec<GridDesc>) -> (r: GridDesc)
    ensures
        r == main_desc(descs@),
{
    if descs.len() > 0 {
        descs[0]
    } else {
        GridDesc {
            tree_base: 0,
            tree_depth: 0,
            chunk_count: 0,
            palette_base: 0,
            index_origin_x: 0,
            index_origin_y: 0,
            index_origin_z: 0,
            index_dims_x: 0,
            index_dims_y: 0,
            index_dims_z: 0,
            grid_flags: 0,
        }
    }
}

/// The bytes that the plan counts, and the chunks that it names.
pub open spec fn plan_weighs(plan: UploadPlan, snap: VolumesSnapshot) -> bool {
    &&& plan.is_full == snap.full
    &&& snap.full ==> plan.struct_tx_bytes == 4 * snap.b_struct.len() && plan.palette_tx_bytes == 4
        * snap.b_palette.len() && plan.grid_descs_tx_bytes == snap.grid_descs.len() * GRID_DESC_BYTES
        && plan.chunks_show == clamped(chunks_of(snap.grid_descs@, snap.grid_descs@.len()))
    &&& !snap.full ==> plan.struct_tx_bytes == clamped(
        piece_bytes(snap.struct_blobs@, snap.struct_blobs@.len()),
    ) && plan.palette_tx_bytes == clamped(
        piece_bytes(snap.palette_blobs@, snap.palette_blobs@.len()),
    ) && plan.grid_descs_tx_bytes == 0 && plan.chunks_show == snap.dirty_chunks
}

/// The plan speaks of the first of these volumes, the main world, and counts them all.
pub open spec fn plan_shows(plan: UploadPlan, descs: Seq<GridDesc>) -> bool {
    let d = main_desc(descs);
    &&& plan.grid_count == descs.len()
    &&& plan.globals == upload_globals(d, plan.grid_count)
    &&& plan.window_origin == (IVec3 {
        x: d.index_origin_x,
        y: d.index_origin_y,
        z: d.index_origin_z,
    })
    &&& plan.window_dims == (UVec3 { x: d.index_dims_x, y: d.index_dims_y, z: d.index_dims_z })
}

/// What an upload of `snap` writes, when the world has `comp_chunks` chunks with components and the
/// table buffer has `leaves_size` bytes.
pub fn plan_upload(snap: &VolumesSnapshot, comp_chunks: usize, leaves_size: u64) -> (r: UploadPlan)
    requires
        snap.grid_descs.len() <= u32::MAX,
        snap.grid_descs.len() * GRID_DESC_BYTES <= usize::MAX,
        snap.b_struct.len() * 4 <= usize::MAX,
        snap.b_palette.len() * 4 <= usize::MAX,
        comp_chunks * CHUNK_COMP_WORDS * 4 <= usize::MAX,
    ensures
        plan_shows(r, snap.grid_descs@),
        plan_weighs(r, *snap),
        r.is_full == snap.full,
        r.write_lut == (leaves_size < 4 * MARCH_MASK_WORDS),
        r.comp_bytes == (if comp_chunks == 0 {
            4
        } else {
            comp_chunks * CHUNK_COMP_WORDS * 4
        }),
        r.struct_tx_bytes == (if snap.full {
            4 * snap.b_struct.len()
        } else {
            clamped(piece_bytes(snap.struct_blobs@, snap.struct_blobs@.len()))
        }),
        r.palette_tx_bytes == (if snap.full {
            4 * snap.b_palette.len()
        } else {
            clamped(piece_bytes(snap.palette_blobs@, snap.palette_blobs@.len()))
        }),
        r.grid_descs_tx_bytes == (if snap.full {
            snap.grid_descs.len() * GRID_DESC_BYTES
        } else {
            0
        }),
        r.grid_count == snap.grid_descs.len(),
        r.globals == upload_globals(main_desc(snap.grid_descs@), r.grid_count),
        r.window_origin == (IVec3 {
            x: main_desc(snap.grid_descs@).index_origin_x,
            y: main_desc(snap.grid_descs@).index_origin_y,
            z: main_desc(snap.grid_descs@).index_origin_z,
        }),
        r.window_dims == (UVec3 {
            x: main_desc(snap.grid_descs@).index_dims_x,
            y: main_desc(snap.grid_descs@).index_dims_y,
            z: main_desc(snap.grid_descs@).index_dims_z,
        }),
        r.chunks_show == (if snap.full {
            clamped(chunks_of(snap.grid_descs@, snap.grid_descs@.len()))
        } else {
            snap.dirty_chunks as int
        }),
{
    let d: GridDesc = first_desc(&snap.grid_descs);
    let grid_count: u32 = snap.grid_descs.len() as u32;
    assert(comp_chunks >= 1 ==> comp_chunks * CHUNK_COMP_WORDS * 4 >= 4);
    let comp: usize = comp_chunks * CHUNK_COMP_WORDS * 4;
    let (struct_tx_bytes, palette_tx_bytes, grid_descs_tx_bytes, chunks_show): (
        usize,
        usize,
        usize,
        usize,
    ) = if snap.full {
        (
            snap.b_struct.len() * 4,
            snap.b_palette.len() * 4,
            snap.grid_descs.len() * GRID_DESC_BYTES,
            sum_chunks(&snap.grid_descs),
        )
    } else {
        (sum_pieces(&snap.struct_blobs), sum_pieces(&snap.palette_blobs), 0, snap.dirty_chunks)
    };
    UploadPlan {
        is_full: snap.full,
        write_lut: leaves_size < (MARCH_MASK_WORDS * 4) as u64,
        comp_bytes: if comp > 4 { comp } else { 4 },
        struct_tx_bytes,
        palette_tx_bytes,
        grid_descs_tx_bytes,
        globals: BrickMapGlobals {
            index_origin_x: d.index_origin_x,
            index_origin_y: d.index_origin_y,
            index_origin_z: d.index_origin_z,
            index_origin_w: 0,
            index_dims_x: d.index_dims_x,
            index_dims_y: d.index_dims_y,
            index_dims_z: d.index_dims_z,
            index_dims_w: 0,
            tile_count: d.chunk_count,
            node_words: 0,
            node_free_words: 0,
            brick_slabs: 0,
            brick_free: 0,
            rejected_tiles: 0,
            grid_count,
            _pad1: 0,
            _pad2: 0,
            _pad3: 0,
            _pad4: 0,
        },
        grid_count,
        window_origin: IVec3::new(d.index_origin_x, d.index_origin_y, d.index_origin_z),
        window_dims: UVec3 { x: d.index_dims_x, y: d.index_dims_y, z: d.index_dims_z },
        chunks_show,
    }
}

/// Number of the world's revision after an upload.
pub fn next_revision(revision: u64) -> (r: u64)
    ensures
        r == (if revision == u64::MAX {
            0
        } else {
            revision + 1
        }),
{
    revision.wrapping_add(1)
}

/// The buffers' bytes come to more than the warning line.
pub fn vram_warning(sizes: &Vec<u64>) -> (r: bool)
    ensures
        r == (total_size(sizes@, sizes@.len()) > VRAM_WARN_BYTES),
{
    let mut sum: u64 = 0;
    let mut i: usize = 0;
    while i < sizes.len()
        invariant
            i <= sizes.len(),
            sum == (if total_size(sizes@, i as nat) <= u64::MAX {
                total_size(sizes@, i as nat)
            } else {
                u64::MAX as int
            }),
        decreases sizes.len() - i,
    {
        sum = sum.saturating_add(sizes[i]);
        i += 1;
    }
    sum > VRAM_WARN_BYTES
}

/// Bytes of the first `n` buffers.
pub open spec fn total_size(sizes: Seq<u64>, n: nat) -> int
    decreases n,
{
    if n == 0 {
        0
    } else {
        total_size(sizes, (n - 1) as nat) + sizes[n - 1]
    }
}
/// Boxes meet when some point lies in or on the edge of both, on all three axes.
pub proof fn lemma_boxes_meet(a: DirtyBox, b: DirtyBox)
    requires
        a.lo.x <= a.hi.x && a.lo.y <= a.hi.y && a.lo.z <= a.hi.z,
        b.lo.x <= b.hi.x && b.lo.y <= b.hi.y && b.lo.z <= b.hi.z,
    ensures
        a.meets(b) <==> exists|p: IVec3|
            a.lo.x <= p.x <= a.hi.x && b.lo.x <= p.x <= b.hi.x && a.lo.y <= p.y <= a.hi.y && b.lo.y
                <= p.y <= b.hi.y && a.lo.z <= (#[trigger] p.z) <= a.hi.z && b.lo.z <= p.z <= b.hi.z,
{
    if at_most(a.lo, b.hi) && at_most(b.lo, a.hi) {
        let p = a.lo.max_of(b.lo);
        assert(a.lo.x <= p.x <= a.hi.x && b.lo.x <= p.x <= b.hi.x && a.lo.z <= p.z <= a.hi.z);
    }
}

/// The joined box starts at the lower of the two starts and ends at the higher of the two ends, on
/// each axis.
pub proof fn lemma_joined_is_smallest(a: DirtyBox, b: DirtyBox, lo: IVec3, hi: IVec3)
    ensures
        ({
            let j = a.joined(b);
            &&& j.lo.x <= a.lo.x && j.lo.y <= a.lo.y && j.lo.z <= a.lo.z
            &&& j.lo.x <= b.lo.x && j.lo.y <= b.lo.y && j.lo.z <= b.lo.z
            &&& j.hi.x >= a.hi.x && j.hi.y >= a.hi.y && j.hi.z >= a.hi.z
            &&& j.hi.x >= b.hi.x && j.hi.y >= b.hi.y && j.hi.z >= b.hi.z
            &&& lo.x <= a.lo.x && lo.x <= b.lo.x ==> lo.x <= j.lo.x
            &&& lo.y <= a.lo.y && lo.y <= b.lo.y ==> lo.y <= j.lo.y
            &&& lo.z <= a.lo.z && lo.z <= b.lo.z ==> lo.z <= j.lo.z
            &&& hi.x >= a.hi.x && hi.x >= b.hi.x ==> hi.x >= j.hi.x
            &&& hi.y >= a.hi.y && hi.y >= b.hi.y ==> hi.y >= j.hi.y
            &&& hi.z >= a.hi.z && hi.z >= b.hi.z ==> hi.z >= j.hi.z
        }),
{
}

/// A slice is as large as one binding may be, within its bounds.
pub proof fn lemma_slice_bytes(limit: u64)
    ensures
        BUFFER_SLICE_MIN <= slice_bytes(limit) <= BUFFER_SLICE_TARGET,
        BUFFER_SLICE_MIN <= limit <= BUFFER_SLICE_TARGET ==> slice_bytes(limit) == limit,
        limit > BUFFER_SLICE_MIN ==> slice_bytes(limit) <= limit,
        limit < BUFFER_SLICE_TARGET ==> slice_bytes(limit) >= limit,
{
}

/// The chunks of a frame fit its bytes, unless that is less than one; another one would not fit, unless
/// the limit of 64 is reached.
pub proof fn lemma_chunk_budget(bytes: usize)
    ensures
        1 <= chunk_budget(bytes) <= 64,
        chunk_budget(bytes) > 1 ==> chunk_budget(bytes) * PER_CHUNK_BYTES <= bytes,
        chunk_budget(bytes) < 64 ==> bytes < (chunk_budget(bytes) + 1) * PER_CHUNK_BYTES,
{
}

/// A grown buffer holds what is needed and at least doubles, unless it is a big one: those have whole
/// steps, one less of which would not do. No buffer is smaller than 64 KiB.
pub proof fn lemma_grown_bytes(cap: int, need: int)
    requires
        0 <= cap,
        0 <= need,
    ensures
        ({
            let r = grown_bytes(cap, need);
            let step = BUFFER_GROW_RESERVE as int;
            &&& r >= need
            &&& r >= 65536
            &&& need < BUFFER_GROW_BIG ==> r >= 2 * cap
            &&& need < BUFFER_GROW_BIG ==> r == need || r == 2 * cap || r == 65536
            &&& need >= BUFFER_GROW_BIG ==> r % step == 0 && r - step < need
        }),
{
}

/// Every count adds to the backlog, and nothing else does.
pub proof fn lemma_backlog(counts: Seq<usize>, more: usize, n: nat)
    requires
        n <= counts.len(),
    ensures
        backlog_of(counts, 0) == 0,
        backlog_of(counts.push(more), n) == backlog_of(counts, n),
        n == counts.len() ==> backlog_of(counts.push(more), n + 1) == backlog_of(counts, n) + more,
    decreases n,
{
    if n > 0 {
        lemma_backlog(counts, more, (n - 1) as nat);
        assert(counts.push(more)[n - 1] == counts[n - 1]);
    }
    if n == counts.len() {
        assert(counts.push(more)[n as int] == more);
        assert(backlog_of(counts.push(more), n + 1) == backlog_of(counts.push(more), ((n + 1) - 1) as nat) + more);
    }
}

/// Every piece adds its bytes, and nothing else does.
pub proof fn lemma_piece_bytes(blobs: Seq<(usize, Vec<u8>)>, more: (usize, Vec<u8>), n: nat)
    requires
        n <= blobs.len(),
    ensures
        piece_bytes(blobs, 0) == 0,
        piece_bytes(blobs.push(more), n) == piece_bytes(blobs, n),
        n == blobs.len() ==> piece_bytes(blobs.push(more), n + 1) == piece_bytes(blobs, n)
            + more.1@.len(),
    decreases n,
{
    if n > 0 {
        lemma_piece_bytes(blobs, more, (n - 1) as nat);
        assert(blobs.push(more)[n - 1] == blobs[n - 1]);
    }
    if n == blobs.len() {
        assert(blobs.push(more)[n as int] == more);
        assert(piece_bytes(blobs.push(more), n + 1) == piece_bytes(blobs.push(more), ((n + 1) - 1) as nat) + more.1@.len());
    }
}

/// Every volume adds its chunks, and nothing else does.
pub proof fn lemma_chunks_of(descs: Seq<GridDesc>, more: GridDesc, n: nat)
    requires
        n <= descs.len(),
    ensures
        chunks_of(descs, 0) == 0,
        chunks_of(descs.push(more), n) == chunks_of(descs, n),
        n == descs.len() ==> chunks_of(descs.push(more), n + 1) == chunks_of(descs, n)
            + more.chunk_count,
    decreases n,
{
    if n > 0 {
        lemma_chunks_of(descs, more, (n - 1) as nat);
        assert(descs.push(more)[n - 1] == descs[n - 1]);
    }
    if n == descs.len() {
        assert(descs.push(more)[n as int] == more);
        assert(chunks_of(descs.push(more), n + 1) == chunks_of(descs.push(more), ((n + 1) - 1) as nat) + more.chunk_count);
    }
}

/// Every buffer adds its size, and nothing else does.
pub proof fn lemma_total_size(sizes: Seq<u64>, more: u64, n: nat)
    requires
        n <= sizes.len(),
    ensures
        total_size(sizes, 0) == 0,
        total_size(sizes.push(more), n) == total_size(sizes, n),
        n == sizes.len() ==> total_size(sizes.push(more), n + 1) == total_size(sizes, n) + more,
    decreases n,
{
    if n > 0 {
        lemma_total_size(sizes, more, (n - 1) as nat);
        assert(sizes.push(more)[n - 1] == sizes[n - 1]);
    }
    if n == sizes.len() {
        assert(sizes.push(more)[n as int] == more);
        assert(total_size(sizes.push(more), n + 1) == total_size(sizes.push(more), ((n + 1) - 1) as nat) + more);
    }
}

/// Small bindings make as many slices as fit the tree region's target once over, and one at least.
pub proof fn lemma_layout(limit: u64)
    ensures
        limit >= SINGLE_THRESHOLD_BYTES <==> layout_for(limit) is Single,
        layout_for(limit) matches BufferLayout::Multi { node_slices } ==> {
            let (all, s) = (TREE_BASE + BUFFER_SLICE_TARGET, slice_bytes(limit) as int);
            node_slices >= 1 && node_slices * s <= all < (node_slices + 1) * s
        },
{
    lemma_slice_bytes(limit);
    let (all, s) = (TREE_BASE + BUFFER_SLICE_TARGET, slice_bytes(limit) as int);
    let n = all / s;
    assert(n * s <= all < (n + 1) * s && 1 <= n <= all) by (nonlinear_arith)
        requires
            n == all / s,
            0 < s <= all,
    ;
}

/// A buffer that is large enough stays; another one is replaced by one that is, and what is kept of the
/// old one is the part that is not written again.
pub proof fn lemma_growth(cap: u64, need: u64, prefix_valid: bool)
    requires
        2 * cap <= u64::MAX,
        need + BUFFER_GROW_RESERVE <= u64::MAX,
    ensures
        growth_of(cap, need, prefix_valid) is Keep <==> cap >= need,
        growth_of(cap, need, prefix_valid) matches Growth::Replace { size, copied, written_from } ==> {
            &&& size >= need && size > cap
            &&& copied == written_from
            &&& prefix_valid ==> copied == cap
            &&& !prefix_valid ==> copied == 0
        },
{
    lemma_grown_bytes(cap as int, need as int);
}

} // verus!
