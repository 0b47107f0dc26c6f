//! What one frame does: when tables are built anew, when probes are baked, and which passes run.

use super::frame::{
    build_cell_slot, build_lod0_table, is_cell_slot, is_layout, is_lod0_table, layout_fits,
    layout_slots, lod0_state_words, DdgiStage, DdgiWorldAabb, STAGE_ACTIVE, STAGE_CAST,
};
use super::grid::{
    box_fits, cell_edge, cells_before, is_level, DdgiWorldGrid, DDGI_LOD0_CLAIM_WORDS,
    DDGI_LOD0_STATE_CLAIM,
};
use super::pool::{axis_fits, in_use, DdgiChunkGeom, DdgiChunkPool, PoolModel, DDGI_CHUNK_SLOTS};
use crate::math::{div_ceil, IVec3};
use vstd::prelude::*;

verus! {

/// What the finest level's tables were built for.
#[derive(Debug, Clone, Copy, PartialEq, Eq, Structural)]
pub struct Lod0Key {
    pub geom: DdgiChunkGeom,
    pub num_chunks: u32,
    pub slots: u32,
    pub serial: u64,
}

/// What the chunk level's table was built for.
#[derive(Debug, Clone, Copy, PartialEq, Eq, Structural)]
pub struct CellSlotKey {
    pub geom: DdgiChunkGeom,
    pub total: u32,
    pub num_chunks: u32,
    pub chunk_slots: u32,
    pub serial: u64,
}

/// What is kept from frame to frame.
#[derive(Debug)]
pub struct DdgiState {
    pub pool: DdgiChunkPool,
    /// Chunks that the pool was last brought in line with.
    pub last_chunks: Vec<IVec3>,
    pub lod0_key: Option<Lod0Key>,
    pub cell_slot_key: Option<CellSlotKey>,
    pub grid: DdgiWorldGrid,
    pub total_slots: u32,
    /// The world's revision at the last frame that ran.
    pub last_revision: u64,
    /// A bake was asked for and has not run yet.
    pub bake_pending: bool,
    pub frame: u32,
    /// The atlas that is sampled: 0 or 1. The other one is written.
    pub parity: usize,
}

/// The voxels that an upload changed.
#[derive(Debug, Clone, Copy, PartialEq, Eq, Structural)]
pub struct DdgiDirty {
    pub full: bool,
    pub min_voxel: IVec3,
    pub max_voxel: IVec3,
}

/// What a frame starts from.
#[derive(Debug)]
pub struct DdgiInput {
    pub world: DdgiWorldAabb,
    /// Chunks that need probes.
    pub chunks: Vec<IVec3>,
    /// Voxels by which the levels reach past the world's box.
    pub margin: i32,
    /// Slots of the atlas.
    pub capacity: u32,
    pub revision: u64,
    /// A pass will run.
    pub will_run: bool,
    pub dirty: Option<DdgiDirty>,
}

/// Cells to bake again.
#[derive(Debug, Clone, Copy, PartialEq, Eq, Structural)]
pub struct DirtyRegion {
    pub min: IVec3,
    pub max: IVec3,
    pub valid: bool,
}

/// What a frame needs.
#[derive(Debug)]
pub struct DdgiFrame {
    pub need_bake: bool,
    /// The chunk level's table, where it has to be written anew.
    pub cell_slot: Option<Vec<u32>>,
    /// The finest level's table, where it has to be written anew. All claims end with it.
    pub lod0: Option<Vec<u32>>,
    /// Words of the finest level's claim state.
    pub lod0_state_words: u64,
    pub geom: DdgiChunkGeom,
    pub grid: DdgiWorldGrid,
    pub dirty: DirtyRegion,
}

/// The region that an upload makes invalid.
pub open spec fn region_of(dirty: Option<DdgiDirty>) -> DirtyRegion {
    match dirty {
        Some(d) => if d.full {
            DirtyRegion {
                min: IVec3 { x: (-1000000000) as i32, y: (-1000000000) as i32, z: (-1000000000) as i32 },
                max: IVec3 { x: 1000000000, y: 1000000000, z: 1000000000 },
                valid: true,
            }
        } else if d.min_voxel != d.max_voxel {
            DirtyRegion { min: d.min_voxel, max: d.max_voxel, valid: true }
        } else {
            no_region()
        },
        None => no_region(),
    }
}

pub open spec fn no_region() -> DirtyRegion {
    DirtyRegion {
        min: IVec3 { x: 0, y: 0, z: 0 },
        max: IVec3 { x: 0, y: 0, z: 0 },
        valid: false,
    }
}

fn dirty_region(dirty: Option<DdgiDirty>) -> (r: DirtyRegion)
    ensures
        r == region_of(dirty),
{
    if let Some(d) = dirty {
        if d.full {
            return DirtyRegion {
                min: IVec3::splat(-1000000000),
                max: IVec3::splat(1000000000),
                valid: true,
            };
        }
        if d.min_voxel != d.max_voxel {
            return DirtyRegion { min: d.min_voxel, max: d.max_voxel, valid: true };
        }
    }
    DirtyRegion { min: IVec3::splat(0), max: IVec3::splat(0), valid: false }
}

fn same_list(a: &Vec<IVec3>, b: &Vec<IVec3>) -> (r: bool)
    ensures
        r == (a@ == b@),
{
    if a.len() != b.len() {
        return false;
    }
    let mut i: usize = 0;
    while i < a.len()
        invariant
            i <= a.len(),
            a.len() == b.len(),
            forall|j: int| 0 <= j < i ==> #[trigger] a@[j] == b@[j],
        decreases a.len() - i,
    {
        if a[i] != b[i] {
            return false;
        }
        i += 1;
    }
    proof {
        assert(a@ =~= b@);
    }
    true
}

/// The levels around the world's box, before their slots are laid out.
pub open spec fn is_base(g: DdgiWorldGrid, input: DdgiInput) -> bool {
    forall|lod: int|
        0 <= lod < 5 ==> is_level(
            #[trigger] g.lod_origins[lod],
            g.lod_dims[lod],
            input.world.min,
            input.world.max,
            input.margin as int,
            cell_edge(lod),
        )
}

impl DdgiInput {
    /// Boxes and counts fit their integers.
    pub open spec fn fits(&self) -> bool {
        let (lo, hi) = (self.world.min, self.world.max);
        &&& axis_fits(lo.x as int, hi.x as int)
        &&& axis_fits(lo.y as int, hi.y as int)
        &&& axis_fits(lo.z as int, hi.z as int)
        &&& self.margin >= 0
        &&& box_fits(lo, hi, self.margin as int)
        &&& cells_before(lo, hi, self.margin as int, 5) <= u32::MAX
    }
}

/// Whether a frame needs a bake, and whether one is still due after it.
pub open spec fn bake_step(o: DdgiState, n: DdgiState, input: DdgiInput, r: DdgiFrame) -> bool {
    let runs = input.will_run && r.grid.total_slots > 0;
    let stale = input.revision != o.last_revision || !r.grid.same_as(&o.grid) || n.pool.serial
        != o.pool.serial || r.lod0 is Some;
    &&& r.need_bake == (runs && (o.bake_pending || stale))
    &&& n.bake_pending == (r.need_bake || (o.bake_pending && !runs))
    &&& input.will_run ==> n.last_revision == input.revision && n.grid == r.grid && n.total_slots
        == r.grid.total_slots
    &&& !input.will_run ==> n.last_revision == o.last_revision && n.grid == o.grid && n.total_slots
        == o.total_slots
}

impl DdgiState {
    pub open spec fn wf(&self) -> bool {
        &&& self.pool.wf()
        &&& self.pool.bases.len() == self.pool.geom.count() || self.pool.geom.dims.x == 1
        &&& self.parity < 2
        // tables that are there show the pool as it is
        &&& self.lod0_key is Some ==> self.lod0_key->0.serial == self.pool.serial
        &&& self.cell_slot_key is Some ==> self.cell_slot_key->0.serial == self.pool.serial
    }

    /// The pool of this frame: brought in line where the chunks or their grid have changed.
    pub open spec fn next_pool(&self, geom: DdgiChunkGeom, chunks: Seq<IVec3>) -> PoolModel {
        if self.last_chunks@ != chunks || self.pool.geom != geom {
            self.pool.synced(geom, chunks)
        } else {
            self.pool.model()
        }
    }

    /// The slots and tables of this frame can be counted.
    pub open spec fn fits(&self, input: DdgiInput, geom: DdgiChunkGeom, base: DdgiWorldGrid) -> bool {
        let p = self.next_pool(geom, input.chunks@);
        let finest = super::frame::finest_slots(base, p.next_base, input.capacity as int);
        &&& geom.count() * DDGI_CHUNK_SLOTS <= u32::MAX
        &&& layout_fits(base, p.next_base)
        &&& geom.count() + finest + 32768 * in_use(p.bases, p.bases.len()) < u32::MAX
        &&& geom.count() + finest + 32768 * in_use(p.bases, p.bases.len()) <= usize::MAX
        &&& finest + super::frame::other_slots(base, p.next_base) + geom.count() + p.next_base
            <= usize::MAX
    }

    pub fn new() -> (r: Self)
        ensures
            r.wf(),
            r.last_chunks.len() == 0,
            r.lod0_key is None,
            r.cell_slot_key is None,
            r.total_slots == 0,
            r.last_revision == u64::MAX,
            !r.bake_pending,
            r.frame == 0,
            r.parity == 0,
            r.pool.bases.len() == 0,
    {
        DdgiState {
            pool: DdgiChunkPool::default(),
            last_chunks: Vec::new(),
            lod0_key: None,
            cell_slot_key: None,
            grid: DdgiWorldGrid::default(),
            total_slots: 0,
            last_revision: u64::MAX,
            bake_pending: false,
            frame: 0,
            parity: 0,
        }
    }

    /// Prepares a frame.
    ///
    /// Probes are baked when the grid, a table or the world has changed, or a bake is still due, but
    /// only in a frame that runs a pass. Grid and revision are taken over only in such a frame.
    pub fn prepare_ddgi(&mut self, input: DdgiInput) -> (r: DdgiFrame)
        requires
            old(self).wf(),
            input.fits(),
            forall|geom: DdgiChunkGeom, base: DdgiWorldGrid|
                #![trigger geom.is_around(input.world.min, input.world.max), is_base(base, input)]
                geom.is_around(input.world.min, input.world.max) && is_base(base, input)
                    ==> old(self).fits(input, geom, base),
        ensures
            final(self).wf(),
            r.geom.is_around(input.world.min, input.world.max),
            // pool
            final(self).pool.geom == r.geom,
            final(self).pool.model() == old(self).next_pool(r.geom, input.chunks@),
            final(self).last_chunks@ == input.chunks@,
            // segments that came or went raise the serial, so that tables and bake follow
            final(self).pool.serial == (if old(self).pool.geom == r.geom && old(self).pool.bases.len()
                == r.geom.count() && final(self).pool.bases@ == old(self).pool.bases@ {
                old(self).pool.serial as int
            } else if old(self).pool.serial == u64::MAX {
                0
            } else {
                old(self).pool.serial + 1
            }),
            final(self).pool.bases@ != old(self).pool.bases@ ==> r.cell_slot is Some && r.lod0 is Some && (
            input.will_run && r.grid.total_slots > 0 ==> r.need_bake),
            // layout
            exists|base: DdgiWorldGrid| #[trigger]
                is_base(base, input) && is_layout(
                    r.grid,
                    base,
                    final(self).pool.next_base as int,
                    input.capacity as int,
                ),
            // tables
            final(self).lod0_key == Some(
                Lod0Key {
                    geom: r.geom,
                    num_chunks: r.geom.count() as u32,
                    slots: r.grid.lod_slot_base[1],
                    serial: final(self).pool.serial,
                },
            ),
            final(self).cell_slot_key == Some(
                CellSlotKey {
                    geom: r.geom,
                    total: r.grid.total_slots,
                    num_chunks: r.geom.count() as u32,
                    chunk_slots: final(self).pool.next_base,
                    serial: final(self).pool.serial,
                },
            ),
            r.cell_slot is Some <==> old(self).cell_slot_key != final(self).cell_slot_key,
            r.cell_slot is Some ==> is_cell_slot(
                r.cell_slot->0@,
                r.grid.total_slots as int,
                final(self).pool.bases@,
                final(self).pool.next_base as int,
            ),
            r.lod0 is Some <==> old(self).lod0_key != final(self).lod0_key,
            r.lod0 is Some ==> is_lod0_table(
                r.lod0->0@,
                final(self).pool.bases@,
                r.grid.lod_slot_base[1] as int,
            ),
            r.lod0_state_words == DDGI_LOD0_STATE_CLAIM + r.geom.count() * DDGI_LOD0_CLAIM_WORDS,
            // bake
            bake_step(*old(self), *final(self), input, r),
            r.need_bake == (input.will_run && r.grid.total_slots > 0 && (old(self).bake_pending
                || input.revision != old(self).last_revision || !r.grid.same_as(&old(self).grid)
                || final(self).pool.serial != old(self).pool.serial || r.lod0 is Some)),
            // what was asked for stays due until a frame that runs passes takes it up
            final(self).bake_pending == (r.need_bake || (old(self).bake_pending && !(input.will_run
                && r.grid.total_slots > 0))),
            old(self).bake_pending ==> final(self).bake_pending,
            final(self).last_revision == (if input.will_run {
                input.revision
            } else {
                old(self).last_revision
            }),
            final(self).grid == (if input.will_run {
                r.grid
            } else {
                old(self).grid
            }),
            final(self).total_slots == (if input.will_run {
                r.grid.total_slots
            } else {
                old(self).total_slots
            }),
            r.dirty == region_of(input.dirty),
            final(self).frame == (if old(self).frame == u32::MAX {
                0
            } else {
                old(self).frame + 1
            }),
            final(self).parity == old(self).parity,
    {
        let base: DdgiWorldGrid = DdgiWorldGrid::from_world(
            input.world.min,
            input.world.max,
            input.margin,
        );
        let geom: DdgiChunkGeom = DdgiChunkGeom::from_world(input.world.min, input.world.max);
        proof {
            assert(is_base(base, input));
            assert(geom.is_around(input.world.min, input.world.max));
            assert(old(self).fits(input, geom, base));
            assert(geom.dims.x >= 3);
        }
        let num_chunks: u32 = geom.len();
        let ghost chunks0 = input.chunks@;
        let serial0: u64 = self.pool.serial;
        let due: bool = !same_list(&self.last_chunks, &input.chunks) || self.pool.geom != geom;
        let mut pool_changed: bool = false;
        if due {
            pool_changed = self.pool.sync(geom, &input.chunks);
            self.last_chunks = input.chunks;
        }
        let chunk_slots: u32 = self.pool.chunk_slots();
        let grid: DdgiWorldGrid = layout_slots(&base, chunk_slots, input.capacity);
        let total: u32 = grid.total_slots;
        let finest: u32 = grid.lod_slot_base[1];
        let lod0_key: Lod0Key = Lod0Key {
            geom,
            num_chunks,
            slots: finest,
            serial: self.pool.serial,
        };
        let lod0_due: bool = match self.lod0_key {
            Some(k) => k != lod0_key,
            None => true,
        };
        let grid_changed: bool = !grid.same(&self.grid) || pool_changed || lod0_due;
        let rev_changed: bool = input.revision != self.last_revision;
        if input.will_run {
            self.grid = grid;
            self.total_slots = total;
            self.last_revision = input.revision;
        }
        let need_bake: bool = (grid_changed || rev_changed || self.bake_pending) && total > 0
            && input.will_run;
        self.bake_pending = need_bake || (self.bake_pending && !(input.will_run && total > 0));
        let dirty: DirtyRegion = dirty_region(input.dirty);
        let key: CellSlotKey = CellSlotKey {
            geom,
            total,
            num_chunks,
            chunk_slots,
            serial: self.pool.serial,
        };
        let slot_due: bool = match self.cell_slot_key {
            Some(k) => k != key,
            None => true,
        };
        let cell_slot: Option<Vec<u32>> = if slot_due {
            Some(build_cell_slot(total, &self.pool))
        } else {
            None
        };
        self.cell_slot_key = Some(key);
        let lod0: Option<Vec<u32>> = if lod0_due {
            Some(build_lod0_table(&self.pool.bases, finest))
        } else {
            None
        };
        self.lod0_key = Some(lod0_key);
        self.frame = self.frame.wrapping_add(1);
        DdgiFrame {
            need_bake,
            cell_slot,
            lod0,
            lod0_state_words: lod0_state_words(num_chunks),
            geom,
            grid,
            dirty,
        }
    }
}

/// A pass of a frame.
#[derive(Debug, Clone, Copy, PartialEq, Eq, Structural)]
pub enum DdgiPass {
    /// Bakes a level.
    Bake { lod: usize, groups: u32 },
    Sort { groups: u32 },
    Seal,
    /// As many groups as the seal pass wrote down.
    Cast,
    Collect,
}

/// Which pipelines are there.
#[derive(Debug, Clone, Copy, PartialEq, Eq, Structural)]
pub struct DdgiReady {
    /// Everything that all passes share, the sort pass and the seal pass.
    pub common: bool,
    /// All bake passes.
    pub bake: bool,
    /// The cast and collect passes with their bindings.
    pub cast: bool,
}

/// Groups of 64 that cover `n` slots.
pub open spec fn groups_of(n: int) -> int {
    let g = (n + 63) / 64;
    if g > 65535 {
        65535
    } else {
        g
    }
}

/// Groups of a level's bake pass.
pub open spec fn bake_groups(n: int) -> int {
    if groups_of(n) < 1 {
        1
    } else {
        groups_of(n)
    }
}

/// The bake passes of the first `n` levels.
pub open spec fn bake_passes(grid: DdgiWorldGrid, n: nat) -> Seq<DdgiPass>
    decreases n,
{
    if n == 0 {
        Seq::empty()
    } else {
        bake_passes(grid, (n - 1) as nat).push(
            DdgiPass::Bake {
                lod: (n - 1) as usize,
                groups: bake_groups(grid.slots_of(n - 1)) as u32,
            },
        )
    }
}

impl DdgiState {
    /// The frame runs passes.
    pub open spec fn runs(&self, stage: DdgiStage, probe_viz: bool, ready: DdgiReady) -> bool {
        (stage.0 >= STAGE_ACTIVE || probe_viz) && ready.common && self.total_slots > 0
    }

    /// The passes of a frame. The finest level is baked in every frame: its slots are claimed
    /// without any change that could be seen here.
    pub open spec fn passes(
        &self,
        stage: DdgiStage,
        probe_viz: bool,
        ready: DdgiReady,
        bake: bool,
    ) -> Seq<DdgiPass> {
        if !self.runs(stage, probe_viz, ready) {
            Seq::empty()
        } else {
            let baked = if !ready.bake {
                Seq::empty()
            } else if bake {
                bake_passes(self.grid, 5)
            } else {
                bake_passes(self.grid, 1)
            };
            let sorted = baked.push(DdgiPass::Sort { groups: groups_of(self.total_slots as int) as u32 });
            let sealed = if stage.0 >= STAGE_ACTIVE {
                sorted.push(DdgiPass::Seal)
            } else {
                sorted
            };
            if stage.0 >= STAGE_CAST && ready.cast {
                sealed.push(DdgiPass::Cast).push(DdgiPass::Collect)
            } else {
                sealed
            }
        }
    }

    /// The passes of a frame, in order. What was baked is no longer due, and after a collect pass the
    /// atlases swap.
    pub fn dispatch_ddgi(
        &mut self,
        stage: DdgiStage,
        probe_viz: bool,
        ready: DdgiReady,
        bake: bool,
    ) -> (r: Vec<DdgiPass>)
        requires
            old(self).wf(),
        ensures
            final(self).wf(),
            r@ == old(self).passes(stage, probe_viz, ready, bake),
            final(self).bake_pending == (old(self).bake_pending && !(old(self).runs(
                stage,
                probe_viz,
                ready,
            ) && ready.bake && bake)),
            final(self).parity == (if old(self).runs(stage, probe_viz, ready) && stage.0
                >= STAGE_CAST && ready.cast {
                1 - old(self).parity
            } else {
                old(self).parity as int
            }),
            final(self).pool == old(self).pool,
            final(self).last_chunks == old(self).last_chunks,
            final(self).lod0_key == old(self).lod0_key,
            final(self).cell_slot_key == old(self).cell_slot_key,
            final(self).grid == old(self).grid,
            final(self).total_slots == old(self).total_slots,
            final(self).last_revision == old(self).last_revision,
            final(self).frame == old(self).frame,
    {
        let mut r: Vec<DdgiPass> = Vec::new();
        if (!stage.run_active() && !probe_viz) || !ready.common || self.total_slots == 0 {
            return r;
        }
        if ready.bake {
            let last: usize = if bake { 5 } else { 1 };
            let mut lod: usize = 0;
            while lod < last
                invariant
                    lod <= last <= 5,
                    r@ == bake_passes(self.grid, lod as nat),
                decreases last - lod,
            {
                let g: u32 = div_ceil(self.grid.lod_slot_count(lod), 64);
                let groups: u32 = if g < 1 {
                    1
                } else if g > 65535 {
                    65535
                } else {
                    g
                };
                r.push(DdgiPass::Bake { lod, groups });
                lod += 1;
            }
            if bake {
                self.bake_pending = false;
            }
        }
        let g: u32 = div_ceil(self.total_slots, 64);
        r.push(DdgiPass::Sort { groups: if g > 65535 { 65535 } else { g } });
        if stage.run_active() {
            r.push(DdgiPass::Seal);
        }
        if stage.run_cast() && ready.cast {
            r.push(DdgiPass::Cast);
            r.push(DdgiPass::Collect);
            self.parity = 1 - self.parity;
        }
        r
    }
}

/// A full change makes everything within a thousand million voxels dirty, on each axis; any other is
/// taken as it is, unless its box is empty, and then nothing is dirty.
pub proof fn lemma_region(d: DdgiDirty)
    ensures
        !region_of(None).valid,
        d.full ==> region_of(Some(d)).valid && ({
            let r = region_of(Some(d));
            &&& r.min.x == -r.max.x && r.min.y == -r.max.y && r.min.z == -r.max.z
            &&& r.max.x == 1000000000 && r.max.y == 1000000000 && r.max.z == 1000000000
        }),
        !d.full && d.min_voxel != d.max_voxel ==> region_of(Some(d)).valid && region_of(Some(d)).min
            == d.min_voxel && region_of(Some(d)).max == d.max_voxel,
        !d.full && d.min_voxel == d.max_voxel ==> region_of(Some(d)) == region_of(None),
{
}

/// Workgroups of 64 cover the slots, none of them idle, up to the largest number of groups; a bake has
/// at least one.
pub proof fn lemma_groups(n: int)
    requires
        0 <= n,
    ensures
        groups_of(n) <= 65535,
        groups_of(n) < 65535 ==> n <= 64 * groups_of(n),
        64 * (groups_of(n) - 1) < n,
        n > 0 ==> bake_groups(n) == groups_of(n),
        n == 0 ==> bake_groups(n) == 1,
{
}

/// A pass's place in a frame.
pub open spec fn place(p: DdgiPass) -> int {
    match p {
        DdgiPass::Bake { lod, groups } => lod as int,
        DdgiPass::Sort { groups } => 5,
        DdgiPass::Seal => 6,
        DdgiPass::Cast => 7,
        DdgiPass::Collect => 8,
    }
}

/// Some pass has place `k`.
pub open spec fn runs_at(s: Seq<DdgiPass>, k: int) -> bool {
    exists|i: int| 0 <= i < s.len() && place(#[trigger] s[i]) == k
}

impl DdgiState {
    /// The pass has groups for all its slots.
    pub open spec fn covered_by(&self, p: DdgiPass) -> bool {
        match p {
            DdgiPass::Bake { lod, groups } => groups >= 1 && (groups == 65535 || self.grid.slots_of(
                lod as int,
            ) <= 64 * groups),
            DdgiPass::Sort { groups } => groups == 65535 || self.total_slots <= 64 * groups,
            _ => true,
        }
    }
}

proof fn lemma_bake_passes(s: DdgiState, n: nat)
    requires
        n <= 5,
    ensures
        bake_passes(s.grid, n).len() == n,
        forall|i: int|
            0 <= i < n ==> place(#[trigger] bake_passes(s.grid, n)[i]) == i && s.covered_by(
                bake_passes(s.grid, n)[i],
            ),
    decreases n,
{
    if n > 0 {
        lemma_bake_passes(s, (n - 1) as nat);
        lemma_groups(s.grid.slots_of(n - 1));
    }
}

/// The passes of a frame come in the order in which they use each other's results, each at most once
/// and with groups for all its slots. Nothing runs before the shared bindings and the slots are there.
/// A bake takes all levels, and a frame without one the finest alone; the sort always runs, the seal
/// once probes are active, and rays are cast and collected only in the later stages.
#[verifier::spinoff_prover]
pub proof fn lemma_passes(s: DdgiState, stage: DdgiStage, probe_viz: bool, ready: DdgiReady, bake: bool)
    ensures
        ({
            let p = s.passes(stage, probe_viz, ready, bake);
            let on = (stage.0 >= 1 || probe_viz) && ready.common && s.total_slots > 0;
            &&& forall|i: int, j: int|
                0 <= i < j < p.len() ==> place(#[trigger] p[i]) < place(#[trigger] p[j])
            &&& forall|i: int| 0 <= i < p.len() ==> s.covered_by(#[trigger] p[i])
            &&& runs_at(p, 0) <==> on && ready.bake
            &&& forall|lod: int|
                1 <= lod < 5 ==> (#[trigger] runs_at(p, lod) <==> on && ready.bake && bake)
            &&& runs_at(p, 5) <==> on
            &&& runs_at(p, 6) <==> on && stage.0 >= 1
            &&& runs_at(p, 7) <==> on && stage.0 >= 2 && ready.cast
            &&& runs_at(p, 8) <==> on && stage.0 >= 2 && ready.cast
        }),
{
    let p = s.passes(stage, probe_viz, ready, bake);
    lemma_bake_passes(s, 1);
    lemma_bake_passes(s, 5);
    lemma_groups(s.total_slots as int);
    if s.runs(stage, probe_viz, ready) {
        let n: int = if !ready.bake {
            0
        } else if bake {
            5
        } else {
            1
        };
        let seal = stage.0 >= STAGE_ACTIVE;
        let cast = stage.0 >= STAGE_CAST && ready.cast;
        assert(forall|i: int| 0 <= i < n ==> place(#[trigger] p[i]) == i && s.covered_by(p[i]));
        assert(place(p[n]) == 5 && s.covered_by(p[n]));
        if seal {
            assert(place(p[n + 1]) == 6);
        }
        if cast {
            assert(place(p[n + 2]) == 7 && place(p[n + 3]) == 8);
        }
        assert(p.len() == n + 1 + (if seal {
            1int
        } else {
            0
        }) + (if cast {
            2int
        } else {
            0
        }));
        if n > 0 {
            assert(place(p[0]) == 0);
        }
        if n == 5 {
            assert(place(p[1]) == 1 && place(p[2]) == 2 && place(p[3]) == 3 && place(p[4]) == 4);
        }
        assert forall|i: int, j: int| 0 <= i < j < p.len() implies place(#[trigger] p[i]) < place(
            #[trigger] p[j],
        ) by {}
    }
}

/// A bake that is due is not forgotten: a frame that runs passes takes it up, a frame that does not
/// leaves it due, and so it stays until it has run. What makes one due is seen by the first frame that
/// runs: another revision of the world, another layout, segments that came or went, or new tables.
/// Without any of these nothing is baked.
pub proof fn lemma_bake_is_not_forgotten(o: DdgiState, n: DdgiState, input: DdgiInput, r: DdgiFrame)
    requires
        bake_step(o, n, input, r),
    ensures
        o.bake_pending ==> n.bake_pending,
        r.need_bake ==> n.bake_pending && input.will_run,
        input.will_run && r.grid.total_slots > 0 ==> r.need_bake == n.bake_pending && (o.bake_pending
            ==> r.need_bake),
        input.will_run && r.grid.total_slots > 0 && input.revision != o.last_revision ==> r.need_bake,
        input.will_run && r.grid.total_slots > 0 && !r.grid.same_as(&o.grid) ==> r.need_bake,
        input.will_run && r.grid.total_slots > 0 && n.pool.serial != o.pool.serial ==> r.need_bake,
        input.will_run && r.grid.total_slots > 0 && r.lod0 is Some ==> r.need_bake,
        !o.bake_pending && input.revision == o.last_revision && r.grid.same_as(&o.grid)
            && n.pool.serial == o.pool.serial && r.lod0 is None ==> !r.need_bake && !n.bake_pending,
        // an idle frame leaves what the next one compares with
        !input.will_run ==> n.last_revision == o.last_revision && n.grid == o.grid,
        input.will_run ==> n.last_revision == input.revision && n.grid == r.grid,
{
}

/// The pool follows the chunks and the grid: as long as it serves the chunks it was last given, in the
/// grid it was last given, it serves those of the next frame in the next frame's grid, whichever of the
/// two have changed.
pub proof fn lemma_pool_follows(s: DdgiState, geom: DdgiChunkGeom, chunks: Seq<IVec3>, c: IVec3)
    requires
        s.pool.wf(),
        geom.fits(),
        geom.count() * super::pool::DDGI_CHUNK_SLOTS <= u32::MAX,
        geom.has(c),
        s.pool.geom == geom && s.last_chunks@ == chunks ==> s.pool.bases.len() == geom.count() && (
        s.pool.bases@[geom.number(c)] != super::pool::DDGI_CHUNK_NO_BASE <==> s.last_chunks@.contains(
            c,
        )),
    ensures
        s.next_pool(geom, chunks).bases.len() == geom.count(),
        s.next_pool(geom, chunks).bases[geom.number(c)] != super::pool::DDGI_CHUNK_NO_BASE
            <==> chunks.contains(c),
{
    super::pool::lemma_synced_serves_wanted(s.pool, geom, chunks, c);
}

/// On every level, each voxel of the world, and of the margin around it, lies in a cell.
pub proof fn lemma_levels_cover_the_world(g: DdgiWorldGrid, input: DdgiInput, lod: int, v: IVec3)
    requires
        is_base(g, input),
        0 <= lod < 5,
        input.world.min.x - input.margin <= v.x < input.world.max.x + input.margin,
        input.world.min.y - input.margin <= v.y < input.world.max.y + input.margin,
        input.world.min.z - input.margin <= v.z < input.world.max.z + input.margin,
    ensures
        0 <= (v.x - g.lod_origins[lod].x) / cell_edge(lod) < g.lod_dims[lod].x,
        0 <= (v.y - g.lod_origins[lod].y) / cell_edge(lod) < g.lod_dims[lod].y,
        0 <= (v.z - g.lod_origins[lod].z) / cell_edge(lod) < g.lod_dims[lod].z,
{
    assert(is_level(
        g.lod_origins[lod],
        g.lod_dims[lod],
        input.world.min,
        input.world.max,
        input.margin as int,
        cell_edge(lod),
    ));
    super::grid::lemma_levels_cover(
        g,
        input.world.min,
        input.world.max,
        input.margin as int,
        lod,
        v,
    );
}

} // verus!
