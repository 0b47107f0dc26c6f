//! Stages, the slot layout, and the tables that the shaders read.

use super::grid::{
    cell_count, DdgiWorldGrid, DDGI_LOD0_BRICKS, DDGI_LOD0_CELLS_PER_BRICK, DDGI_LOD0_CLAIM_WORDS,
    DDGI_LOD0_SLOTS_PER_BRICK, DDGI_LOD0_STATE_CLAIM,
};
use super::pool::{in_use, DdgiChunkPool, PoolModel, DDGI_CHUNK_NO_BASE, DDGI_CHUNK_SLOTS};
use crate::math::{IVec3, UVec3};
use vstd::prelude::*;

verus! {

/// How far the pipeline runs.
#[derive(Debug, Clone, Copy, PartialEq, Eq, Structural)]
pub struct DdgiStage(pub u8);

/// Nothing runs.
pub const STAGE_OFF: u8 = 0;

/// Probes are kept up to date.
pub const STAGE_ACTIVE: u8 = 1;

/// Rays are cast and collected.
pub const STAGE_CAST: u8 = 2;

/// The result is used for shading.
pub const STAGE_FULL: u8 = 3;

impl Default for DdgiStage {
    fn default() -> (r: Self)
        ensures
            r.0 == STAGE_OFF,
    {
        DdgiStage(STAGE_OFF)
    }
}

impl DdgiStage {
    /// A stage; numbers above the last stage are the last stage.
    pub fn new(v: u8) -> (r: Self)
        ensures
            r.0 == (if v < STAGE_FULL {
                v
            } else {
                STAGE_FULL
            }),
    {
        DdgiStage(if v < STAGE_FULL { v } else { STAGE_FULL })
    }

    /// The stage to start with.
    pub fn startup(stage: u8) -> (r: Self)
        ensures
            r.0 == (if stage < STAGE_FULL {
                stage
            } else {
                STAGE_FULL
            }),
    {
        Self::new(stage)
    }

    pub fn run_active(&self) -> (r: bool)
        ensures
            r == (self.0 >= STAGE_ACTIVE),
    {
        self.0 >= STAGE_ACTIVE
    }

    pub fn run_cast(&self) -> (r: bool)
        ensures
            r == (self.0 >= STAGE_CAST),
    {
        self.0 >= STAGE_CAST
    }

    pub fn shade_gi(&self) -> (r: bool)
        ensures
            r == (self.0 >= STAGE_FULL),
    {
        self.0 >= STAGE_FULL
    }
}

/// The stage that rendering takes over: off when there is none.
pub fn extracted_stage(stage: Option<DdgiStage>) -> (r: DdgiStage)
    ensures
        r.0 == (match stage {
            None => STAGE_OFF,
            Some(s) => if s.0 < STAGE_FULL {
                s.0
            } else {
                STAGE_FULL
            },
        }),
{
    match stage {
        None => DdgiStage(STAGE_OFF),
        Some(s) => DdgiStage::new(s.0),
    }
}

/// Probes are to be baked in this frame.
#[derive(Debug, Clone, Copy, PartialEq, Eq, Structural)]
pub struct DdgiBakeThisFrame(pub bool);

/// The loaded world's box, in voxels.
#[derive(Debug, Clone, Copy, PartialEq, Eq, Structural)]
pub struct DdgiWorldAabb {
    pub min: IVec3,
    pub max: IVec3,
}

impl Default for DdgiWorldAabb {
    fn default() -> (r: Self)
        ensures
            r.min == (IVec3 { x: 0, y: 0, z: 0 }),
            r.max == (IVec3 { x: 1, y: 1, z: 1 }),
    {
        DdgiWorldAabb { min: IVec3::splat(0), max: IVec3::splat(1) }
    }
}

/// Slots of the levels other than the finest.
pub open spec fn other_slots(base: DdgiWorldGrid, chunk_slots: int) -> int {
    chunk_slots + cell_count(base.lod_dims[2]) + cell_count(base.lod_dims[3]) + cell_count(
        base.lod_dims[4],
    )
}

/// Slots left for the finest level, in whole bricks.
pub open spec fn finest_slots(base: DdgiWorldGrid, chunk_slots: int, capacity: int) -> int {
    let others = other_slots(base, chunk_slots);
    if capacity > others {
        (capacity - others) / 8 * 8
    } else {
        0
    }
}

/// The grid with its slots laid out: the finest level first, then the chunks' segments, then the
/// other levels.
pub open spec fn is_layout(
    g: DdgiWorldGrid,
    base: DdgiWorldGrid,
    chunk_slots: int,
    capacity: int,
) -> bool {
    let finest = finest_slots(base, chunk_slots, capacity);
    &&& g.lod_origins[0] == (IVec3 { x: 0, y: 0, z: 0 })
    &&& g.lod_dims[0] == (UVec3 { x: 2, y: 2, z: 2 })
    &&& forall|i: int| 1 <= i < 5 ==> #[trigger] g.lod_origins[i] == base.lod_origins[i]
    &&& forall|i: int| 1 <= i < 5 ==> #[trigger] g.lod_dims[i] == base.lod_dims[i]
    &&& g.lod_slot_base[0] == 0
    &&& g.lod_slot_base[1] == finest
    &&& g.lod_slot_base[2] == finest + chunk_slots
    &&& g.lod_slot_base[3] == g.lod_slot_base[2] + cell_count(base.lod_dims[2])
    &&& g.lod_slot_base[4] == g.lod_slot_base[3] + cell_count(base.lod_dims[3])
    &&& g.total_slots == finest + other_slots(base, chunk_slots)
}

/// The counts that a layout adds up fit.
pub open spec fn layout_fits(base: DdgiWorldGrid, chunk_slots: int) -> bool {
    &&& 0 <= cell_count(base.lod_dims[2]) <= u32::MAX
    &&& 0 <= cell_count(base.lod_dims[3]) <= u32::MAX
    &&& 0 <= cell_count(base.lod_dims[4]) <= u32::MAX
    &&& other_slots(base, chunk_slots) <= u32::MAX
}

/// Lays the slots out.
pub fn layout_slots(base: &DdgiWorldGrid, chunk_slots: u32, capacity: u32) -> (g: DdgiWorldGrid)
    requires
        layout_fits(*base, chunk_slots as int),
    ensures
        is_layout(g, *base, chunk_slots as int, capacity as int),
{
    let c2: u32 = base.lod_count(2);
    let c3: u32 = base.lod_count(3);
    let c4: u32 = base.lod_count(4);
    let others: u32 = chunk_slots + c2 + c3 + c4;
    let finest: u32 = capacity.saturating_sub(others) / DDGI_LOD0_SLOTS_PER_BRICK
        * DDGI_LOD0_SLOTS_PER_BRICK;
    let b2: u32 = finest + chunk_slots;
    let e: u32 = DDGI_LOD0_CELLS_PER_BRICK;
    DdgiWorldGrid {
        lod_origins: [
            IVec3::splat(0),
            base.lod_origins[1],
            base.lod_origins[2],
            base.lod_origins[3],
            base.lod_origins[4],
        ],
        lod_dims: [
            UVec3 { x: e, y: e, z: e },
            base.lod_dims[1],
            base.lod_dims[2],
            base.lod_dims[3],
            base.lod_dims[4],
        ],
        lod_slot_base: [0, finest, b2, b2 + c2, b2 + c2 + c3],
        total_slots: b2 + c2 + c3 + c4,
    }
}

/// The levels' slots do not overlap, and stay within the capacity unless the other levels alone do
/// not.
pub proof fn lemma_levels_apart(g: DdgiWorldGrid, base: DdgiWorldGrid, chunk_slots: int, capacity: int)
    requires
        layout_fits(base, chunk_slots),
        0 <= chunk_slots,
        0 <= capacity,
        is_layout(g, base, chunk_slots, capacity),
    ensures
        g.slots_of(0) == finest_slots(base, chunk_slots, capacity),
        g.slots_of(1) == chunk_slots,
        g.slots_of(2) == cell_count(base.lod_dims[2]),
        g.slots_of(3) == cell_count(base.lod_dims[3]),
        g.slots_of(4) == cell_count(base.lod_dims[4]),
        forall|i: int, j: int|
            0 <= i < j < 5 ==> (#[trigger] g.lod_slot_base[i]) + g.slots_of(i)
                <= #[trigger] g.lod_slot_base[j],
        other_slots(base, chunk_slots) <= capacity ==> g.total_slots <= capacity,
{
}

/// The chunk level's table: a use count per slot, then each chunk's base, then the chunk of each
/// segment slot.
pub open spec fn is_cell_slot(
    w: Seq<u32>,
    total: int,
    bases: Seq<u32>,
    chunk_slots: int,
) -> bool {
    let n = bases.len() as int;
    &&& w.len() == total + n + chunk_slots
    &&& forall|i: int| 0 <= i < total ==> #[trigger] w[i] == 0
    &&& forall|l: int| 0 <= l < n ==> w[total + l] == #[trigger] bases[l]
    &&& forall|s: int|
        0 <= s < chunk_slots ==> is_slot_owner(#[trigger] w[total + n + s], bases, s)
}

/// `v` is the chunk whose segment holds slot `s`, or 0 where there is none.
pub open spec fn is_slot_owner(v: u32, bases: Seq<u32>, s: int) -> bool {
    if exists|l: int| 0 <= l < bases.len() && holds_slot(#[trigger] bases[l], s) {
        v < bases.len() && holds_slot(bases[v as int], s)
    } else {
        v == 0
    }
}

/// The segment at `b` holds slot `s`.
pub open spec fn holds_slot(b: u32, s: int) -> bool {
    b != DDGI_CHUNK_NO_BASE && b <= s < b + DDGI_CHUNK_SLOTS
}

/// Builds the chunk level's table.
pub fn build_cell_slot(total: u32, pool: &DdgiChunkPool) -> (w: Vec<u32>)
    requires
        pool.wf(),
        pool.bases.len() <= u32::MAX,
        total + pool.bases.len() + pool.next_base <= usize::MAX,
    ensures
        is_cell_slot(w@, total as int, pool.bases@, pool.next_base as int),
{
    let n: usize = pool.bases.len();
    let ghost bases = pool.bases@;
    let t: usize = total as usize;
    let mut w: Vec<u32> = vec![0; t];
    w.extend_from_slice(pool.bases.as_slice());
    let ghost w0 = w@;
    let mut owner: Vec<u32> = vec![0; pool.next_base as usize];
    let mut l: usize = 0;
    while l < n
        invariant
            l <= n,
            n == bases.len(),
            n <= u32::MAX,
            bases == pool.bases@,
            pool.wf(),
            owner.len() == pool.next_base,
            forall|s: int|
                0 <= s < owner.len() ==> owner_among(#[trigger] owner@[s], bases, s, l as int),
        decreases n - l,
    {
        let b: u32 = pool.bases[l];
        let ghost before = owner@;
        if b != DDGI_CHUNK_NO_BASE {
            proof {
                lemma_segment_inside(pool.model(), l as int);
            }
            let mut k: u32 = 0;
            while k < DDGI_CHUNK_SLOTS
                invariant
                    k <= DDGI_CHUNK_SLOTS,
                    l < n,
                    n <= u32::MAX,
                    owner.len() == before.len(),
                    b + DDGI_CHUNK_SLOTS <= owner.len(),
                    owner.len() <= u32::MAX,
                    forall|s: int|
                        0 <= s < owner.len() ==> #[trigger] owner@[s] == (if b <= s < b + k {
                            l as u32
                        } else {
                            before[s]
                        }),
                decreases DDGI_CHUNK_SLOTS - k,
            {
                owner[(b + k) as usize] = l as u32;
                k += 1;
            }
        }
        proof {
            assert forall|s: int| 0 <= s < owner.len() implies owner_among(
                #[trigger] owner@[s],
                bases,
                s,
                l + 1,
            ) by {
                assert(owner_among(before[s], bases, s, l as int));
                if exists|m: int| 0 <= m < l && holds_slot(#[trigger] bases[m], s) {
                    let m = choose|m: int| 0 <= m < l && holds_slot(#[trigger] bases[m], s);
                    lemma_one_holder(pool.model(), m, l as int, s);
                    assert(holds_slot(bases[m], s));
                } else if holds_slot(bases[l as int], s) {
                    assert(owner@[s] == l);
                } else {
                    assert(owner@[s] == before[s]);
                }
            }
        }
        l += 1;
    }
    w.append(&mut owner);
    proof {
        assert forall|s: int| 0 <= s < pool.next_base implies is_slot_owner(
            #[trigger] w@[t + n + s],
            bases,
            s,
        ) by {
            assert(w@[t + n + s] == w@[w0.len() + s]);
        }
        assert forall|i: int| 0 <= i < n implies w@[t + i] == #[trigger] bases[i] by {
            assert(w@[t + i] == w0[t + i]);
        }
    }
    w
}

/// [`is_slot_owner`] for the chunks below `n`.
spec fn owner_among(v: u32, bases: Seq<u32>, s: int, n: int) -> bool {
    if exists|l: int| 0 <= l < n && holds_slot(#[trigger] bases[l], s) {
        v < n && holds_slot(bases[v as int], s)
    } else {
        v == 0
    }
}

proof fn lemma_segment_inside(p: PoolModel, l: int)
    requires
        p.wf(),
        0 <= l < p.bases.len(),
        p.bases[l] != DDGI_CHUNK_NO_BASE,
    ensures
        p.bases[l] + DDGI_CHUNK_SLOTS <= p.next_base,
{
}

/// Only one segment holds a slot.
proof fn lemma_one_holder(p: PoolModel, m: int, l: int, s: int)
    requires
        p.wf(),
        0 <= m < l < p.bases.len(),
        holds_slot(p.bases[m], s),
    ensures
        !holds_slot(p.bases[l], s),
{
    if holds_slot(p.bases[l], s) {
        assert(p.bases[l] != p.bases[m]);
        assert(p.bases[m] % 4096 == 0 && p.bases[l] % 4096 == 0);
    }
}

/// The finest level's table: where each chunk's bricks stand, then a word per slot, then the bricks
/// of the chunks that have a segment, all unclaimed.
pub open spec fn is_lod0_table(w: Seq<u32>, bases: Seq<u32>, slots: int) -> bool {
    let n = bases.len() as int;
    &&& w.len() == n + slots + 32768 * in_use(bases, bases.len())
    &&& forall|l: int|
        0 <= l < n ==> #[trigger] w[l] == (if bases[l] == DDGI_CHUNK_NO_BASE {
            DDGI_CHUNK_NO_BASE as int
        } else {
            n + slots + 32768 * in_use(bases, l as nat)
        })
    &&& forall|s: int| n <= s < n + slots ==> #[trigger] w[s] == 0
    &&& forall|i: int| n + slots <= i < w.len() ==> #[trigger] w[i] == DDGI_CHUNK_NO_BASE
}

/// Builds the finest level's table.
pub fn build_lod0_table(bases: &Vec<u32>, slots: u32) -> (w: Vec<u32>)
    requires
        bases.len() + slots + 32768 * in_use(bases@, bases@.len()) < u32::MAX,
        bases.len() + slots + 32768 * in_use(bases@, bases@.len()) <= usize::MAX,
    ensures
        is_lod0_table(w@, bases@, slots as int),
{
    let n: usize = bases.len();
    let mut w: Vec<u32> = Vec::new();
    let mut used: usize = 0;
    let mut l: usize = 0;
    while l < n
        invariant
            l <= n,
            n == bases.len(),
            used == in_use(bases@, l as nat),
            n + slots + 32768 * in_use(bases@, n as nat) < u32::MAX,
            n + slots + 32768 * in_use(bases@, n as nat) <= usize::MAX,
            w.len() == l,
            forall|m: int|
                0 <= m < l ==> #[trigger] w@[m] == (if bases@[m] == DDGI_CHUNK_NO_BASE {
                    DDGI_CHUNK_NO_BASE as int
                } else {
                    n + slots + 32768 * in_use(bases@, m as nat)
                }),
        decreases n - l,
    {
        proof {
            lemma_in_use_mono(bases@, (l + 1) as nat, n as nat);
        }
        if bases[l] != DDGI_CHUNK_NO_BASE {
            w.push((n + slots as usize + used * DDGI_LOD0_BRICKS) as u32);
            used += 1;
        } else {
            w.push(DDGI_CHUNK_NO_BASE);
        }
        l += 1;
    }
    let ghost w0 = w@;
    w.resize(n + slots as usize, 0);
    let ghost w1 = w@;
    w.resize(n + slots as usize + used * DDGI_LOD0_BRICKS, DDGI_CHUNK_NO_BASE);
    proof {
        assert forall|m: int| 0 <= m < w0.len() implies #[trigger] w1[m] == w0[m] by {
            assert(w1.subrange(0, w0.len() as int)[m] == w1[m]);
        }
        assert forall|m: int| 0 <= m < w1.len() implies #[trigger] w@[m] == w1[m] by {
            assert(w@.subrange(0, w1.len() as int)[m] == w@[m]);
        }
    }
    w
}

proof fn lemma_in_use_mono(bases: Seq<u32>, a: nat, b: nat)
    requires
        a <= b,
    ensures
        0 <= in_use(bases, a) <= in_use(bases, b),
    decreases b,
{
    if b > 0 {
        lemma_in_use_mono(bases, if a < b { a } else { (b - 1) as nat }, (b - 1) as nat);
    }
}

/// Words of the finest level's claim state: a cursor, and a bit per brick of every chunk.
pub fn lod0_state_words(num_chunks: u32) -> (r: u64)
    ensures
        r == DDGI_LOD0_STATE_CLAIM + num_chunks * DDGI_LOD0_CLAIM_WORDS,
{
    assert(num_chunks * DDGI_LOD0_CLAIM_WORDS <= 0xFFFF_FFFF * 1024);
    DDGI_LOD0_STATE_CLAIM as u64 + num_chunks as u64 * DDGI_LOD0_CLAIM_WORDS as u64
}

/// The finest level gets what the others leave of the atlas, in whole bricks of eight slots.
pub proof fn lemma_finest_level(base: DdgiWorldGrid, chunk_slots: int, capacity: int)
    requires
        layout_fits(base, chunk_slots),
        0 <= chunk_slots,
        0 <= capacity,
    ensures
        ({
            let finest = finest_slots(base, chunk_slots, capacity);
            let (a, b, c) = (base.lod_dims[2], base.lod_dims[3], base.lod_dims[4]);
            let others = chunk_slots + a.x * a.y * a.z + b.x * b.y * b.z + c.x * c.y * c.z;
            &&& finest >= 0 && finest % 8 == 0
            &&& finest > 0 ==> finest + others <= capacity
            &&& capacity >= others ==> capacity - (finest + others) < 8
            &&& capacity < others ==> finest == 0
        }),
{
}

/// Every slot of a chunk's segment names the chunk, and the chunk's own entry gives the segment's first
/// slot.
pub proof fn lemma_slots_name_their_chunk(
    w: Seq<u32>,
    total: int,
    pool: DdgiChunkPool,
    l: int,
    i: int,
)
    requires
        pool.wf(),
        is_cell_slot(w, total, pool.bases@, pool.next_base as int),
        0 <= l < pool.bases.len(),
        pool.bases@[l] != DDGI_CHUNK_NO_BASE,
        0 <= i < 4096,
    ensures
        w[total + l] == pool.bases@[l],
        w[total + pool.bases.len() + pool.bases@[l] + i] == l,
{
    let bases = pool.bases@;
    let s = bases[l] + i;
    let v = w[total + bases.len() + s];
    assert(bases[l] % 4096 == 0 && bases[l] < pool.next_base);
    assert(pool.next_base as int % 4096 == 0);
    assert(is_slot_owner(w[total + bases.len() + s], bases, s));
    assert(holds_slot(bases[l], s));
    if v != l {
        super::pool::lemma_segments_apart(pool.model(), l, v as int, i, s - bases[v as int]);
    }
}

proof fn lemma_in_use_grows(bases: Seq<u32>, a: nat, b: nat)
    requires
        a <= b,
    ensures
        0 <= in_use(bases, a) <= in_use(bases, b),
    decreases b,
{
    if a < b {
        lemma_in_use_grows(bases, a, (b - 1) as nat);
    } else if a > 0 {
        lemma_in_use_grows(bases, (a - 1) as nat, (b - 1) as nat);
    }
}

/// Each chunk with a segment has its own part of the finest level's table, an entry for each of the 32
/// bricks along each edge, behind the chunks' entries and the slots; a chunk without one has none.
pub proof fn lemma_finest_parts_apart(w: Seq<u32>, bases: Seq<u32>, slots: int, l: int, m: int)
    requires
        is_lod0_table(w, bases, slots),
        0 <= slots,
        0 <= l < m < bases.len(),
        bases.len() + slots + 32768 * in_use(bases, bases.len()) < u32::MAX,
    ensures
        bases[l] == DDGI_CHUNK_NO_BASE ==> w[l] == DDGI_CHUNK_NO_BASE,
        bases[l] != DDGI_CHUNK_NO_BASE ==> bases.len() + slots <= w[l] && w[l] + 32 * 32 * 32
            <= w.len(),
        bases[l] != DDGI_CHUNK_NO_BASE && bases[m] != DDGI_CHUNK_NO_BASE ==> w[l] + 32 * 32 * 32
            <= w[m],
{
    lemma_in_use_grows(bases, 0, l as nat);
    lemma_in_use_grows(bases, (l + 1) as nat, m as nat);
    lemma_in_use_grows(bases, (l + 1) as nat, bases.len());
}

} // verus!
