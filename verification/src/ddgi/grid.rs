//! The levels' grids and where their slots start.

use super::pool::{align_down, lemma_partial_product};
use crate::math::{IVec3, UVec3};
use vstd::prelude::*;

verus! {

/// Levels, finest first.
pub const DDGI_LODS: usize = 5;

/// The level that owns its slots chunk by chunk.
pub const DDGI_CHUNK_LOD: usize = 1;

/// Edge of the bricks that the finest level is claimed by, in voxels.
pub const DDGI_LOD0_BRICK_VOXELS: i32 = 8;

/// Bricks along a chunk's edge.
pub const DDGI_LOD0_BRICKS_PER_AXIS: u32 = 32;

/// Cells of the finest level along a brick's edge.
pub const DDGI_LOD0_CELLS_PER_BRICK: u32 = 2;

/// Slots of a brick.
pub const DDGI_LOD0_SLOTS_PER_BRICK: u32 = 8;

/// First word of the claim bits: word 0 is the cursor.
pub const DDGI_LOD0_STATE_CLAIM: u32 = 1;

/// Words of claim bits per chunk: one bit per brick.
pub const DDGI_LOD0_CLAIM_WORDS: u32 = 1024;

/// Bricks of a chunk.
pub const DDGI_LOD0_BRICKS: usize = 32768;

/// Edge of a level's cells, in voxels.
pub open spec fn cell_edge(lod: int) -> int {
    if lod == 0 {
        4
    } else if lod == 1 {
        16
    } else if lod == 2 {
        32
    } else if lod == 3 {
        64
    } else {
        128
    }
}

/// Edge of a level's cells, in voxels.
pub fn lod_cell_edge(lod: usize) -> (r: i32)
    requires
        lod < DDGI_LODS,
    ensures
        r == cell_edge(lod as int),
{
    if lod == 0 {
        4
    } else if lod == 1 {
        16
    } else if lod == 2 {
        32
    } else if lod == 3 {
        64
    } else {
        128
    }
}

/// The levels' grids.
#[derive(Debug, Clone, Copy)]
pub struct DdgiWorldGrid {
    /// Lowest voxel of each level.
    pub lod_origins: [IVec3; 5],
    /// Cells of each level.
    pub lod_dims: [UVec3; 5],
    /// First slot of each level.
    pub lod_slot_base: [u32; 5],
    pub total_slots: u32,
}

/// Lowest voxel of a level along an axis: a multiple of its cell.
pub open spec fn level_origin(lo: int, cell: int) -> int {
    lo / cell * cell
}

/// Cells of a level along an axis.
pub open spec fn level_span(lo: int, hi: int, cell: int) -> int {
    let span = hi - level_origin(lo, cell);
    if span > 1 {
        (span + cell - 1) / cell
    } else {
        1
    }
}

/// A level's grid along an axis has coordinates.
pub open spec fn level_fits(lo: int, hi: int, cell: int) -> bool {
    &&& i32::MIN <= lo
    &&& i32::MIN <= level_origin(lo, cell)
    &&& hi <= i32::MAX
    &&& i32::MIN <= hi - level_origin(lo, cell)
    &&& hi - level_origin(lo, cell) + cell - 1 <= i32::MAX
}

/// Number of cells.
pub open spec fn cell_count(d: UVec3) -> int {
    d.x * d.y * d.z
}

fn level_axis(lo: i32, hi: i32, cell: i32) -> (r: (i32, u32))
    requires
        4 <= cell <= 128,
        level_fits(lo as int, hi as int, cell as int),
    ensures
        r.0 == level_origin(lo as int, cell as int),
        r.1 == level_span(lo as int, hi as int, cell as int),
{
    let origin: i32 = align_down(lo, cell);
    let span0: i32 = hi - origin;
    let span: i32 = if span0 > 1 { span0 } else { 1 };
    let n: i32 = (span + (cell - 1)) / cell;
    proof {
        assert(n >= 1 && (span0 <= 1 ==> n == 1)) by (nonlinear_arith)
            requires
                n == (span + (cell - 1)) / (cell as int),
                span >= 1,
                cell >= 4,
                span0 <= 1 ==> span == 1,
        ;
    }
    (origin, n as u32)
}

/// `d` is the size of a level's grid around the box.
pub open spec fn is_level(o: IVec3, d: UVec3, lo: IVec3, hi: IVec3, margin: int, cell: int) -> bool {
    &&& o.x == level_origin(lo.x - margin, cell)
    &&& o.y == level_origin(lo.y - margin, cell)
    &&& o.z == level_origin(lo.z - margin, cell)
    &&& d.x == level_span(lo.x - margin, hi.x + margin, cell)
    &&& d.y == level_span(lo.y - margin, hi.y + margin, cell)
    &&& d.z == level_span(lo.z - margin, hi.z + margin, cell)
}

/// The box with its margin has coordinates on every level.
pub open spec fn box_fits(lo: IVec3, hi: IVec3, margin: int) -> bool {
    forall|lod: int|
        0 <= lod < 5 ==> {
            let cell = #[trigger] cell_edge(lod);
            &&& level_fits(lo.x - margin, hi.x + margin, cell)
            &&& level_fits(lo.y - margin, hi.y + margin, cell)
            &&& level_fits(lo.z - margin, hi.z + margin, cell)
        }
}

/// Cells of a level around the box.
pub open spec fn level_cells(lo: IVec3, hi: IVec3, margin: int, lod: int) -> int {
    let cell = cell_edge(lod);
    level_span(lo.x - margin, hi.x + margin, cell) * level_span(lo.y - margin, hi.y + margin, cell)
        * level_span(lo.z - margin, hi.z + margin, cell)
}

/// Cells of the levels below `lod`.
pub open spec fn cells_before(lo: IVec3, hi: IVec3, margin: int, lod: int) -> int
    decreases lod,
{
    if lod <= 0 {
        0
    } else {
        cells_before(lo, hi, margin, lod - 1) + level_cells(lo, hi, margin, lod - 1)
    }
}

fn level(lo: IVec3, hi: IVec3, margin: i32, lod: usize) -> (r: (IVec3, UVec3))
    requires
        lod < 5,
        margin >= 0,
        box_fits(lo, hi, margin as int),
    ensures
        is_level(r.0, r.1, lo, hi, margin as int, cell_edge(lod as int)),
        cell_count(r.1) == level_cells(lo, hi, margin as int, lod as int),
{
    let cell: i32 = lod_cell_edge(lod);
    assert(cell == cell_edge(lod as int));
    let (ox, dx): (i32, u32) = level_axis(lo.x - margin, hi.x + margin, cell);
    let (oy, dy): (i32, u32) = level_axis(lo.y - margin, hi.y + margin, cell);
    let (oz, dz): (i32, u32) = level_axis(lo.z - margin, hi.z + margin, cell);
    (IVec3::new(ox, oy, oz), UVec3 { x: dx, y: dy, z: dz })
}

/// Number of cells.
fn product(d: UVec3) -> (r: u32)
    requires
        cell_count(d) <= u32::MAX,
    ensures
        r == cell_count(d),
{
    if d.z == 0 {
        return 0;
    }
    proof {
        lemma_partial_product(d);
    }
    d.x * d.y * d.z
}

impl Default for DdgiWorldGrid {
    fn default() -> (r: Self)
        ensures
            forall|i: int|
                0 <= i < 5 ==> #[trigger] r.lod_origins[i] == (IVec3 { x: 0, y: 0, z: 0 }),
            forall|i: int|
                0 <= i < 5 ==> #[trigger] r.lod_dims[i] == (UVec3 { x: 0, y: 0, z: 0 }),
            forall|i: int| 0 <= i < 5 ==> #[trigger] r.lod_slot_base[i] == 0,
            r.total_slots == 0,
    {
        let o: IVec3 = IVec3::splat(0);
        let d: UVec3 = UVec3 { x: 0, y: 0, z: 0 };
        DdgiWorldGrid {
            lod_origins: [o, o, o, o, o],
            lod_dims: [d, d, d, d, d],
            lod_slot_base: [0, 0, 0, 0, 0],
            total_slots: 0,
        }
    }
}

impl DdgiWorldGrid {
    /// The grids have the same parts.
    pub open spec fn same_as(&self, o: &Self) -> bool {
        &&& forall|i: int| 0 <= i < 5 ==> #[trigger] self.lod_origins[i] == o.lod_origins[i]
        &&& forall|i: int| 0 <= i < 5 ==> #[trigger] self.lod_dims[i] == o.lod_dims[i]
        &&& forall|i: int| 0 <= i < 5 ==> #[trigger] self.lod_slot_base[i] == o.lod_slot_base[i]
        &&& self.total_slots == o.total_slots
    }

    pub fn same(&self, o: &Self) -> (r: bool)
        ensures
            r == self.same_as(o),
    {
        let mut i: usize = 0;
        while i < 5
            invariant
                i <= 5,
                forall|j: int| 0 <= j < i ==> #[trigger] self.lod_origins[j] == o.lod_origins[j],
                forall|j: int| 0 <= j < i ==> #[trigger] self.lod_dims[j] == o.lod_dims[j],
                forall|j: int| 0 <= j < i ==> #[trigger] self.lod_slot_base[j] == o.lod_slot_base[j],
            decreases 5 - i,
        {
            if self.lod_origins[i] != o.lod_origins[i] || self.lod_dims[i] != o.lod_dims[i]
                || self.lod_slot_base[i] != o.lod_slot_base[i] {
                return false;
            }
            i += 1;
        }
        self.total_slots == o.total_slots
    }

    /// Cells of a level's grid.
    pub fn lod_count(&self, lod: usize) -> (r: u32)
        requires
            lod < DDGI_LODS,
            cell_count(self.lod_dims[lod as int]) <= u32::MAX,
        ensures
            r == cell_count(self.lod_dims[lod as int]),
    {
        product(self.lod_dims[lod])
    }

    /// Slots that a level has: up to where the next one starts.
    pub open spec fn slots_of(&self, lod: int) -> int {
        let end = if lod + 1 < 5 {
            self.lod_slot_base[lod + 1]
        } else {
            self.total_slots
        };
        if end >= self.lod_slot_base[lod] {
            end - self.lod_slot_base[lod]
        } else {
            0
        }
    }

    pub fn lod_slot_count(&self, lod: usize) -> (r: u32)
        requires
            lod < DDGI_LODS,
        ensures
            r == self.slots_of(lod as int),
    {
        let end: u32 = if lod + 1 < 5 { self.lod_slot_base[lod + 1] } else { self.total_slots };
        end.saturating_sub(self.lod_slot_base[lod])
    }

    pub fn lod_cell_size(&self, lod: usize) -> (r: i32)
        requires
            lod < DDGI_LODS,
        ensures
            r == cell_edge(lod as int),
    {
        lod_cell_edge(lod)
    }

    pub fn is_empty(&self) -> (r: bool)
        ensures
            r == (self.total_slots == 0),
    {
        self.total_slots == 0
    }

    /// The levels around the world's box, widened by `margin`. Their slots follow one another.
    pub fn from_world(aabb_min: IVec3, aabb_max: IVec3, margin: i32) -> (r: Self)
        requires
            margin >= 0,
            box_fits(aabb_min, aabb_max, margin as int),
            cells_before(aabb_min, aabb_max, margin as int, 5) <= u32::MAX,
        ensures
            forall|lod: int|
                0 <= lod < 5 ==> is_level(
                    #[trigger] r.lod_origins[lod],
                    r.lod_dims[lod],
                    aabb_min,
                    aabb_max,
                    margin as int,
                    cell_edge(lod),
                ),
            forall|lod: int|
                0 <= lod < 5 ==> #[trigger] r.lod_slot_base[lod] == cells_before(
                    aabb_min,
                    aabb_max,
                    margin as int,
                    lod,
                ),
            r.total_slots == cells_before(aabb_min, aabb_max, margin as int, 5),
    {
        proof {
            lemma_cells_mono(aabb_min, aabb_max, margin as int, 5);
            reveal_with_fuel(cells_before, 6);
        }
        let (o0, d0): (IVec3, UVec3) = level(aabb_min, aabb_max, margin, 0);
        let (o1, d1): (IVec3, UVec3) = level(aabb_min, aabb_max, margin, 1);
        let (o2, d2): (IVec3, UVec3) = level(aabb_min, aabb_max, margin, 2);
        let (o3, d3): (IVec3, UVec3) = level(aabb_min, aabb_max, margin, 3);
        let (o4, d4): (IVec3, UVec3) = level(aabb_min, aabb_max, margin, 4);
        let b1: u32 = product(d0);
        let b2: u32 = b1 + product(d1);
        let b3: u32 = b2 + product(d2);
        let b4: u32 = b3 + product(d3);
        let total: u32 = b4 + product(d4);
        DdgiWorldGrid {
            lod_origins: [o0, o1, o2, o3, o4],
            lod_dims: [d0, d1, d2, d3, d4],
            lod_slot_base: [0, b1, b2, b3, b4],
            total_slots: total,
        }
    }
}

proof fn lemma_cells_mono(lo: IVec3, hi: IVec3, margin: int, n: int)
    requires
        0 <= n <= 5,
        box_fits(lo, hi, margin),
    ensures
        forall|lod: int|
            0 <= lod < n ==> 0 <= #[trigger] cells_before(lo, hi, margin, lod) <= cells_before(
                lo,
                hi,
                margin,
                n,
            ) && 0 <= level_cells(lo, hi, margin, lod) <= cells_before(lo, hi, margin, n),
        0 <= cells_before(lo, hi, margin, n),
    decreases n,
{
    if n > 0 {
        lemma_cells_mono(lo, hi, margin, n - 1);
        let cell = cell_edge(n - 1);
        lemma_span_positive(lo.x - margin, hi.x + margin, cell);
        lemma_span_positive(lo.y - margin, hi.y + margin, cell);
        lemma_span_positive(lo.z - margin, hi.z + margin, cell);
        let a = level_span(lo.x - margin, hi.x + margin, cell);
        let b = level_span(lo.y - margin, hi.y + margin, cell);
        let c = level_span(lo.z - margin, hi.z + margin, cell);
        assert(a * b * c >= 0) by (nonlinear_arith)
            requires
                a >= 1,
                b >= 1,
                c >= 1,
        ;
        assert(cells_before(lo, hi, margin, n) == cells_before(lo, hi, margin, n - 1) + level_cells(
            lo,
            hi,
            margin,
            n - 1,
        ));
    }
}

proof fn lemma_span_positive(lo: int, hi: int, cell: int)
    requires
        cell >= 4,
    ensures
        level_span(lo, hi, cell) >= 1,
{
    let span = hi - level_origin(lo, cell);
    if span > 1 {
        assert((span + cell - 1) / cell >= 1) by (nonlinear_arith)
            requires
                span >= 1,
                cell >= 4,
        ;
    }
}

/// Levels start at multiples of their cells and cover the box: voxel `v` of the widened box lies in
/// every level's grid.
pub proof fn lemma_levels_cover(g: DdgiWorldGrid, lo: IVec3, hi: IVec3, margin: int, lod: int, v: IVec3)
    requires
        0 <= lod < 5,
        is_level(g.lod_origins[lod], g.lod_dims[lod], lo, hi, margin, cell_edge(lod)),
        lo.x - margin <= v.x < hi.x + margin,
        lo.y - margin <= v.y < hi.y + margin,
        lo.z - margin <= v.z < hi.z + margin,
    ensures
        g.lod_origins[lod].x as int % cell_edge(lod) == 0,
        g.lod_origins[lod].y as int % cell_edge(lod) == 0,
        g.lod_origins[lod].z as int % cell_edge(lod) == 0,
        0 <= (v.x - g.lod_origins[lod].x) / cell_edge(lod) < g.lod_dims[lod].x,
        0 <= (v.y - g.lod_origins[lod].y) / cell_edge(lod) < g.lod_dims[lod].y,
        0 <= (v.z - g.lod_origins[lod].z) / cell_edge(lod) < g.lod_dims[lod].z,
{
    let cell = cell_edge(lod);
    lemma_axis_covers(lo.x - margin, hi.x + margin, cell, v.x as int);
    lemma_axis_covers(lo.y - margin, hi.y + margin, cell, v.y as int);
    lemma_axis_covers(lo.z - margin, hi.z + margin, cell, v.z as int);
}

proof fn lemma_axis_covers(lo: int, hi: int, cell: int, v: int)
    requires
        cell >= 4,
        lo <= v < hi,
    ensures
        level_origin(lo, cell) % cell == 0,
        0 <= (v - level_origin(lo, cell)) / cell < level_span(lo, hi, cell),
{
    let o = level_origin(lo, cell);
    vstd::arithmetic::div_mod::lemma_fundamental_div_mod(lo, cell);
    vstd::arithmetic::mul::lemma_mul_is_commutative(cell, lo / cell);
    vstd::arithmetic::div_mod::lemma_mod_multiples_basic(lo / cell, cell);
    assert(o <= lo);
    let d = v - o;
    let span = hi - o;
    if span > 1 {
        assert(0 <= d / cell < (span + cell - 1) / cell) by (nonlinear_arith)
            requires
                0 <= d,
                d + 1 <= span,
                cell >= 4,
        ;
    } else {
        assert(d == 0);
        assert(d / cell == 0) by (nonlinear_arith)
            requires
                d == 0,
                cell >= 4,
        ;
    }
}

/// From the second level on a cell is twice as long as one of the level before. The second level has 16
/// cells along a chunk's edge, and a brick of the finest level two.
pub proof fn lemma_cell_edges(lod: int)
    requires
        1 <= lod < 4,
    ensures
        cell_edge(lod + 1) == 2 * cell_edge(lod),
        cell_edge(1) * 16 == 256,
        cell_edge(0) * DDGI_LOD0_CELLS_PER_BRICK == DDGI_LOD0_BRICK_VOXELS,
        DDGI_LOD0_BRICK_VOXELS * DDGI_LOD0_BRICKS_PER_AXIS == 256,
{
}

/// A level starts at a whole cell, less than one cell below the box with its margin, on each axis, and
/// has no more cells than it takes to reach the other end; its slots are as many as its cells.
pub proof fn lemma_levels_are_tight(
    o: IVec3,
    d: UVec3,
    lo: IVec3,
    hi: IVec3,
    margin: int,
    lod: int,
)
    requires
        0 <= lod < 5,
        is_level(o, d, lo, hi, margin, cell_edge(lod)),
    ensures
        ({
            let c = cell_edge(lod);
            &&& o.x as int % c == 0 && o.x <= lo.x - margin < o.x + c
            &&& o.y as int % c == 0 && o.y <= lo.y - margin < o.y + c
            &&& o.z as int % c == 0 && o.z <= lo.z - margin < o.z + c
            &&& o.x + d.x * c >= hi.x + margin && d.x >= 1
            &&& o.y + d.y * c >= hi.y + margin && d.y >= 1
            &&& o.z + d.z * c >= hi.z + margin && d.z >= 1
            &&& d.x > 1 ==> o.x + (d.x - 1) * c < hi.x + margin
            &&& d.y > 1 ==> o.y + (d.y - 1) * c < hi.y + margin
            &&& d.z > 1 ==> o.z + (d.z - 1) * c < hi.z + margin
        }),
        cells_before(lo, hi, margin, lod + 1) - cells_before(lo, hi, margin, lod) == d.x * d.y * d.z,
        cells_before(lo, hi, margin, 0) == 0,
{
    let c = cell_edge(lod);
    lemma_axis_tight(lo.x - margin, hi.x + margin, c);
    lemma_axis_tight(lo.y - margin, hi.y + margin, c);
    lemma_axis_tight(lo.z - margin, hi.z + margin, c);
}

proof fn lemma_axis_tight(lo: int, hi: int, c: int)
    requires
        c == 4 || c == 16 || c == 32 || c == 64 || c == 128,
    ensures
        ({
            let (o, d) = (level_origin(lo, c), level_span(lo, hi, c));
            &&& o % c == 0 && o <= lo < o + c
            &&& o + d * c >= hi && d >= 1
            &&& d > 1 ==> o + (d - 1) * c < hi
        }),
{
}

/// Two layouts count as the same when nothing of them differs: no level's origin or size on any axis,
/// no first slot, and not the number of slots.
pub proof fn lemma_same_layout(a: DdgiWorldGrid, b: DdgiWorldGrid, lod: int)
    requires
        0 <= lod < 5,
        a.same_as(&b),
    ensures
        a.lod_origins[lod].x == b.lod_origins[lod].x,
        a.lod_origins[lod].y == b.lod_origins[lod].y,
        a.lod_origins[lod].z == b.lod_origins[lod].z,
        a.lod_dims[lod].x == b.lod_dims[lod].x,
        a.lod_dims[lod].y == b.lod_dims[lod].y,
        a.lod_dims[lod].z == b.lod_dims[lod].z,
        a.lod_slot_base[lod] == b.lod_slot_base[lod],
        a.total_slots == b.total_slots,
        a.slots_of(lod) == b.slots_of(lod),
        a.same_as(&a) && b.same_as(&a),
{
}

} // verus!
