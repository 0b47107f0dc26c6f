//! Reading voxels back from the words.

use super::builder::{chunk_index_pos, index_pos, BrickMapBuilder};
use super::grid::window_ok;
use super::lookup::desc_in;
use super::tree::{
    child_extent, half_word, is_child, lemma_cell_on_axis, node_at, node_shape, voxel_in, wire_word,
    NodeModel, NodeSlot,
};
use super::wire::{BrickMapBuffers, BrickMapGlobals, CHUNK_SIZE, TREE_BASE};
use crate::bits::{
    bit, join_mask, lemma_join_mask, lemma_rank_in_range, ones, ones_below, rank, test_bit,
};
use crate::math::{div_floor, rem_floor, ChunkCoord, IVec3};
use vstd::prelude::*;

verus! {

/// The mask of the node at word `node`.
pub open spec fn mask_at(words: Seq<u32>, node: int) -> u64 {
    join_mask(words[node], words[node + 1])
}

/// The palette index of the node at word `node`.
pub open spec fn palette_at(words: Seq<u32>, node: int) -> u16 {
    (words[node + 2] & 0xFFFF) as u16
}

/// Cell of voxel `(x, y, z)` in a node whose children span `step` voxels.
pub open spec fn cell_of(step: int, x: int, y: int, z: int) -> int {
    z / step * 16 + y / step * 4 + x / step
}

/// Word of the child that stands for `cell`.
pub open spec fn child_at(words: Seq<u32>, base: int, node: int, cell: int) -> int {
    base + words[node + 3 + ones_below(mask_at(words, node), cell as nat)]
}

/// The palette index of voxel `(x, y, z)` below the node at `node`.
pub open spec fn read_voxel(
    words: Seq<u32>,
    base: int,
    node: int,
    level: int,
    x: int,
    y: int,
    z: int,
) -> u16
    decreases 4 - level,
{
    let mask = mask_at(words, node);
    let step = child_extent(level);
    let cell = cell_of(step, x, y, z);
    if mask == 0 || !bit(mask, cell) || !(0 <= level <= 3) {
        palette_at(words, node)
    } else if level == 3 {
        half_word(words[node + 3 + cell / 2], cell % 2)
    } else {
        read_voxel(
            words,
            base,
            child_at(words, base, node, cell),
            level + 1,
            x % step,
            y % step,
            z % step,
        )
    }
}

/// Something may be in the 16-voxel cell at `(x, y, z)` below the node at `node`.
pub open spec fn cell_filled(
    words: Seq<u32>,
    base: int,
    node: int,
    level: int,
    x: int,
    y: int,
    z: int,
) -> bool
    decreases 3 - level,
{
    let mask = mask_at(words, node);
    let step = child_extent(level);
    let cell = cell_of(step, x, y, z);
    if mask == 0 {
        palette_at(words, node) != 0
    } else if !(0 <= level <= 1) {
        true
    } else if !bit(mask, cell) {
        palette_at(words, node) != 0
    } else {
        cell_filled(
            words,
            base,
            child_at(words, base, node, cell),
            level + 1,
            x % step,
            y % step,
            z % step,
        )
    }
}

/// The node at `node` and everything below it lie inside the words.
pub open spec fn node_readable(words: Seq<u32>, base: int, node: int, level: int) -> bool
    decreases 4 - level,
{
    let mask = mask_at(words, node);
    &&& 0 <= node
    &&& node + 3 <= words.len()
    &&& mask != 0 && level >= 3 ==> node + 35 <= words.len()
    &&& mask != 0 && level < 3 ==> node + 3 + ones(mask) <= words.len()
    &&& mask != 0 && 0 <= level < 3 ==> forall|s: int|
        0 <= s < ones(mask) ==> node_readable(
            words,
            base,
            base + #[trigger] words[node + 3 + s],
            level + 1,
        )
}

/// Every chunk that the index leads to can be read.
pub open spec fn words_readable(words: Seq<u32>) -> bool {
    &&& TREE_BASE <= words.len() <= u32::MAX
    &&& forall|p: int|
        0 <= p < TREE_BASE && #[trigger] words[p] != 0 ==> node_readable(
            words,
            words[p] - 1,
            words[p] - 1,
            0,
        )
}

/// The voxel at a world position: `None` is air or outside the window.
pub open spec fn voxel_at(words: Seq<u32>, origin: IVec3, dims: IVec3, v: IVec3) -> Option<u16> {
    let chunk = IVec3 {
        x: (v.x as int / 256) as i32,
        y: (v.y as int / 256) as i32,
        z: (v.z as int / 256) as i32,
    };
    match index_pos(origin, dims, chunk) {
        Some(p) => {
            let base = words[p] - 1;
            let r = read_voxel(
                words,
                base,
                base,
                0,
                v.x as int % 256,
                v.y as int % 256,
                v.z as int % 256,
            );
            if words[p] == 0 || r == 0 {
                None
            } else {
                Some(r)
            }
        },
        None => None,
    }
}

/// The 16-voxel cell `cc` may hold something.
pub open spec fn cell_at(words: Seq<u32>, origin: IVec3, dims: IVec3, cc: IVec3) -> bool {
    let chunk = IVec3 {
        x: (16 * cc.x / 256) as i32,
        y: (16 * cc.y / 256) as i32,
        z: (16 * cc.z / 256) as i32,
    };
    match index_pos(origin, dims, chunk) {
        Some(p) => words[p] != 0 && cell_filled(
            words,
            words[p] - 1,
            words[p] - 1,
            0,
            16 * cc.x % 256,
            16 * cc.y % 256,
            16 * cc.z % 256,
        ),
        None => false,
    }
}

/// Mask and palette index of the node at `node`.
pub fn read_node(b_struct: &[u32], node: usize) -> (r: (u64, u32))
    requires
        node + 3 <= b_struct.len(),
    ensures
        r.0 == mask_at(b_struct@, node as int),
        r.1 == palette_at(b_struct@, node as int),
{
    let w: u32 = b_struct[node + 2];
    assert((w & 0xFFFF) < 0x1_0000) by (bit_vector);
    (((b_struct[node + 1] as u64) << 32) | (b_struct[node] as u64), w & 0xFFFF)
}

/// A read-only view of a volume's words.
pub struct BrickMapView<'a> {
    b_struct: &'a [u32],
    origin: IVec3,
    dims: IVec3,
}

/// Place of voxel `v` on one axis of a node whose children span `step` voxels.
fn pick(v: i32, step: i32) -> (r: u32)
    requires
        0 <= v < 256,
        step == 64 || step == 16 || step == 4 || step == 1,
        v < 4 * step,
    ensures
        r == v as int / step as int,
        r < 4,
{
    (v / step) as u32
}

/// The window that a map's globals give.
pub open spec fn window_of(g: BrickMapGlobals) -> (IVec3, IVec3) {
    (
        IVec3 { x: g.index_origin_x, y: g.index_origin_y, z: g.index_origin_z },
        IVec3 {
            x: g.index_dims_x as i32,
            y: g.index_dims_y as i32,
            z: g.index_dims_z as i32,
        },
    )
}

impl<'a> BrickMapView<'a> {
    pub closed spec fn words(&self) -> Seq<u32> {
        self.b_struct@
    }

    pub closed spec fn window(&self) -> (IVec3, IVec3) {
        (self.origin, self.dims)
    }

    /// The window fits the index and every chunk can be read.
    pub open spec fn wf(&self) -> bool {
        window_ok(self.window().1) && words_readable(self.words())
    }

    /// A view of a builder's buffers.
    pub fn new(buffers: &'a BrickMapBuffers) -> (r: Self)
        requires
            buffers.globals.index_dims_x <= 64,
            buffers.globals.index_dims_y <= 64,
            buffers.globals.index_dims_z <= 64,
        ensures
            r.words() == buffers.b_struct@,
            r.window() == window_of(buffers.globals),
            r.window().0 == (IVec3 {
                x: buffers.globals.index_origin_x,
                y: buffers.globals.index_origin_y,
                z: buffers.globals.index_origin_z,
            }),
            r.window().1 == (IVec3 {
                x: buffers.globals.index_dims_x as i32,
                y: buffers.globals.index_dims_y as i32,
                z: buffers.globals.index_dims_z as i32,
            }),
            window_ok(r.window().1),
    {
        let g = &buffers.globals;
        BrickMapView {
            b_struct: buffers.b_struct.as_slice(),
            origin: IVec3::new(g.index_origin_x, g.index_origin_y, g.index_origin_z),
            dims: IVec3::new(
                g.index_dims_x as i32,
                g.index_dims_y as i32,
                g.index_dims_z as i32,
            ),
        }
    }

    /// A view of bare words.
    pub fn from_parts(b_struct: &'a [u32], origin: IVec3, dims: IVec3) -> (r: Self)
        ensures
            r.words() == b_struct@,
            r.window() == (origin, dims),
    {
        BrickMapView { b_struct, origin, dims }
    }

    /// First word of a chunk's block; `None` when the chunk has none or is outside the window.
    pub fn chunk_base(&self, chunk: IVec3) -> (r: Option<usize>)
        requires
            window_ok(self.window().1),
            TREE_BASE <= self.words().len(),
        ensures
            match r {
                Some(b) => index_pos(self.window().0, self.window().1, chunk) is Some
                    && self.words()[index_pos(self.window().0, self.window().1, chunk)->0] == b + 1,
                None => index_pos(self.window().0, self.window().1, chunk) is None
                    || self.words()[index_pos(self.window().0, self.window().1, chunk)->0] == 0,
            },
    {
        match chunk_index_pos(self.origin, self.dims, chunk) {
            Some(ip) => {
                let entry: u32 = self.b_struct[ip];
                if entry == 0 {
                    None
                } else {
                    Some(entry as usize - 1)
                }
            },
            None => None,
        }
    }

    pub fn b_struct(&self) -> (r: &[u32])
        ensures
            r@ == self.words(),
    {
        self.b_struct
    }

    pub fn origin(&self) -> (r: IVec3)
        ensures
            r == self.window().0,
    {
        self.origin
    }

    pub fn dims(&self) -> (r: IVec3)
        ensures
            r == self.window().1,
    {
        self.dims
    }

    /// The palette index of a voxel; `None` for air and outside the window.
    pub fn get_voxel(&self, voxel: IVec3) -> (r: Option<u16>)
        requires
            self.wf(),
        ensures
            r == voxel_at(self.words(), self.window().0, self.window().1, voxel),
    {
        let chunk: IVec3 = IVec3::new(
            div_floor(voxel.x, CHUNK_SIZE),
            div_floor(voxel.y, CHUNK_SIZE),
            div_floor(voxel.z, CHUNK_SIZE),
        );
        let base: usize = match self.chunk_base(chunk) {
            Some(b) => b,
            None => {
                return None;
            },
        };
        let ghost words = self.words();
        let mut x: i32 = rem_floor(voxel.x, CHUNK_SIZE);
        let mut y: i32 = rem_floor(voxel.y, CHUNK_SIZE);
        let mut z: i32 = rem_floor(voxel.z, CHUNK_SIZE);
        let ghost want = read_voxel(words, base as int, base as int, 0, x as int, y as int, z as int);
        let mut node: usize = base;
        let mut level: u8 = 0;
        let mut step: i32 = 64;
        loop
            invariant
                self.wf(),
                words == self.words(),
                level <= 3,
                step == child_extent(level as int),
                0 <= x < 4 * step,
                0 <= y < 4 * step,
                0 <= z < 4 * step,
                node_readable(words, base as int, node as int, level as int),
                base < u32::MAX,
                want == read_voxel(
                    words,
                    base as int,
                    node as int,
                    level as int,
                    x as int,
                    y as int,
                    z as int,
                ),
                want == read_voxel(
                    words,
                    base as int,
                    base as int,
                    0,
                    voxel.x as int % 256,
                    voxel.y as int % 256,
                    voxel.z as int % 256,
                ),
                index_pos(self.window().0, self.window().1, chunk) is Some,
                self.words()[index_pos(self.window().0, self.window().1, chunk)->0] == base + 1,
                chunk == (IVec3 {
                    x: (voxel.x as int / 256) as i32,
                    y: (voxel.y as int / 256) as i32,
                    z: (voxel.z as int / 256) as i32,
                }),
            decreases 4 - level,
        {
            let (mask, pal) = read_node(self.b_struct, node);
            let (ix, iy, iz): (u32, u32, u32) = (pick(x, step), pick(y, step), pick(z, step));
            let ci: u32 = iz * 16 + iy * 4 + ix;
            assert(ci == cell_of(step as int, x as int, y as int, z as int));
            if mask == 0 || !test_bit(mask, ci) {
                if pal != 0 {
                    return Some(pal as u16);
                } else {
                    return None;
                }
            }
            if level == 3 {
                let w: u32 = self.b_struct[node + 3 + (ci / 2) as usize];
                assert((w & 0xFFFF) < 0x1_0000 && ((w >> 16) & 0xFFFF) < 0x1_0000) by (bit_vector);
                let leaf: u32 = if ci % 2 == 0 { w & 0xFFFF } else { (w >> 16) & 0xFFFF };
                if leaf != 0 {
                    return Some(leaf as u16);
                } else {
                    return None;
                }
            }
            let slot: u32 = rank(mask, ci);
            proof {
                lemma_rank_in_range(mask, ci as int);
                assert(node_readable(
                    words,
                    base as int,
                    base + words[node + 3 + slot as int],
                    level + 1,
                ));
            }
            node = base + self.b_struct[node + 3 + slot as usize] as usize;
            x = x % step;
            y = y % step;
            z = z % step;
            level = level + 1;
            step = step / 4;
        }
    }

    /// Whether the 16-voxel cell `cc` may hold something.
    pub fn cell_occupied(&self, cc: IVec3) -> (r: bool)
        requires
            self.wf(),
            i32::MIN <= 16 * cc.x <= i32::MAX,
            i32::MIN <= 16 * cc.y <= i32::MAX,
            i32::MIN <= 16 * cc.z <= i32::MAX,
        ensures
            r == cell_at(self.words(), self.window().0, self.window().1, cc),
    {
        let (vx, vy, vz): (i32, i32, i32) = (cc.x * 16, cc.y * 16, cc.z * 16);
        let chunk: IVec3 = IVec3::new(
            div_floor(vx, CHUNK_SIZE),
            div_floor(vy, CHUNK_SIZE),
            div_floor(vz, CHUNK_SIZE),
        );
        let base: usize = match self.chunk_base(chunk) {
            Some(b) => b,
            None => {
                return false;
            },
        };
        let ghost words = self.words();
        let mut x: i32 = rem_floor(vx, CHUNK_SIZE);
        let mut y: i32 = rem_floor(vy, CHUNK_SIZE);
        let mut z: i32 = rem_floor(vz, CHUNK_SIZE);
        let ghost want = cell_filled(words, base as int, base as int, 0, x as int, y as int, z as int);
        let mut node: usize = base;
        let mut level: u8 = 0;
        let mut step: i32 = 64;
        loop
            invariant
                self.wf(),
                words == self.words(),
                level <= 2,
                step == child_extent(level as int),
                0 <= x < 4 * step,
                0 <= y < 4 * step,
                0 <= z < 4 * step,
                node_readable(words, base as int, node as int, level as int),
                base < u32::MAX,
                want == cell_filled(
                    words,
                    base as int,
                    node as int,
                    level as int,
                    x as int,
                    y as int,
                    z as int,
                ),
                want == cell_at(self.words(), self.window().0, self.window().1, cc),
            decreases 3 - level,
        {
            let (mask, pal) = read_node(self.b_struct, node);
            if mask == 0 {
                return pal != 0;
            }
            if level == 2 {
                return true;
            }
            let (ix, iy, iz): (u32, u32, u32) = (pick(x, step), pick(y, step), pick(z, step));
            let ci: u32 = iz * 16 + iy * 4 + ix;
            assert(ci == cell_of(step as int, x as int, y as int, z as int));
            if !test_bit(mask, ci) {
                return pal != 0;
            }
            let slot: u32 = rank(mask, ci);
            proof {
                lemma_rank_in_range(mask, ci as int);
                assert(node_readable(
                    words,
                    base as int,
                    base + words[node + 3 + slot as int],
                    level + 1,
                ));
            }
            node = base + self.b_struct[node + 3 + slot as usize] as usize;
            x = x % step;
            y = y % step;
            z = z % step;
            level = level + 1;
            step = step / 4;
        }
    }
}

/// On one axis, a voxel of a cell is in the same child as the cell, at its offset from it.
proof fn lemma_child_axis(step: int, x: int, d: int)
    requires
        step == 16 || step == 64,
        0 <= x,
        x % 16 == 0,
        0 <= d < 16,
    ensures
        (x + d) / step == x / step,
        (x + d) % step == x % step + d,
        (x % step) % 16 == 0,
        0 <= x % step,
{
    let (q, r) = (x / step, x % step);
    assert(x == q * step + r) by (nonlinear_arith)
        requires
            q == x / step,
            r == x % step,
            step > 0,
    ;
    if step == 16 {
        assert(r == 0);
    } else {
        assert(r % 16 == 0 && 0 <= r < 64);
    }
    assert(x + d == q * step + (r + d));
    vstd::arithmetic::div_mod::lemma_fundamental_div_mod_converse(x + d, step, q, r + d);
}

/// A cell that is not filled holds no voxel.
proof fn lemma_cell_empty(
    words: Seq<u32>,
    base: int,
    node: int,
    level: int,
    x: int,
    y: int,
    z: int,
    dx: int,
    dy: int,
    dz: int,
)
    requires
        0 <= level <= 2,
        !cell_filled(words, base, node, level, x, y, z),
        x >= 0 && y >= 0 && z >= 0,
        x % 16 == 0,
        y % 16 == 0,
        z % 16 == 0,
        0 <= dx < 16,
        0 <= dy < 16,
        0 <= dz < 16,
    ensures
        read_voxel(words, base, node, level, x + dx, y + dy, z + dz) == 0,
    decreases 3 - level,
{
    let step = child_extent(level);
    let mask = mask_at(words, node);
    if mask != 0 && level < 2 {
        let cell = cell_of(step, x, y, z);
        lemma_child_axis(step, x, dx);
        lemma_child_axis(step, y, dy);
        lemma_child_axis(step, z, dz);
        assert(cell_of(step, x + dx, y + dy, z + dz) == cell);
        if bit(mask, cell) {
            lemma_cell_empty(
                words,
                base,
                child_at(words, base, node, cell),
                level + 1,
                x % step,
                y % step,
                z % step,
                dx,
                dy,
                dz,
            );
        }
    }
}

/// On one axis, a voxel of cell `c` is in the chunk of the cell, at its offset from the cell.
proof fn lemma_cell_axis(c: int, v: int)
    requires
        16 * c <= v < 16 * c + 16,
    ensures
        v / 256 == 16 * c / 256,
        v % 256 == 16 * c % 256 + (v - 16 * c),
        (16 * c % 256) % 16 == 0,
        16 * c % 256 >= 0,
{
    let (q, r, d) = (c / 16, c % 16, v - 16 * c);
    assert(c == 16 * q + r && 0 <= r < 16);
    vstd::arithmetic::div_mod::lemma_fundamental_div_mod_converse(v, 256, q, 16 * r + d);
    vstd::arithmetic::div_mod::lemma_fundamental_div_mod_converse(16 * c, 256, q, 16 * r);
}

/// Where [`BrickMapView::cell_occupied`] says no, [`BrickMapView::get_voxel`] finds nothing in all
/// 16 x 16 x 16 voxels of the cell.
pub proof fn lemma_empty_cell_has_no_voxel(
    words: Seq<u32>,
    origin: IVec3,
    dims: IVec3,
    cc: IVec3,
    v: IVec3,
)
    requires
        !cell_at(words, origin, dims, cc),
        16 * cc.x <= v.x < 16 * cc.x + 16,
        16 * cc.y <= v.y < 16 * cc.y + 16,
        16 * cc.z <= v.z < 16 * cc.z + 16,
    ensures
        voxel_at(words, origin, dims, v) is None,
{
    let (x, y, z) = (16 * cc.x, 16 * cc.y, 16 * cc.z);
    lemma_cell_axis(cc.x as int, v.x as int);
    lemma_cell_axis(cc.y as int, v.y as int);
    lemma_cell_axis(cc.z as int, v.z as int);
    let chunk = IVec3 { x: (x / 256) as i32, y: (y / 256) as i32, z: (z / 256) as i32 };
    if let Some(p) = index_pos(origin, dims, chunk) {
        if words[p] != 0 {
            lemma_cell_empty(
                words,
                words[p] - 1,
                words[p] - 1,
                0,
                x % 256,
                y % 256,
                z % 256,
                v.x - x,
                v.y - y,
                v.z - z,
            );
        }
    }
}

/// What a node's content says when it stands in the words.
proof fn lemma_node_reads(words: Seq<u32>, at: int, n: NodeModel, slots: Seq<NodeSlot>)
    requires
        node_at(words, at, n, slots),
        node_shape(n),
    ensures
        mask_at(words, at) == n.mask,
        palette_at(words, at) == n.palette,
{
    assert(words[at + 0] == wire_word(n, slots, 0));
    assert(words[at + 1] == wire_word(n, slots, 1));
    assert(words[at + 2] == wire_word(n, slots, 2));
    lemma_join_mask(n.mask);
    let (p, r) = (n.palette, n.rep);
    assert((((p as u32) | ((r as u32) << 16)) & 0xFFFF) as u16 == p) by (bit_vector);
}

/// A chunk of the builder's volume, and one node of its tree, as the words have them.
pub open spec fn held(b: &BrickMapBuilder, c: ChunkCoord, id: u32) -> bool {
    b.wf() && b.resident(c) && b.tree_of(c).dom().contains(id)
}

/// Reading the words gives the voxels of the tree.
proof fn lemma_reads_node(b: &BrickMapBuilder, c: ChunkCoord, id: u32, x: int, y: int, z: int)
    requires
        held(b, c, id),
        ({
            let e = 4 * child_extent(b.tree_of(c)[id].level);
            0 <= x < e && 0 <= y < e && 0 <= z < e
        }),
    ensures
        read_voxel(
            b.words(),
            b.base_of(c),
            b.base_of(c) + b.offset_of(c, id),
            b.tree_of(c)[id].level,
            x,
            y,
            z,
        ) == voxel_in(b.tree_of(c), id, x, y, z),
    decreases 4 - b.tree_of(c)[id].level,
{
    let m = b.tree_of(c);
    let n = m[id];
    let slots = b.blocks()[c].slots;
    let at = b.base_of(c) + b.offset_of(c, id);
    b.lemma_block_reads(c, id);
    lemma_node_reads(b.words(), at, n, slots);
    let step = child_extent(n.level);
    let cell = cell_of(step, x, y, z);
    assert(0 <= x / step < 4 && 0 <= y / step < 4 && 0 <= z / step < 4);
    assert(0 <= cell < 64);
    if n.mask != 0 && bit(n.mask, cell) {
        if n.level == 3 {
            assert(b.words()[at + (3 + cell / 2)] == wire_word(n, slots, 3 + cell / 2));
        } else {
            lemma_rank_in_range(n.mask, cell);
            let k = ones_below(n.mask, cell as nat) as int;
            let ch = n.children[k];
            assert(is_child(m, id, k, ch));
            assert(b.words()[at + (3 + k)] == wire_word(n, slots, 3 + k));
            assert(node_shape(m[ch]));
            assert(step == 4 * child_extent(m[ch].level));
            lemma_reads_node(b, c, ch, x % step, y % step, z % step);
        }
    }
}

/// Every node of a block can be read.
proof fn lemma_node_readable(b: &BrickMapBuilder, c: ChunkCoord, id: u32)
    requires
        held(b, c, id),
    ensures
        node_readable(
            b.words(),
            b.base_of(c),
            b.base_of(c) + b.offset_of(c, id),
            b.tree_of(c)[id].level,
        ),
    decreases 4 - b.tree_of(c)[id].level,
{
    let m = b.tree_of(c);
    let n = m[id];
    let slots = b.blocks()[c].slots;
    let at = b.base_of(c) + b.offset_of(c, id);
    b.lemma_block_reads(c, id);
    lemma_node_reads(b.words(), at, n, slots);
    if n.mask != 0 && n.level < 3 {
        assert forall|s: int| 0 <= s < ones(n.mask) implies node_readable(
            b.words(),
            b.base_of(c),
            b.base_of(c) + #[trigger] b.words()[at + 3 + s],
            n.level + 1,
        ) by {
            let ch = n.children[s];
            assert(is_child(m, id, s, ch));
            assert(b.words()[at + (3 + s)] == wire_word(n, slots, 3 + s));
            lemma_node_readable(b, c, ch);
        }
    }
}

/// A builder's words can always be read through a view, and its globals give the window.
pub proof fn lemma_builder_is_readable(b: &BrickMapBuilder)
    requires
        b.wf(),
    ensures
        words_readable(b.words()),
        window_ok(b.window_spec().1),
        b.globals().index_origin_x == b.window_spec().0.x,
        b.globals().index_origin_y == b.window_spec().0.y,
        b.globals().index_origin_z == b.window_spec().0.z,
        b.globals().index_dims_x == b.window_spec().1.x,
        b.globals().index_dims_y == b.window_spec().1.y,
        b.globals().index_dims_z == b.window_spec().1.z,
{
    b.lemma_len();
    assert forall|p: int| 0 <= p < TREE_BASE && #[trigger] b.words()[p] != 0 implies node_readable(
        b.words(),
        b.words()[p] - 1,
        b.words()[p] - 1,
        0,
    ) by {
        let c = b.lemma_index_entry(p);
        b.lemma_block_reads(c, 0);
        lemma_node_readable(b, c, 0);
    }
}

/// A view of a builder's words reads the voxels of the trees that its blocks hold, and nothing else:
/// air and chunks without a block read as `None`.
pub proof fn lemma_view_reads_trees(b: &BrickMapBuilder, v: IVec3)
    requires
        b.wf(),
    ensures
        ({
            let c = ChunkCoord(
                IVec3 {
                    x: (v.x as int / 256) as i32,
                    y: (v.y as int / 256) as i32,
                    z: (v.z as int / 256) as i32,
                },
            );
            let t = voxel_in(
                b.tree_of(c),
                0,
                v.x as int % 256,
                v.y as int % 256,
                v.z as int % 256,
            );
            voxel_at(b.words(), b.window_spec().0, b.window_spec().1, v) == (if b.resident(c) && t != 0 {
                Some(t)
            } else {
                None
            })
        }),
{
    let c = ChunkCoord(
        IVec3 {
            x: (v.x as int / 256) as i32,
            y: (v.y as int / 256) as i32,
            z: (v.z as int / 256) as i32,
        },
    );
    b.lemma_len();
    if b.resident(c) {
        b.lemma_block_reads(c, 0);
        lemma_reads_node(b, c, 0, v.x as int % 256, v.y as int % 256, v.z as int % 256);
    } else if b.pos_of(c) is Some {
        let p = b.pos_of(c)->0;
        super::builder::lemma_index_pos(b.window_spec().0, b.window_spec().1, c.0, c.0);
        if b.words()[p] != 0 {
            let d = b.lemma_index_entry(p);
            super::builder::lemma_index_pos(b.window_spec().0, b.window_spec().1, c.0, d.0);
        }
    }
}

/// A view of a builder's words has the builder's window.
pub proof fn lemma_view_has_the_window(b: &BrickMapBuilder)
    requires
        b.wf(),
    ensures
        window_of(b.globals()) == b.window_spec(),
{
    lemma_builder_is_readable(b);
}

proof fn lemma_fills_node(b: &BrickMapBuilder, c: ChunkCoord, id: u32, x: int, y: int, z: int)
    requires
        held(b, c, id),
        b.tree_of(c)[id].level <= 2,
        ({
            let e = 4 * child_extent(b.tree_of(c)[id].level);
            0 <= x < e && 0 <= y < e && 0 <= z < e
        }),
    ensures
        ({
            let d = desc_in(b.tree_of(c), id, x, y, z, 2);
            cell_filled(
                b.words(),
                b.base_of(c),
                b.base_of(c) + b.offset_of(c, id),
                b.tree_of(c)[id].level,
                x,
                y,
                z,
            ) <==> d.mask != 0 || d.palette != 0
        }),
    decreases 4 - b.tree_of(c)[id].level,
{
    let m = b.tree_of(c);
    let n = m[id];
    let slots = b.blocks()[c].slots;
    let at = b.base_of(c) + b.offset_of(c, id);
    b.lemma_block_reads(c, id);
    lemma_node_reads(b.words(), at, n, slots);
    let step = child_extent(n.level);
    let cell = cell_of(step, x, y, z);
    lemma_cell_on_axis(x, step);
    lemma_cell_on_axis(y, step);
    lemma_cell_on_axis(z, step);
    assert(0 <= cell < 64);
    if n.mask == 0 {
        if bit(n.mask, cell) {
            super::lookup::lemma_zero_bit(n.mask, cell);
        }
    } else if n.level < 2 && bit(n.mask, cell) {
        lemma_rank_in_range(n.mask, cell);
        let k = ones_below(n.mask, cell as nat) as int;
        let ch = n.children[k];
        assert(is_child(m, id, k, ch));
        assert(b.words()[at + (3 + k)] == wire_word(n, slots, 3 + k));
        assert(node_shape(m[ch]));
        assert(step == 4 * child_extent(m[ch].level));
        lemma_fills_node(b, c, ch, x % step, y % step, z % step);
    }
}

/// A cell of 16 voxels counts as filled exactly when its chunk has a block in which the cell is split
/// further or is all of one matter: the cell `(x, y, z)` starts at the voxel sixteen times that, on
/// each axis, and an empty cell never counts.
pub proof fn lemma_filled_cells(b: &BrickMapBuilder, cc: IVec3, c: ChunkCoord, x: int, y: int, z: int)
    requires
        b.wf(),
        0 <= x < 16,
        0 <= y < 16,
        0 <= z < 16,
        cc.x == 16 * c.0.x + x,
        cc.y == 16 * c.0.y + y,
        cc.z == 16 * c.0.z + z,
    ensures
        ({
            let d = desc_in(b.tree_of(c), 0, 16 * x, 16 * y, 16 * z, 2);
            cell_at(b.words(), b.window_spec().0, b.window_spec().1, cc) <==> b.resident(c) && (d.mask
                != 0 || d.palette != 0)
        }),
{
    let (o, w) = b.window_spec();
    b.lemma_len();
    assert(16 * cc.x / 256 == c.0.x && 16 * cc.x % 256 == 16 * x);
    assert(16 * cc.y / 256 == c.0.y && 16 * cc.y % 256 == 16 * y);
    assert(16 * cc.z / 256 == c.0.z && 16 * cc.z % 256 == 16 * z);
    if b.resident(c) {
        b.lemma_block_reads(c, 0);
        lemma_fills_node(b, c, 0, 16 * x, 16 * y, 16 * z);
    } else if b.pos_of(c) is Some {
        let p = b.pos_of(c)->0;
        super::builder::lemma_index_pos(o, w, c.0, c.0);
        if b.words()[p] != 0 {
            let e = b.lemma_index_entry(p);
            super::builder::lemma_index_pos(o, w, c.0, e.0);
        }
    }
}

} // verus!
