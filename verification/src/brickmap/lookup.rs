//! Looking voxels and nodes up in a chunk tree.

use super::tree::{
    child_extent, is_child, lemma_cell_on_axis, node_shape, tree_wf, voxel_in, ChunkTree, TreeModel,
    TreeNode,
};
use crate::bits::{bit, lemma_rank_in_range, ones_below, rank, test_bit};
use vstd::prelude::*;

verus! {

/// A node as a ray meets it.
#[derive(Debug, Clone, Copy, PartialEq, Eq, Structural)]
pub struct NodeDesc {
    /// Cells that are split further.
    pub mask: u64,
    /// Palette index of the other cells.
    pub palette: u16,
}

/// Cell of voxel `(x, y, z)` in a node whose cells have `step` voxels per edge.
pub open spec fn cell_in(step: int, x: int, y: int, z: int) -> int {
    z / step % 4 * 16 + y / step % 4 * 4 + x / step % 4
}

/// The node of level `level` that holds voxel `(x, y, z)` of node `id`. Where a coarser node is
/// uniform there, it is that node's colour with nothing split.
pub open spec fn desc_in(m: TreeModel, id: u32, x: int, y: int, z: int, level: int) -> NodeDesc
    decreases 4 - m[id].level,
{
    let n = m[id];
    let step = child_extent(n.level);
    let cell = z / step * 16 + y / step * 4 + x / step;
    if n.level >= level || !(0 <= n.level < 3) {
        NodeDesc { mask: n.mask, palette: n.palette }
    } else if !bit(n.mask, cell) {
        NodeDesc { mask: 0, palette: n.palette }
    } else {
        let c = n.children[ones_below(n.mask, cell as nat) as int];
        if m[c].level == n.level + 1 {
            desc_in(m, c, x % step, y % step, z % step, level)
        } else {
            NodeDesc { mask: 0, palette: n.palette }
        }
    }
}

/// The palette index of a voxel of a chunk.
pub open spec fn voxel_of(t: ChunkTree, x: int, y: int, z: int) -> u16 {
    voxel_in(t.model(), 0, x, y, z)
}

pub proof fn lemma_zero_bit(mask: u64, i: int)
    requires
        0 <= i < 64,
        bit(mask, i),
    ensures
        mask != 0,
{
    let k = i as u64;
    assert((0u64 >> k) & 1 == 0) by (bit_vector);
}

/// A clear bit of the node at any level tells the voxel: it has the node's colour.
pub proof fn lemma_clear_bit(m: TreeModel, id: u32, x: int, y: int, z: int, level: int)
    requires
        tree_wf(m),
        m.dom().contains(id),
        m[id].level <= level <= 3,
        0 <= x < 4 * child_extent(m[id].level),
        0 <= y < 4 * child_extent(m[id].level),
        0 <= z < 4 * child_extent(m[id].level),
        !bit(desc_in(m, id, x, y, z, level).mask, cell_in(child_extent(level), x, y, z)),
    ensures
        voxel_in(m, id, x, y, z) == desc_in(m, id, x, y, z, level).palette,
    decreases 4 - m[id].level,
{
    let n = m[id];
    let step = child_extent(n.level);
    let cell = z / step * 16 + y / step * 4 + x / step;
    assert(0 <= n.level <= 3);
    lemma_cell_on_axis(x, step);
    lemma_cell_on_axis(y, step);
    lemma_cell_on_axis(z, step);
    if n.level < level && bit(n.mask, cell) {
        lemma_rank_in_range(n.mask, cell);
        lemma_zero_bit(n.mask, cell);
        let r = ones_below(n.mask, cell as nat) as int;
        let c = n.children[r];
        assert(is_child(m, id, r, c));
        lemma_cell_inside(n.level, level, x);
        lemma_cell_inside(n.level, level, y);
        lemma_cell_inside(n.level, level, z);
        lemma_clear_bit(m, c, x % step, y % step, z % step, level);
    } else if n.level >= level {
        assert(cell == cell_in(step, x, y, z));
    }
}

proof fn lemma_cell_inside(outer: int, level: int, x: int)
    requires
        0 <= outer < level <= 3,
        0 <= x,
    ensures
        (x % child_extent(outer)) / child_extent(level) % 4 == x / child_extent(level) % 4,
        0 <= x % child_extent(outer) < 4 * child_extent(outer + 1),
{
}

/// A node that is split somewhere has its nodes above it split on the way: within it, voxels of the
/// same node share its description.
pub proof fn lemma_same_node(m: TreeModel, id: u32, x: int, y: int, z: int, u: int, v: int, w: int, level: int)
    requires
        m[id].level <= level <= 3,
        0 <= m[id].level,
        0 <= x,
        0 <= y,
        0 <= z,
        0 <= u,
        0 <= v,
        0 <= w,
        x / (4 * child_extent(level)) == u / (4 * child_extent(level)),
        y / (4 * child_extent(level)) == v / (4 * child_extent(level)),
        z / (4 * child_extent(level)) == w / (4 * child_extent(level)),
    ensures
        desc_in(m, id, x, y, z, level) == desc_in(m, id, u, v, w, level),
    decreases 4 - m[id].level,
{
    let n = m[id];
    if n.level < level {
        lemma_share(n.level, level, x, u);
        lemma_share(n.level, level, y, v);
        lemma_share(n.level, level, z, w);
        let step = child_extent(n.level);
        let cell = z / step * 16 + y / step * 4 + x / step;
        if bit(n.mask, cell) {
            let c = n.children[ones_below(n.mask, cell as nat) as int];
            if m[c].level == n.level + 1 {
                lemma_same_node(
                    m,
                    c,
                    x % step,
                    y % step,
                    z % step,
                    u % step,
                    v % step,
                    w % step,
                    level,
                );
            }
        }
    }
}

proof fn lemma_share(outer: int, level: int, x: int, u: int)
    requires
        0 <= outer < level <= 3,
        0 <= x,
        0 <= u,
        x / (4 * child_extent(level)) == u / (4 * child_extent(level)),
    ensures
        x / child_extent(outer) == u / child_extent(outer),
        (x % child_extent(outer)) / (4 * child_extent(level)) == (u % child_extent(outer)) / (4
            * child_extent(level)),
{
    if level == 1 {
        assert(x / 64 == u / 64);
        assert(x % 64 / 64 == 0 && u % 64 / 64 == 0);
    } else if level == 2 {
        assert(x % 16 / 16 == 0 && u % 16 / 16 == 0);
        assert(x / 16 == u / 16);
        assert(x / 64 == x / 16 / 4 && u / 64 == u / 16 / 4);
        assert(x % 64 / 16 == x / 16 % 4 && u % 64 / 16 == u / 16 % 4);
    } else {
        assert(x / 4 == u / 4);
        assert(x % 4 / 4 == 0 && u % 4 / 4 == 0);
        assert(x / 16 == x / 4 / 4 && u / 16 == u / 4 / 4);
        assert(x / 64 == x / 4 / 16 && u / 64 == u / 4 / 16);
        assert(x % 64 / 4 == x / 4 % 16 && u % 64 / 4 == u / 4 % 16);
        assert(x % 16 / 4 == x / 4 % 4 && u % 16 / 4 == u / 4 % 4);
    }
}

fn pick(a: u32, step: u32) -> (r: u32)
    requires
        step == 1 || step == 4 || step == 16 || step == 64,
        a < 4 * step,
    ensures
        r == a as int / step as int,
        r < 4,
{
    a / step
}

impl ChunkTree {
    /// The palette index of a voxel; `None` for air.
    pub fn get_voxel(&self, x: u32, y: u32, z: u32) -> (r: Option<u16>)
        requires
            self.wf(),
            x < 256,
            y < 256,
            z < 256,
        ensures
            r == (if voxel_of(*self, x as int, y as int, z as int) == 0 {
                None
            } else {
                Some(voxel_of(*self, x as int, y as int, z as int))
            }),
    {
        let ghost m = self.model();
        let ghost want = voxel_of(*self, x as int, y as int, z as int);
        let (mut lx, mut ly, mut lz): (u32, u32, u32) = (x, y, z);
        let mut id: u32 = 0;
        let mut level: u8 = 0;
        let mut step: u32 = 64;
        loop
            invariant
                self.wf(),
                m == self.model(),
                level <= 3,
                step == child_extent(level as int),
                lx < 4 * step,
                ly < 4 * step,
                lz < 4 * step,
                m.dom().contains(id),
                m[id].level == level,
                want == voxel_in(m, id, lx as int, ly as int, lz as int),
                want == voxel_of(*self, x as int, y as int, z as int),
            decreases 4 - level,
        {
            let n: &TreeNode = match self.node_view(id) {
                Some(n) => n,
                None => {
                    return None;
                },
            };
            let cell: u32 = pick(lz, step) * 16 + pick(ly, step) * 4 + pick(lx, step);
            assert(cell == lz as int / step as int * 16 + ly as int / step as int * 4 + lx as int
                / step as int);
            if n.mask == 0 || !test_bit(n.mask, cell) {
                return if n.palette == 0 { None } else { Some(n.palette) };
            }
            if level == 3 {
                let w: u32 = n.inline[(cell / 2) as usize];
                assert((w & 0xFFFF) < 0x1_0000 && ((w >> 16) & 0xFFFF) < 0x1_0000) by (bit_vector);
                let p: u16 = if cell % 2 == 0 {
                    (w & 0xFFFF) as u16
                } else {
                    ((w >> 16) & 0xFFFF) as u16
                };
                return if p == 0 { None } else { Some(p) };
            }
            let k: u32 = rank(n.mask, cell);
            proof {
                lemma_rank_in_range(n.mask, cell as int);
                assert(is_child(m, id, k as int, n.children[k as int]));
            }
            id = n.children[k as usize];
            lx = lx % step;
            ly = ly % step;
            lz = lz % step;
            level = level + 1;
            step = step / 4;
        }
    }

    /// The node of a level that holds a voxel.
    pub fn node_desc(&self, x: u32, y: u32, z: u32, level: u8) -> (r: NodeDesc)
        requires
            self.wf(),
            x < 256,
            y < 256,
            z < 256,
            level <= 3,
        ensures
            r == desc_in(self.model(), 0, x as int, y as int, z as int, level as int),
    {
        let ghost m = self.model();
        let ghost want = desc_in(m, 0, x as int, y as int, z as int, level as int);
        let (mut lx, mut ly, mut lz): (u32, u32, u32) = (x, y, z);
        let mut id: u32 = 0;
        let mut at: u8 = 0;
        let mut step: u32 = 64;
        loop
            invariant
                self.wf(),
                m == self.model(),
                at <= level <= 3,
                step == child_extent(at as int),
                lx < 4 * step,
                ly < 4 * step,
                lz < 4 * step,
                m.dom().contains(id),
                m[id].level == at,
                want == desc_in(m, id, lx as int, ly as int, lz as int, level as int),
                want == desc_in(self.model(), 0, x as int, y as int, z as int, level as int),
            decreases 4 - at,
        {
            let n: &TreeNode = match self.node_view(id) {
                Some(n) => n,
                None => {
                    return NodeDesc { mask: 0, palette: 0 };
                },
            };
            if at == level {
                return NodeDesc { mask: n.mask, palette: n.palette };
            }
            let cell: u32 = pick(lz, step) * 16 + pick(ly, step) * 4 + pick(lx, step);
            assert(cell == lz as int / step as int * 16 + ly as int / step as int * 4 + lx as int
                / step as int);
            if !test_bit(n.mask, cell) {
                return NodeDesc { mask: 0, palette: n.palette };
            }
            let k: u32 = rank(n.mask, cell);
            proof {
                lemma_rank_in_range(n.mask, cell as int);
                lemma_zero_bit(n.mask, cell as int);
                assert(is_child(m, id, k as int, n.children[k as int]));
            }
            id = n.children[k as usize];
            lx = lx % step;
            ly = ly % step;
            lz = lz % step;
            at = at + 1;
            step = step / 4;
        }
    }
}

/// What is found at a level is a node of the tree, at that level, or a cell that no node splits.
pub proof fn lemma_desc_is_a_node(m: TreeModel, id: u32, x: int, y: int, z: int, level: int)
    requires
        tree_wf(m),
        m.dom().contains(id),
        m[id].level <= level <= 3,
        0 <= x < 4 * child_extent(m[id].level),
        0 <= y < 4 * child_extent(m[id].level),
        0 <= z < 4 * child_extent(m[id].level),
    ensures
        desc_in(m, id, x, y, z, level).mask == 0 || exists|n: u32| #[trigger]
            m.dom().contains(n) && m[n].level == level && m[n].mask == desc_in(
                m,
                id,
                x,
                y,
                z,
                level,
            ).mask && m[n].palette == desc_in(m, id, x, y, z, level).palette,
    decreases 4 - m[id].level,
{
    let n = m[id];
    let step = child_extent(n.level);
    let cell = z / step * 16 + y / step * 4 + x / step;
    lemma_cell_on_axis(x, step);
    lemma_cell_on_axis(y, step);
    lemma_cell_on_axis(z, step);
    if n.level < level && bit(n.mask, cell) {
        lemma_zero_bit(n.mask, cell);
        lemma_rank_in_range(n.mask, cell);
        let j = ones_below(n.mask, cell as nat) as int;
        assert(node_shape(n));
        let c = n.children[j];
        assert(is_child(m, id, j, c));
        lemma_desc_is_a_node(m, c, x % step, y % step, z % step, level);
    } else {
        assert(m.dom().contains(id));
    }
}

} // verus!
