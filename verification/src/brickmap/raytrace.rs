//! A ray's walk through a chunk: everything but the distances.
//!
//! The walk stands at a voxel and at a level: 3 is the chunk's root, whose cells have 64 voxels per
//! edge, and 0 the last node, whose cells are voxels. It looks down from its level to what is at the
//! voxel ([`March::look`]), steps from cell to cell inside a node ([`March::step`]), and where it
//! leaves the node or meets a split cell, it climbs to the coarsest level whose cells start there
//! ([`March::climb`]). Which axis is next, and where the ray is, the caller works out.

use super::grid::VolumeGrid;
use super::lookup::{cell_in, desc_in, lemma_clear_bit, lemma_same_node, voxel_of, NodeDesc};
use super::tree::{child_extent, ChunkTree};
use super::wire::{
    cell_coord, lut_mask, march_mask_lut_words, march_reaches, octant_up, MARCH_MASK_WORDS,
};
use crate::bits::{bit, join_mask, lemma_no_ones, ones, ones_below, test_bit};
use crate::math::{div_floor, rem_floor, ChunkCoord, IVec3};
use vstd::prelude::*;

verus! {

/// Voxels per edge of a cell.
pub open spec fn cell_edge(level: int) -> int {
    child_extent(3 - level)
}

fn edge_of(level: u32) -> (r: i32)
    requires
        level <= 3,
    ensures
        r == cell_edge(level as int),
{
    if level == 0 {
        1
    } else if level == 1 {
        4
    } else if level == 2 {
        16
    } else {
        64
    }
}

/// Cell of a voxel in its node: `x` runs fastest.
pub fn cell_index(v: &[i32; 3], level: u32) -> (r: usize)
    requires
        level <= 3,
    ensures
        r == cell_in(cell_edge(level as int), v[0] as int, v[1] as int, v[2] as int),
        r < 64,
{
    let e: i32 = edge_of(level);
    let x: i32 = rem_floor(div_floor(v[0], e), 4);
    let y: i32 = rem_floor(div_floor(v[1], e), 4);
    let z: i32 = rem_floor(div_floor(v[2], e), 4);
    (z * 16 + y * 4 + x) as usize
}

/// `t` holds, by octant and entry cell, the cells that a ray may cross.
pub open spec fn is_reach_lut(t: Seq<u64>) -> bool {
    &&& t.len() == 512
    &&& forall|oct: int, entry: int, p: int|
        0 <= oct < 8 && 0 <= entry < 64 && 0 <= p < 64 ==> (#[trigger] bit(t[oct * 64 + entry], p)
            <==> march_reaches(oct, entry, p))
}

/// The reach table, one mask per octant and entry cell.
pub fn reach_lut() -> (r: Vec<u64>)
    ensures
        is_reach_lut(r@),
{
    let words: Vec<u32> = march_mask_lut_words();
    let mut r: Vec<u64> = Vec::with_capacity(512);
    let mut i: usize = 0;
    while i < 512
        invariant
            i <= 512,
            words.len() == MARCH_MASK_WORDS,
            r.len() == i,
            forall|j: int| 0 <= j < i ==> #[trigger] r@[j] == join_mask(words@[2 * j], words@[2 * j + 1]),
        decreases 512 - i,
    {
        let lo: u32 = words[2 * i];
        let hi: u32 = words[2 * i + 1];
        r.push(((hi as u64) << 32) | (lo as u64));
        i += 1;
    }
    proof {
        assert forall|oct: int, entry: int, p: int|
            0 <= oct < 8 && 0 <= entry < 64 && 0 <= p < 64 implies (#[trigger] bit(
            r@[oct * 64 + entry],
            p,
        ) <==> march_reaches(oct, entry, p)) by {
            let j = oct * 64 + entry;
            assert(r@[j] == join_mask(words@[2 * j], words@[2 * j + 1]));
            assert(2 * j == oct * 128 + entry * 2);
            assert(bit(lut_mask(words@, oct, entry), p) <==> march_reaches(oct, entry, p));
        }
    }
    r
}

/// Component of a vector.
pub open spec fn comp(v: IVec3, axis: int) -> int {
    if axis == 0 {
        v.x as int
    } else if axis == 1 {
        v.y as int
    } else {
        v.z as int
    }
}

/// The vector with one component replaced.
pub open spec fn with_comp(v: IVec3, axis: int, c: int) -> IVec3 {
    IVec3 {
        x: if axis == 0 {
            c as i32
        } else {
            v.x
        },
        y: if axis == 1 {
            c as i32
        } else {
            v.y
        },
        z: if axis == 2 {
            c as i32
        } else {
            v.z
        },
    }
}

fn get_comp(v: &IVec3, axis: usize) -> (r: i32)
    requires
        axis < 3,
    ensures
        r == comp(*v, axis as int),
{
    if axis == 0 {
        v.x
    } else if axis == 1 {
        v.y
    } else {
        v.z
    }
}

fn set_comp(v: IVec3, axis: usize, c: i32) -> (r: IVec3)
    requires
        axis < 3,
    ensures
        r == with_comp(v, axis as int, c as int),
{
    IVec3::new(
        if axis == 0 { c } else { v.x },
        if axis == 1 { c } else { v.y },
        if axis == 2 { c } else { v.z },
    )
}

/// The voxel lies in the chunk.
pub open spec fn in_chunk(v: IVec3) -> bool {
    0 <= v.x < 256 && 0 <= v.y < 256 && 0 <= v.z < 256
}

/// Lowest voxel of the cell that holds `c`, along an axis.
pub open spec fn cell_start(c: int, edge: int) -> int {
    c / edge * edge
}

/// `p` moved into `[lo, lo + edge)`.
pub open spec fn clamp_to(p: int, lo: int, edge: int) -> int {
    if p < lo {
        lo
    } else if p > lo + edge - 1 {
        lo + edge - 1
    } else {
        p
    }
}

/// `p` moved into the cell that holds `v`.
pub open spec fn into_cell(p: IVec3, v: IVec3, edge: int) -> IVec3 {
    IVec3 {
        x: clamp_to(p.x as int, cell_start(v.x as int, edge), edge) as i32,
        y: clamp_to(p.y as int, cell_start(v.y as int, edge), edge) as i32,
        z: clamp_to(p.z as int, cell_start(v.z as int, edge), edge) as i32,
    }
}

fn clamp_comp(p: i32, c: i32, edge: i32) -> (r: i32)
    requires
        1 <= edge <= 64,
        -64 <= c <= 320,
    ensures
        r == clamp_to(p as int, cell_start(c as int, edge as int), edge as int),
        cell_start(c as int, edge as int) <= r < cell_start(c as int, edge as int) + edge,
{
    let q: i32 = div_floor(c, edge);
    proof {
        vstd::arithmetic::div_mod::lemma_fundamental_div_mod(c as int, edge as int);
        vstd::arithmetic::mul::lemma_mul_is_commutative(edge as int, q as int);
        assert(c - edge < q * edge <= c);
    }
    let lo: i32 = q * edge;
    if p < lo {
        lo
    } else if p > lo + (edge - 1) {
        lo + (edge - 1)
    } else {
        p
    }
}

fn move_into_cell(p: &IVec3, v: &IVec3, level: u32) -> (r: IVec3)
    requires
        level <= 3,
        -64 <= v.x <= 320,
        -64 <= v.y <= 320,
        -64 <= v.z <= 320,
    ensures
        r == into_cell(*p, *v, cell_edge(level as int)),
{
    let e: i32 = edge_of(level);
    IVec3::new(clamp_comp(p.x, v.x, e), clamp_comp(p.y, v.y, e), clamp_comp(p.z, v.z, e))
}

/// The face through which a step up or down an axis enters.
pub open spec fn entry_face(axis: int, up: bool) -> int {
    2 * axis + (if up {
        0int
    } else {
        1
    })
}

/// The face through which a step up or down an axis enters.
pub fn face_of(axis: usize, up: bool) -> (r: u8)
    requires
        axis < 3,
    ensures
        r == entry_face(axis as int, up),
{
    if up {
        axis as u8 * 2
    } else {
        axis as u8 * 2 + 1
    }
}

/// The direction in which a face looks; nothing for what is no face.
pub open spec fn face_direction(f: int) -> (int, int, int) {
    if f == 0 {
        (-1, 0, 0)
    } else if f == 1 {
        (1, 0, 0)
    } else if f == 2 {
        (0, -1, 0)
    } else if f == 3 {
        (0, 1, 0)
    } else if f == 4 {
        (0, 0, -1)
    } else if f == 5 {
        (0, 0, 1)
    } else {
        (0, 0, 0)
    }
}

/// The direction in which a face looks.
pub fn face_normal_from_index(f: u8) -> (r: IVec3)
    ensures
        (r.x as int, r.y as int, r.z as int) == face_direction(f as int),
{
    if f == 0 {
        IVec3::new(-1, 0, 0)
    } else if f == 1 {
        IVec3::new(1, 0, 0)
    } else if f == 2 {
        IVec3::new(0, -1, 0)
    } else if f == 3 {
        IVec3::new(0, 1, 0)
    } else if f == 4 {
        IVec3::new(0, 0, -1)
    } else if f == 5 {
        IVec3::new(0, 0, 1)
    } else {
        IVec3::splat(0)
    }
}

/// An entry face looks back along the step: the voxel before it is the one that the ray came from.
pub proof fn lemma_face_looks_back(axis: int, up: bool)
    requires
        0 <= axis < 3,
    ensures
        ({
            let d = face_direction(entry_face(axis, up));
            let s: int = if up {
                -1
            } else {
                1
            };
            d == (
                if axis == 0 {
                    s
                } else {
                    0
                },
                if axis == 1 {
                    s
                } else {
                    0
                },
                if axis == 2 {
                    s
                } else {
                    0
                },
            )
        }),
{
}

/// A ray's walk through a chunk.
#[derive(Debug, Clone, Copy)]
pub struct March {
    /// The voxel that the ray is in, counted from the chunk's corner.
    pub v: IVec3,
    pub level: u32,
    /// The face through which the ray entered.
    pub face: u8,
    /// The node at the voxel and level.
    pub desc: NodeDesc,
    /// The ray runs up the axes; along an axis that it does not move on, up.
    pub up: [bool; 3],
}

/// What a look finds.
#[derive(Debug, Clone, Copy, PartialEq, Eq, Structural)]
pub enum Look {
    /// Matter of this palette index.
    Hit(u16),
    /// Air, and nothing that the ray could meet in the whole chunk.
    Gone,
    /// Air: step on at the walk's level.
    Air,
}

/// What a step meets.
#[derive(Debug, Clone, Copy, PartialEq, Eq, Structural)]
pub enum Met {
    /// Matter of this palette index.
    Hit(u16),
    /// Air in the same node.
    Air,
    /// A cell of the same node that is split further.
    Split,
    /// The ray has left the node.
    Crossed,
}

/// The node at voxel `v`.
pub open spec fn node_at_level(t: ChunkTree, v: IVec3, level: int) -> NodeDesc {
    desc_in(t.model(), 0, v.x as int, v.y as int, v.z as int, 3 - level)
}

/// Palette index of voxel `v`.
pub open spec fn voxel_here(t: ChunkTree, v: IVec3) -> u16 {
    voxel_of(t, v.x as int, v.y as int, v.z as int)
}

/// Cell of `v` in its node.
pub open spec fn cell_here(v: IVec3, level: int) -> int {
    cell_in(cell_edge(level), v.x as int, v.y as int, v.z as int)
}

/// The first level from `level` down at which the cell of `v` is not split.
pub open spec fn settled(t: ChunkTree, v: IVec3, level: int) -> int
    decreases level,
{
    if level <= 0 || !bit(node_at_level(t, v, level).mask, cell_here(v, level)) {
        level
    } else {
        settled(t, v, level - 1)
    }
}

/// Octant of a direction: bit `axis` is set where it runs up.
pub open spec fn octant_of(up: Seq<bool>) -> int {
    (if up[0] {
        1int
    } else {
        0
    }) + (if up[1] {
        2int
    } else {
        0
    }) + (if up[2] {
        4int
    } else {
        0
    })
}

/// No cell that a ray of this octant may cross from `entry` on is split, and the others are air.
pub open spec fn nothing_ahead(d: NodeDesc, oct: int, entry: int) -> bool {
    d.palette == 0 && forall|p: int|
        0 <= p < 64 ==> !(#[trigger] bit(d.mask, p) && march_reaches(oct, entry, p))
}

/// Masks have no bit in common.
pub open spec fn disjoint(a: u64, b: u64) -> bool {
    forall|p: int| 0 <= p < 64 ==> !(#[trigger] bit(a, p) && bit(b, p))
}

proof fn lemma_disjoint(a: u64, b: u64)
    ensures
        a & b == 0 <==> disjoint(a, b),
{
    if a & b == 0 {
        assert forall|p: int| 0 <= p < 64 implies !(#[trigger] bit(a, p) && bit(b, p)) by {
            let k = p as u64;
            assert(a & b == 0 ==> !((a >> k) & 1 == 1 && (b >> k) & 1 == 1)) by (bit_vector);
        }
    } else {
        let c = a & b;
        if ones(c) == 0 {
            lemma_no_ones(c);
        }
        let p = lemma_some_bit(c, 64);
        let k = p as u64;
        assert((c >> k) & 1 == 1 && c == a & b ==> (a >> k) & 1 == 1 && (b >> k) & 1 == 1)
            by (bit_vector);
        assert(bit(a, p) && bit(b, p));
    }
}

proof fn lemma_some_bit(c: u64, n: nat) -> (p: int)
    requires
        n <= 64,
        ones_below(c, n) > 0,
    ensures
        0 <= p < n,
        bit(c, p),
    decreases n,
{
    if bit(c, n - 1) {
        n - 1
    } else {
        lemma_some_bit(c, (n - 1) as nat)
    }
}

/// A node that is skipped holds nothing that the ray could meet: every cell on or ahead of its entry
/// cell is air.
pub proof fn lemma_skip_is_safe(t: ChunkTree, v: IVec3, level: int, up: Seq<bool>, w: IVec3)
    requires
        t.wf(),
        0 <= level <= 3,
        in_chunk(v),
        in_chunk(w),
        nothing_ahead(node_at_level(t, v, level), octant_of(up), cell_here(v, level)),
        // in the same node
        v.x as int / (4 * cell_edge(level)) == w.x as int / (4 * cell_edge(level)),
        v.y as int / (4 * cell_edge(level)) == w.y as int / (4 * cell_edge(level)),
        v.z as int / (4 * cell_edge(level)) == w.z as int / (4 * cell_edge(level)),
        // not behind
        if up[0] {
            w.x >= v.x
        } else {
            w.x <= v.x
        },
        if up[1] {
            w.y >= v.y
        } else {
            w.y <= v.y
        },
        if up[2] {
            w.z >= v.z
        } else {
            w.z <= v.z
        },
    ensures
        voxel_here(t, w) == 0,
{
    let d = node_at_level(t, v, level);
    let (e, p) = (cell_here(v, level), cell_here(w, level));
    assert(t.model().dom().contains(0));
    lemma_same_node(
        t.model(),
        0,
        v.x as int,
        v.y as int,
        v.z as int,
        w.x as int,
        w.y as int,
        w.z as int,
        3 - level,
    );
    lemma_reached(v, w, level, up);
    assert(!bit(d.mask, p));
    lemma_clear_bit(t.model(), 0, w.x as int, w.y as int, w.z as int, 3 - level);
}

/// A voxel of the same node that is not behind lies in a cell that the ray may cross.
proof fn lemma_reached(v: IVec3, w: IVec3, level: int, up: Seq<bool>)
    requires
        0 <= level <= 3,
        in_chunk(v),
        in_chunk(w),
        v.x as int / (4 * cell_edge(level)) == w.x as int / (4 * cell_edge(level)),
        v.y as int / (4 * cell_edge(level)) == w.y as int / (4 * cell_edge(level)),
        v.z as int / (4 * cell_edge(level)) == w.z as int / (4 * cell_edge(level)),
        if up[0] {
            w.x >= v.x
        } else {
            w.x <= v.x
        },
        if up[1] {
            w.y >= v.y
        } else {
            w.y <= v.y
        },
        if up[2] {
            w.z >= v.z
        } else {
            w.z <= v.z
        },
    ensures
        0 <= cell_here(v, level) < 64,
        0 <= cell_here(w, level) < 64,
        march_reaches(octant_of(up), cell_here(v, level), cell_here(w, level)),
{
    let (e, p) = (cell_here(v, level), cell_here(w, level));
    let oct = octant_of(up);
    let k = cell_edge(level);
    lemma_ahead(v.x as int, w.x as int, level, up[0]);
    lemma_ahead(v.y as int, w.y as int, level, up[1]);
    lemma_ahead(v.z as int, w.z as int, level, up[2]);
    let (ex, ey, ez) = (v.x as int / k % 4, v.y as int / k % 4, v.z as int / k % 4);
    let (px, py, pz) = (w.x as int / k % 4, w.y as int / k % 4, w.z as int / k % 4);
    lemma_coords(ex, ey, ez);
    lemma_coords(px, py, pz);
    lemma_octant(up[0], up[1], up[2], oct);
}

proof fn lemma_coords(x: int, y: int, z: int)
    requires
        0 <= x < 4,
        0 <= y < 4,
        0 <= z < 4,
    ensures
        0 <= z * 16 + y * 4 + x < 64,
        cell_coord(z * 16 + y * 4 + x, 0) == x,
        cell_coord(z * 16 + y * 4 + x, 1) == y,
        cell_coord(z * 16 + y * 4 + x, 2) == z,
{
}

proof fn lemma_octant(a: bool, b: bool, c: bool, oct: int)
    requires
        oct == (if a {
            1int
        } else {
            0
        }) + (if b {
            2int
        } else {
            0
        }) + (if c {
            4int
        } else {
            0
        }),
    ensures
        octant_up(oct, 0) == a,
        octant_up(oct, 1) == b,
        octant_up(oct, 2) == c,
{
}

proof fn lemma_ahead(a: int, b: int, level: int, up: bool)
    requires
        0 <= level <= 3,
        0 <= a < 256,
        0 <= b < 256,
        a / (4 * cell_edge(level)) == b / (4 * cell_edge(level)),
        if up {
            b >= a
        } else {
            b <= a
        },
    ensures
        0 <= a / cell_edge(level) % 4 < 4,
        0 <= b / cell_edge(level) % 4 < 4,
        if up {
            b / cell_edge(level) % 4 >= a / cell_edge(level) % 4
        } else {
            b / cell_edge(level) % 4 <= a / cell_edge(level) % 4
        },
{
    let k = cell_edge(level);
    if level == 0 {
        assert(a / 4 == b / 4);
    } else if level == 1 {
        assert(a / 16 == b / 16);
        assert(a / 16 == a / 4 / 4 && b / 16 == b / 4 / 4);
    } else if level == 2 {
        assert(a / 64 == b / 64);
        assert(a / 64 == a / 16 / 4 && b / 64 == b / 16 / 4);
    } else {
        assert(a / 64 < 4 && b / 64 < 4);
    }
}

/// `v` moved into the chunk.
pub open spec fn into_chunk(v: IVec3) -> IVec3 {
    IVec3 {
        x: clamp_to(v.x as int, 0, 256) as i32,
        y: clamp_to(v.y as int, 0, 256) as i32,
        z: clamp_to(v.z as int, 0, 256) as i32,
    }
}

/// What a look at the voxel of `o` says, and the level at which it leaves the walk.
pub open spec fn looked(o: March, n: March, t: ChunkTree, r: Look) -> bool {
    let l = settled(t, o.v, o.level as int);
    let skip = nothing_ahead(node_at_level(t, o.v, l), octant_of(o.up@), cell_here(o.v, l));
    &&& r == (if voxel_here(t, o.v) != 0 {
        Look::Hit(voxel_here(t, o.v))
    } else if skip && l == 3 {
        Look::Gone
    } else {
        Look::Air
    })
    &&& r == Look::Air ==> n.level == (if skip {
        l + 1
    } else {
        l
    })
}

/// The voxel behind the cell that the walk is in, along an axis; on the others the one nearest to `pf`.
pub open spec fn next_voxel(o: March, axis: int, pf: IVec3) -> IVec3 {
    let e = cell_edge(o.level as int);
    let start = cell_start(comp(o.v, axis), e);
    with_comp(
        into_cell(pf, o.v, e),
        axis,
        if o.up[axis] {
            start + e
        } else {
            start - 1
        },
    )
}

/// A walk that has left its node, or met a coarser cell, goes on at the coarsest level that starts at
/// the plane that it has come to.
pub open spec fn climbed(o: March, n: March, axis: int, crossed: bool, pf: IVec3, r: bool) -> bool {
    let l = o.level + (if crossed {
        1int
    } else {
        0
    });
    let e = cell_edge(l);
    let c = frontier(comp(o.v, axis), e, o.up[axis]);
    &&& r == (l <= 3 && c % 256 != 0)
    &&& r ==> is_coarsest(n.level as int, l, c) && n.v == with_comp(
        into_cell(pf, o.v, e),
        axis,
        if o.up[axis] {
            c
        } else {
            c - 1
        },
    )
}

impl March {
    pub open spec fn wf(&self) -> bool {
        in_chunk(self.v) && self.level <= 3
    }

    /// Starts a walk at the root.
    pub fn new(v: IVec3, face: u8, up: [bool; 3]) -> (r: Self)
        ensures
            r.v == into_chunk(v),
            r.v == (IVec3 {
                x: clamp_to(v.x as int, 0, 256) as i32,
                y: clamp_to(v.y as int, 0, 256) as i32,
                z: clamp_to(v.z as int, 0, 256) as i32,
            }),
            r.level == 3,
            r.face == face,
            r.up == up,
            r.wf(),
    {
        March {
            v: IVec3::new(clamp_axis(v.x), clamp_axis(v.y), clamp_axis(v.z)),
            level: 3,
            face,
            desc: NodeDesc { mask: 0, palette: 0 },
            up,
        }
    }

    fn array(&self) -> (r: [i32; 3])
        ensures
            r[0] == self.v.x,
            r[1] == self.v.y,
            r[2] == self.v.z,
    {
        [self.v.x, self.v.y, self.v.z]
    }

    /// Looks down from the walk's level to what is at the voxel. In air, a node in which the ray can
    /// meet nothing any more is skipped: the walk goes one level up.
    pub fn look(&mut self, tree: &ChunkTree, lut: &Vec<u64>) -> (r: Look)
        requires
            tree.wf(),
            old(self).wf(),
            is_reach_lut(lut@),
        ensures
            final(self).v == old(self).v,
            final(self).face == old(self).face,
            final(self).up == old(self).up,
            looked(*old(self), *final(self), *tree, r),
            ({
                let v = old(self).v;
                let l = settled(*tree, v, old(self).level as int);
                let skip = nothing_ahead(
                    node_at_level(*tree, v, l),
                    octant_of(old(self).up@),
                    cell_here(v, l),
                );
                &&& r == (if voxel_here(*tree, v) != 0 {
                    Look::Hit(voxel_here(*tree, v))
                } else if skip && l == 3 {
                    Look::Gone
                } else {
                    Look::Air
                })
                &&& r == Look::Air ==> final(self).level == (if skip {
                    l + 1
                } else {
                    l
                }) && final(self).desc == node_at_level(*tree, v, final(self).level as int)
            }),
            final(self).wf(),
    {
        let ghost v = self.v;
        let ghost l0 = self.level as int;
        let (x, y, z): (u32, u32, u32) = (self.v.x as u32, self.v.y as u32, self.v.z as u32);
        let mut level: u32 = self.level;
        let mut desc: NodeDesc = tree.node_desc(x, y, z, (3 - level) as u8);
        let mut looking: bool = true;
        assert(tree.model().dom().contains(0));
        while looking
            invariant
                tree.wf(),
                self.wf(),
                self.v == v,
                *self == *old(self),
                x == v.x,
                y == v.y,
                z == v.z,
                level <= 3,
                desc == node_at_level(*tree, v, level as int),
                settled(*tree, v, level as int) == settled(*tree, v, l0),
                l0 == self.level,
                tree.model().dom().contains(0),
                !looking ==> voxel_here(*tree, v) == 0 && settled(*tree, v, l0) == level,
            decreases 2 * level + (if looking { 1int } else { 0 }),
        {
            if level == 0 {
                match tree.get_voxel(x, y, z) {
                    Some(p) => {
                        return Look::Hit(p);
                    },
                    None => {
                        looking = false;
                    },
                }
            } else {
                let a: [i32; 3] = self.array();
                let idx: usize = cell_index(&a, level);
                if !test_bit(desc.mask, idx as u32) {
                    proof {
                        lemma_clear_bit(
                            tree.model(),
                            0,
                            v.x as int,
                            v.y as int,
                            v.z as int,
                            3 - level,
                        );
                    }
                    if desc.palette != 0 {
                        return Look::Hit(desc.palette);
                    }
                    looking = false;
                } else {
                    level = level - 1;
                    desc = tree.node_desc(x, y, z, (3 - level) as u8);
                }
            }
        }
        let oct: usize = (if self.up[0] { 1 } else { 0 }) + (if self.up[1] { 2 } else { 0 }) + (
        if self.up[2] { 4 } else { 0 });
        let a: [i32; 3] = self.array();
        let entry: usize = cell_index(&a, level);
        let reach: u64 = lut[oct * 64 + entry];
        let ghost l = level as int;
        proof {
            lemma_disjoint(desc.mask, reach);
            assert forall|p: int| 0 <= p < 64 implies (#[trigger] bit(reach, p) <==> march_reaches(
                oct as int,
                entry as int,
                p,
            )) by {
                assert(bit(lut@[oct as int * 64 + entry as int], p) <==> march_reaches(
                    oct as int,
                    entry as int,
                    p,
                ));
            }
            if nothing_ahead(desc, oct as int, entry as int) {
                assert forall|p: int| 0 <= p < 64 implies !(#[trigger] bit(desc.mask, p) && bit(
                    reach,
                    p,
                )) by {
                    assert(!(bit(desc.mask, p) && march_reaches(oct as int, entry as int, p)));
                }
            } else if desc.palette == 0 && disjoint(desc.mask, reach) {
                assert forall|p: int| 0 <= p < 64 implies !(#[trigger] bit(desc.mask, p)
                    && march_reaches(oct as int, entry as int, p)) by {
                    assert(!(bit(desc.mask, p) && bit(reach, p)));
                }
            }
        }
        if desc.palette == 0 && desc.mask & reach == 0 {
            if level == 3 {
                return Look::Gone;
            }
            level = level + 1;
            desc = tree.node_desc(x, y, z, (3 - level) as u8);
        }
        self.level = level;
        self.desc = desc;
        Look::Air
    }

    /// Steps to the next cell along an axis. `pf` is the voxel of the ray's position at the step;
    /// along the other axes the walk follows it, within the cell that it leaves.
    pub fn step(&mut self, tree: &ChunkTree, axis: usize, pf: IVec3) -> (r: Met)
        requires
            tree.wf(),
            old(self).wf(),
            axis < 3,
            old(self).desc == node_at_level(*tree, old(self).v, old(self).level as int),
        ensures
            final(self).level == old(self).level,
            final(self).desc == old(self).desc,
            final(self).up == old(self).up,
            final(self).face == entry_face(axis as int, old(self).up[axis as int]),
            final(self).v == next_voxel(*old(self), axis as int, pf),
            ({
                let o = *old(self);
                let e = cell_edge(o.level as int);
                let start = cell_start(comp(o.v, axis as int), e);
                let up = o.up[axis as int];
                let cell = comp(o.v, axis as int) / e % 4;
                &&& final(self).v == with_comp(
                    into_cell(pf, o.v, e),
                    axis as int,
                    if up {
                        start + e
                    } else {
                        start - 1
                    },
                )
                &&& r == (if (up && cell == 3) || (!up && cell == 0) {
                    Met::Crossed
                } else if o.level > 0 && bit(o.desc.mask, cell_here(final(self).v, o.level as int)) {
                    Met::Split
                } else if voxel_here(*tree, final(self).v) != 0 {
                    Met::Hit(voxel_here(*tree, final(self).v))
                } else {
                    Met::Air
                })
                &&& r != Met::Crossed ==> final(self).wf() && final(self).desc == node_at_level(
                    *tree,
                    final(self).v,
                    o.level as int,
                )
            }),
            if old(self).up[axis as int] {
                0 <= comp(final(self).v, axis as int) <= 256
            } else {
                -1 <= comp(final(self).v, axis as int) < 256
            },
            forall|i: int| 0 <= i < 3 && i != axis ==> 0 <= #[trigger] comp(final(self).v, i) < 256,
    {
        let ghost o = *self;
        let e: i32 = edge_of(self.level);
        let c: i32 = get_comp(&self.v, axis);
        let up: bool = self.up[axis];
        let q: i32 = div_floor(c, e);
        let cell: i32 = rem_floor(q, 4);
        proof {
            lemma_step_axis(c as int, e as int, o.level as int);
            lemma_in_cell(o.v.x as int, e as int, o.level as int);
            lemma_in_cell(o.v.y as int, e as int, o.level as int);
            lemma_in_cell(o.v.z as int, e as int, o.level as int);
        }
        let start: i32 = q * e;
        let moved: IVec3 = move_into_cell(&pf, &self.v, self.level);
        self.v = set_comp(moved, axis, if up { start + e } else { start - 1 });
        self.face = face_of(axis, up);
        if (up && cell == 3) || (!up && cell == 0) {
            return Met::Crossed;
        }
        let ghost w = self.v;
        proof {
            let k = 4 * (e as int);
            lemma_clamped(pf.x as int, o.v.x as int, e as int, o.level as int);
            lemma_clamped(pf.y as int, o.v.y as int, e as int, o.level as int);
            lemma_clamped(pf.z as int, o.v.z as int, e as int, o.level as int);
            assert(in_chunk(w));
            assert(o.v.x as int / k == w.x as int / k);
            assert(o.v.y as int / k == w.y as int / k);
            assert(o.v.z as int / k == w.z as int / k);
            assert(tree.model().dom().contains(0));
            lemma_same_node(
                tree.model(),
                0,
                o.v.x as int,
                o.v.y as int,
                o.v.z as int,
                w.x as int,
                w.y as int,
                w.z as int,
                3 - o.level,
            );
        }
        if self.level == 0 {
            return match tree.get_voxel(self.v.x as u32, self.v.y as u32, self.v.z as u32) {
                Some(p) => Met::Hit(p),
                None => Met::Air,
            };
        }
        let a: [i32; 3] = self.array();
        let idx: usize = cell_index(&a, self.level);
        if test_bit(self.desc.mask, idx as u32) {
            return Met::Split;
        }
        proof {
            lemma_clear_bit(
                tree.model(),
                0,
                w.x as int,
                w.y as int,
                w.z as int,
                3 - o.level,
            );
        }
        if self.desc.palette != 0 {
            Met::Hit(self.desc.palette)
        } else {
            Met::Air
        }
    }
}

fn clamp_axis(c: i32) -> (r: i32)
    ensures
        r == clamp_to(c as int, 0, 256),
{
    if c < 0 {
        0
    } else if c > 255 {
        255
    } else {
        c
    }
}

proof fn lemma_in_cell(c: int, e: int, level: int)
    requires
        0 <= level <= 3,
        e == cell_edge(level),
        0 <= c < 256,
    ensures
        0 <= cell_start(c, e) <= c < cell_start(c, e) + e,
        cell_start(c, e) + e <= 256,
{
}

proof fn lemma_step_axis(c: int, e: int, level: int)
    requires
        0 <= level <= 3,
        e == cell_edge(level),
        0 <= c < 256,
    ensures
        cell_start(c, e) == (c / e) * e,
        0 <= cell_start(c, e) <= 255,
        cell_start(c, e) + e <= 256,
        c / e % 4 != 3 ==> cell_start(c, e) + e <= 255 && (cell_start(c, e) + e) / (4 * e) == c / (4
            * e),
        c / e % 4 != 0 ==> cell_start(c, e) >= 1 && (cell_start(c, e) - 1) / (4 * e) == c / (4 * e),
{
    let q = c / e;
    if level == 1 {
        assert(c / 16 == q / 4 && (q + 1) * 4 / 16 == (q + 1) / 4 && (q * 4 - 1) / 16 == (q - 1) / 4);
    } else if level == 2 {
        assert(c / 64 == q / 4 && (q + 1) * 16 / 64 == (q + 1) / 4 && (q * 16 - 1) / 64 == (q - 1)
            / 4);
    } else if level == 3 {
        assert(c / 256 == q / 4 && (q + 1) * 64 / 256 == (q + 1) / 4 && (q * 64 - 1) / 256 == (q - 1)
            / 4);
    }
}

proof fn lemma_clamped(p: int, c: int, e: int, level: int)
    requires
        0 <= level <= 3,
        e == cell_edge(level),
        0 <= c < 256,
    ensures
        0 <= clamp_to(p, cell_start(c, e), e) < 256,
        clamp_to(p, cell_start(c, e), e) / (4 * e) == c / (4 * e),
{
    let q = c / e;
    let d = clamp_to(p, cell_start(c, e), e);
    assert(q * e <= d < q * e + e);
    if level == 0 {
        assert(d == c);
    } else if level == 1 {
        assert(d / 4 == q && d / 16 == d / 4 / 4 && c / 16 == q / 4);
    } else if level == 2 {
        assert(d / 16 == q && d / 64 == d / 16 / 4 && c / 64 == q / 4);
    } else {
        assert(d / 64 == q && d / 256 == d / 64 / 4 && c / 256 == q / 4);
    }
}


/// Where the walk goes on along an axis: the first voxel of a cell, counted in the direction of the
/// ray (up), or the one behind the last (down).
pub open spec fn frontier(c: int, edge: int, up: bool) -> int {
    if up {
        cell_start(c, edge)
    } else {
        cell_start(c, edge) + edge
    }
}

/// `l` is the coarsest level from `from` on whose cells start at `c`.
pub open spec fn is_coarsest(l: int, from: int, c: int) -> bool {
    &&& from <= l <= 3
    &&& c % cell_edge(l) == 0
    &&& forall|k: int| l < k <= 3 ==> c % #[trigger] cell_edge(k) != 0
}

impl March {
    /// Climbs to the coarsest level whose cells start where the last step led; one level at least
    /// when it led out of the node. The answer is `false` when the ray has left the chunk.
    pub fn climb(&mut self, axis: usize, crossed: bool, pf: IVec3) -> (r: bool)
        requires
            axis < 3,
            old(self).level <= 3,
            if old(self).up[axis as int] {
                0 <= comp(old(self).v, axis as int) <= 256
            } else {
                -1 <= comp(old(self).v, axis as int) < 256
            },
            forall|i: int| 0 <= i < 3 && i != axis ==> 0 <= #[trigger] comp(old(self).v, i) < 256,
        ensures
            climbed(*old(self), *final(self), axis as int, crossed, pf, r),
            ({
                let o = *old(self);
                let l = o.level + (if crossed {
                    1int
                } else {
                    0
                });
                let e = cell_edge(l);
                let up = o.up[axis as int];
                let c = frontier(comp(o.v, axis as int), e, up);
                &&& r == (l <= 3 && c % 256 != 0)
                &&& r ==> {
                    &&& is_coarsest(final(self).level as int, l, c)
                    &&& final(self).v == with_comp(
                        into_cell(pf, o.v, e),
                        axis as int,
                        if up {
                            c
                        } else {
                            c - 1
                        },
                    )
                    &&& final(self).face == o.face
                    &&& final(self).up == o.up
                    &&& final(self).wf()
                }
            }),
    {
        let ghost o = *self;
        let l: u32 = self.level + if crossed { 1 } else { 0 };
        if l > 3 {
            return false;
        }
        let e: i32 = edge_of(l);
        let c0: i32 = get_comp(&self.v, axis);
        let up: bool = self.up[axis];
        proof {
            assert(-1 <= o.v.x <= 256 && -1 <= o.v.y <= 256 && -1 <= o.v.z <= 256) by {
                assert(comp(o.v, 0) == o.v.x && comp(o.v, 1) == o.v.y && comp(o.v, 2) == o.v.z);
            }
            assert(axis != 0 ==> 0 <= comp(o.v, 0) < 256);
            assert(axis != 1 ==> 0 <= comp(o.v, 1) < 256);
            assert(axis != 2 ==> 0 <= comp(o.v, 2) < 256);
            lemma_frontier(c0 as int, e as int, l as int);
        }
        let start: i32 = div_floor(c0, e) * e;
        let c: i32 = if up { start } else { start + e };
        if rem_floor(c, 256) == 0 {
            return false;
        }
        let mut level: u32 = l;
        while level < 3 && rem_floor(c, edge_of(level + 1)) == 0
            invariant
                l <= level <= 3,
                c as int % cell_edge(level as int) == 0,
            decreases 3 - level,
        {
            level = level + 1;
        }
        proof {
            lemma_coarser(c as int, level as int);
            lemma_around(pf.x as int, o.v.x as int, e as int, l as int);
            lemma_around(pf.y as int, o.v.y as int, e as int, l as int);
            lemma_around(pf.z as int, o.v.z as int, e as int, l as int);
        }
        let moved: IVec3 = move_into_cell(&pf, &self.v, l);
        self.v = set_comp(moved, axis, if up { c } else { c - 1 });
        self.level = level;
        proof {
            assert(0 < c < 256);
            assert(is_coarsest(level as int, l as int, c as int));
            assert(in_chunk(self.v));
        }
        true
    }
}

proof fn lemma_frontier(c: int, e: int, l: int)
    requires
        0 <= l <= 3,
        e == cell_edge(l),
        -1 <= c <= 256,
    ensures
        cell_start(c, e) == (c / e) * e,
        -64 <= cell_start(c, e) <= 256,
        cell_start(c, e) + e >= 0,
        cell_start(c, e) % e == 0,
        (cell_start(c, e) + e) % e == 0,
        // a frontier that is no multiple of 256 lies inside the chunk
        cell_start(c, e) % 256 != 0 && c >= 0 ==> 0 < cell_start(c, e) < 256,
        c == -1 ==> cell_start(c, e) + e == 0,
        c == -1 ==> cell_start(c, e) < 0,
        (cell_start(c, e) + e) % 256 != 0 && c < 256 ==> 0 < cell_start(c, e) + e < 256,
{
}

/// What is no multiple of a cell's edge is none of a coarser one.
proof fn lemma_coarser(c: int, level: int)
    requires
        0 <= level <= 3,
        level == 3 || c % cell_edge(level + 1) != 0,
    ensures
        forall|k: int| level < k <= 3 ==> c % #[trigger] cell_edge(k) != 0,
{
}

proof fn lemma_around(p: int, c: int, e: int, l: int)
    requires
        0 <= l <= 3,
        e == cell_edge(l),
        -1 <= c <= 256,
    ensures
        0 <= c < 256 ==> 0 <= clamp_to(p, cell_start(c, e), e) < 256,
        i32::MIN <= clamp_to(p, cell_start(c, e), e) <= i32::MAX,
{
}

/// One of the first `n` chunks has this coordinate.
pub open spec fn has_comp<V>(items: Seq<(ChunkCoord, V)>, n: int, axis: int, c: int) -> bool {
    exists|j: int| 0 <= j < n && comp((#[trigger] items[j]).0.0, axis) == c
}

/// `lo` and `hi` are the corners of the smallest box around the first `n` chunks.
pub open spec fn is_box<V>(items: Seq<(ChunkCoord, V)>, lo: IVec3, hi: IVec3, n: int) -> bool {
    &&& forall|j: int|
        0 <= j < n ==> lo.x <= (#[trigger] items[j]).0.0.x <= hi.x && lo.y <= items[j].0.0.y <= hi.y
            && lo.z <= items[j].0.0.z <= hi.z
    &&& has_comp(items, n, 0, lo.x as int) && has_comp(items, n, 0, hi.x as int)
    &&& has_comp(items, n, 1, lo.y as int) && has_comp(items, n, 1, hi.y as int)
    &&& has_comp(items, n, 2, lo.z as int) && has_comp(items, n, 2, hi.z as int)
}

/// The box of chunks that a volume has: its lowest corner, and the one behind its highest.
pub fn occupied_window(grid: &VolumeGrid) -> (r: Option<(IVec3, IVec3)>)
    requires
        grid.wf(),
        forall|i: int|
            0 <= i < grid.chunks.items().len() ==> (#[trigger] grid.chunks.items()[i]).0.0.x
                < i32::MAX && grid.chunks.items()[i].0.0.y < i32::MAX
                && grid.chunks.items()[i].0.0.z < i32::MAX,
    ensures
        match r {
            None => grid.chunks.items().len() == 0,
            Some((lo, hi)) => grid.chunks.items().len() > 0 && is_box(
                grid.chunks.items(),
                lo,
                IVec3 { x: (hi.x - 1) as i32, y: (hi.y - 1) as i32, z: (hi.z - 1) as i32 },
                grid.chunks.items().len() as int,
            ),
        },
{
    let n: usize = grid.chunks.len();
    if n == 0 {
        return None;
    }
    let ghost items = grid.chunks.items();
    let first: ChunkCoord = grid.chunks.entry(0).0;
    let mut lo: IVec3 = first.0;
    let mut hi: IVec3 = first.0;
    let mut i: usize = 1;
    proof {
        assert(comp(items[0].0.0, 0) == lo.x && comp(items[0].0.0, 1) == lo.y && comp(
            items[0].0.0,
            2,
        ) == lo.z);
        assert(is_box(items, lo, hi, 1));
    }
    while i < n
        invariant
            1 <= i <= n,
            n == items.len(),
            items == grid.chunks.items(),
            grid.wf(),
            is_box(items, lo, hi, i as int),
        decreases n - i,
    {
        let c: IVec3 = grid.chunks.entry(i).0.0;
        let ghost (lo0, hi0) = (lo, hi);
        lo = lo.min(c);
        hi = hi.max(c);
        proof {
            lemma_box_grows(items, lo0, hi0, i as int, c);
        }
        i += 1;
    }
    proof {
        let k = choose|k: int| 0 <= k < n && comp((#[trigger] items[k]).0.0, 0) == hi.x;
        assert(items[k].0.0.x < i32::MAX);
        let k = choose|k: int| 0 <= k < n && comp((#[trigger] items[k]).0.0, 1) == hi.y;
        assert(items[k].0.0.y < i32::MAX);
        let k = choose|k: int| 0 <= k < n && comp((#[trigger] items[k]).0.0, 2) == hi.z;
        assert(items[k].0.0.z < i32::MAX);
    }
    let top: IVec3 = IVec3::new(hi.x + 1, hi.y + 1, hi.z + 1);
    Some((lo, top))
}

proof fn lemma_has_comp<V>(items: Seq<(ChunkCoord, V)>, n: int, axis: int, c: int)
    requires
        0 <= n < items.len(),
        has_comp(items, n, axis, c) || comp(items[n].0.0, axis) == c,
    ensures
        has_comp(items, n + 1, axis, c),
{
    if has_comp(items, n, axis, c) {
        let j = choose|j: int| 0 <= j < n && comp((#[trigger] items[j]).0.0, axis) == c;
        assert(comp(items[j].0.0, axis) == c);
    } else {
        assert(comp(items[n].0.0, axis) == c);
    }
}

proof fn lemma_box_grows<V>(items: Seq<(ChunkCoord, V)>, lo: IVec3, hi: IVec3, n: int, c: IVec3)
    requires
        0 <= n < items.len(),
        items[n].0.0 == c,
        is_box(items, lo, hi, n),
    ensures
        is_box(items, lo.min_of(c), hi.max_of(c), n + 1),
{
    let (l, h) = (lo.min_of(c), hi.max_of(c));
    lemma_has_comp(items, n, 0, l.x as int);
    lemma_has_comp(items, n, 0, h.x as int);
    lemma_has_comp(items, n, 1, l.y as int);
    lemma_has_comp(items, n, 1, h.y as int);
    lemma_has_comp(items, n, 2, l.z as int);
    lemma_has_comp(items, n, 2, h.z as int);
}

/// Chunks that a ray may cross in a window, with some to spare.
pub fn chunk_budget(lo: IVec3, hi: IVec3) -> (r: u32)
    requires
        lo.x <= hi.x && lo.y <= hi.y && lo.z <= hi.z,
        ((hi.x - lo.x) + (hi.y - lo.y) + (hi.z - lo.z)) * 3 + 16 <= u32::MAX,
    ensures
        r == ((hi.x - lo.x) + (hi.y - lo.y) + (hi.z - lo.z)) * 3 + 16,
{
    let x: i64 = hi.x as i64 - lo.x as i64;
    let y: i64 = hi.y as i64 - lo.y as i64;
    let z: i64 = hi.z as i64 - lo.z as i64;
    ((x + y + z) * 3 + 16) as u32
}

/// The face that a ray enters first: the one against the axis on which the ray is fastest. `x_first`
/// says that no axis is faster than x, `y_first` that z is not faster than y; `up` is the ray's
/// direction.
pub fn first_face(x_first: bool, y_first: bool, up: [bool; 3]) -> (r: u8)
    ensures
        r == (if x_first {
            entry_face(0, up@[0])
        } else if y_first {
            entry_face(1, up@[1])
        } else {
            entry_face(2, up@[2])
        }),
{
    if x_first {
        face_of(0, up[0])
    } else if y_first {
        face_of(1, up[1])
    } else {
        face_of(2, up[2])
    }
}

/// A ray's walk from chunk to chunk.
#[derive(Debug, Clone, Copy)]
pub struct ChunkWalk {
    pub chunk: IVec3,
    /// The face through which the ray entered the chunk.
    pub face: u8,
    /// The ray goes up along an axis.
    pub up: [bool; 3],
    /// Chunks that may still be looked at.
    pub left: u32,
}

/// Chunks between the window's near side and the chunk, over all axes.
pub open spec fn chunks_behind(c: IVec3, lo: IVec3, hi: IVec3, up: Seq<bool>) -> int {
    (if up[0] {
        c.x - lo.x
    } else {
        hi.x - 1 - c.x
    }) + (if up[1] {
        c.y - lo.y
    } else {
        hi.y - 1 - c.y
    }) + (if up[2] {
        c.z - lo.z
    } else {
        hi.z - 1 - c.z
    })
}

/// The chunk lies in the window.
pub open spec fn in_window(c: IVec3, lo: IVec3, hi: IVec3) -> bool {
    lo.x <= c.x < hi.x && lo.y <= c.y < hi.y && lo.z <= c.z < hi.z
}

/// The chunk one step along an axis.
pub open spec fn next_chunk(c: IVec3, axis: int, up: bool) -> IVec3 {
    with_comp(
        c,
        axis,
        comp(c, axis) + (if up {
            1int
        } else {
            -1
        }),
    )
}

/// `r` is the voxel `v` of chunk `c`, counted in the volume.
pub open spec fn is_voxel_of(r: IVec3, c: IVec3, v: IVec3) -> bool {
    r.x == c.x * 256 + v.x && r.y == c.y * 256 + v.y && r.z == c.z * 256 + v.z
}

impl ChunkWalk {
    /// A walk that starts at a chunk, with the budget of its window.
    pub fn new(chunk: IVec3, face: u8, up: [bool; 3], lo: IVec3, hi: IVec3) -> (r: Self)
        requires
            lo.x <= hi.x && lo.y <= hi.y && lo.z <= hi.z,
            ((hi.x - lo.x) + (hi.y - lo.y) + (hi.z - lo.z)) * 3 + 16 <= u32::MAX,
        ensures
            r.chunk == chunk,
            r.face == face,
            r.up == up,
            r.left == ((hi.x - lo.x) + (hi.y - lo.y) + (hi.z - lo.z)) * 3 + 16,
    {
        ChunkWalk { chunk, face, up, left: chunk_budget(lo, hi) }
    }

    /// Goes to the next chunk along an axis; `false` once the budget is spent.
    pub fn step(&mut self, axis: usize) -> (r: bool)
        requires
            axis < 3,
            old(self).left > 0,
            i32::MIN < comp(old(self).chunk, axis as int) < i32::MAX,
        ensures
            final(self).up == old(self).up,
            final(self).left == old(self).left - 1,
            r == (final(self).left > 0),
            final(self).chunk == next_chunk(
                old(self).chunk,
                axis as int,
                old(self).up@[axis as int],
            ),
            final(self).face == entry_face(axis as int, old(self).up@[axis as int]),
    {
        let up: bool = self.up[axis];
        let d: i32 = if up { 1 } else { -1 };
        if axis == 0 {
            self.chunk.x = self.chunk.x + d;
        } else if axis == 1 {
            self.chunk.y = self.chunk.y + d;
        } else {
            self.chunk.z = self.chunk.z + d;
        }
        self.face = face_of(axis, up);
        self.left = self.left - 1;
        self.left > 0
    }

    /// A voxel of the chunk, in the volume.
    pub fn voxel(&self, v: IVec3) -> (r: IVec3)
        requires
            in_chunk(v),
            -0x80_0000 <= self.chunk.x < 0x80_0000,
            -0x80_0000 <= self.chunk.y < 0x80_0000,
            -0x80_0000 <= self.chunk.z < 0x80_0000,
        ensures
            is_voxel_of(r, self.chunk, v),
            r.x == self.chunk.x * 256 + v.x,
            r.y == self.chunk.y * 256 + v.y,
            r.z == self.chunk.z * 256 + v.z,
    {
        IVec3::new(
            self.chunk.x * 256 + v.x,
            self.chunk.y * 256 + v.y,
            self.chunk.z * 256 + v.z,
        )
    }
}

/// The chunks of a walk: `axes` says along which axis each step went.
pub open spec fn walked(start: IVec3, up: Seq<bool>, axes: Seq<int>) -> IVec3
    decreases axes.len(),
{
    if axes.len() == 0 {
        start
    } else {
        let c = walked(start, up, axes.drop_last());
        next_chunk(c, axes.last(), up[axes.last()])
    }
}

/// The budget never ends a walk inside its window: a walk that began there and has taken as many
/// steps as its budget allows, or more, has left the window.
pub proof fn lemma_budget_suffices(start: IVec3, lo: IVec3, hi: IVec3, up: Seq<bool>, axes: Seq<int>)
    requires
        up.len() == 3,
        i32::MIN < lo.x && i32::MIN < lo.y && i32::MIN < lo.z,
        in_window(start, lo, hi),
        forall|i: int| 0 <= i < axes.len() ==> 0 <= #[trigger] axes[i] < 3,
        forall|n: int|
            0 <= n < axes.len() ==> in_window(#[trigger] walked(start, up, axes.take(n)), lo, hi),
    ensures
        axes.len() <= (hi.x - lo.x) + (hi.y - lo.y) + (hi.z - lo.z) - 2,
        axes.len() < ((hi.x - lo.x) + (hi.y - lo.y) + (hi.z - lo.z)) * 3 + 16,
{
    if axes.len() > 0 {
        let n = axes.len() - 1;
        assert forall|k: int| 0 <= k <= n implies in_window(
            #[trigger] walked(start, up, axes.take(n).take(k)),
            lo,
            hi,
        ) by {
            assert(axes.take(n).take(k) == axes.take(k));
        }
        lemma_walk_counts(start, lo, hi, up, axes.take(n));
        assert(in_window(walked(start, up, axes.take(n)), lo, hi));
    }
}

proof fn lemma_walk_counts(start: IVec3, lo: IVec3, hi: IVec3, up: Seq<bool>, axes: Seq<int>)
    requires
        up.len() == 3,
        i32::MIN < lo.x && i32::MIN < lo.y && i32::MIN < lo.z,
        in_window(start, lo, hi),
        forall|i: int| 0 <= i < axes.len() ==> 0 <= #[trigger] axes[i] < 3,
        forall|n: int|
            0 <= n <= axes.len() ==> in_window(#[trigger] walked(start, up, axes.take(n)), lo, hi),
    ensures
        chunks_behind(walked(start, up, axes), lo, hi, up) == chunks_behind(start, lo, hi, up)
            + axes.len(),
    decreases axes.len(),
{
    assert(axes.take(axes.len() as int) == axes);
    if axes.len() > 0 {
        let last = axes.drop_last();
        assert forall|n: int| 0 <= n <= last.len() implies in_window(
            #[trigger] walked(start, up, last.take(n)),
            lo,
            hi,
        ) by {
            assert(last.take(n) == axes.take(n));
        }
        lemma_walk_counts(start, lo, hi, up, last);
        assert(last == axes.take(last.len() as int));
        assert(in_window(walked(start, up, axes.take(last.len() as int)), lo, hi));
        assert(in_window(walked(start, up, axes.take(axes.len() as int)), lo, hi));
        assert(axes.last() == axes[axes.len() - 1]);
    }
}

/// Each level's cells are four times as long as those of the level below, and those of the lowest are
/// voxels.
pub proof fn lemma_cell_edge(level: int)
    requires
        0 <= level < 3,
    ensures
        cell_edge(0) == 1,
        cell_edge(level + 1) == 4 * cell_edge(level),
{
}

/// Setting one component changes that one alone.
pub proof fn lemma_with_comp(v: IVec3, axis: int, c: i32, other: int)
    requires
        0 <= axis < 3,
        0 <= other < 3,
    ensures
        v == (IVec3 { x: comp(v, 0) as i32, y: comp(v, 1) as i32, z: comp(v, 2) as i32 }),
        comp(with_comp(v, axis, c as int), axis) == c,
        other != axis ==> comp(with_comp(v, axis, c as int), other) == comp(v, other),
{
}

/// A step goes to the neighbour along its axis: by one, in the ray's direction, and on no other axis.
pub proof fn lemma_next_chunk(c: IVec3, axis: int, up: bool)
    requires
        0 <= axis < 3,
        i32::MIN < comp(c, axis) < i32::MAX,
    ensures
        ({
            let n = next_chunk(c, axis, up);
            let s: int = if up {
                1
            } else {
                -1
            };
            &&& axis == 0 ==> n.x == c.x + s && n.y == c.y && n.z == c.z
            &&& axis == 1 ==> n.x == c.x && n.y == c.y + s && n.z == c.z
            &&& axis == 2 ==> n.x == c.x && n.y == c.y && n.z == c.z + s
        }),
{
}

/// A place moved into the cell of `v` lies in that cell, on each axis, and is moved no farther than it
/// must be: what is in the cell stays.
pub proof fn lemma_into_cell(p: IVec3, v: IVec3, level: int)
    requires
        0 <= level <= 3,
        -64 <= v.x <= 320,
        -64 <= v.y <= 320,
        -64 <= v.z <= 320,
    ensures
        ({
            let e = cell_edge(level);
            let r = into_cell(p, v, e);
            &&& r.x as int / e == v.x as int / e
            &&& r.y as int / e == v.y as int / e
            &&& r.z as int / e == v.z as int / e
            &&& p.x as int / e == v.x as int / e ==> r.x == p.x
            &&& p.y as int / e == v.y as int / e ==> r.y == p.y
            &&& p.z as int / e == v.z as int / e ==> r.z == p.z
            &&& r.x < p.x ==> (r.x + 1) / e > v.x as int / e
            &&& r.y < p.y ==> (r.y + 1) / e > v.y as int / e
            &&& r.z < p.z ==> (r.z + 1) / e > v.z as int / e
            &&& r.x > p.x ==> (r.x - 1) / e < v.x as int / e
            &&& r.y > p.y ==> (r.y - 1) / e < v.y as int / e
            &&& r.z > p.z ==> (r.z - 1) / e < v.z as int / e
        }),
{
    assert(cell_edge(level) == 1 || cell_edge(level) == 4 || cell_edge(level) == 16 || cell_edge(level)
        == 64);
}

/// Face `f` looks along axis `f / 2`, down for an even number and up for an odd one; a ray enters
/// through the face that looks against it.
pub proof fn lemma_face_numbers(f: int, axis: int, up: bool)
    requires
        0 <= f < 6,
        0 <= axis < 3,
    ensures
        ({
            let d = face_direction(f);
            let s: int = if f % 2 == 0 {
                -1
            } else {
                1
            };
            &&& f / 2 == 0 ==> d == (s, 0int, 0int)
            &&& f / 2 == 1 ==> d == (0int, s, 0int)
            &&& f / 2 == 2 ==> d == (0int, 0int, s)
        }),
        entry_face(axis, up) / 2 == axis,
        entry_face(axis, up) % 2 == 0 <==> up,
{
}

/// The octant of a ray tells on each axis which way it goes.
pub proof fn lemma_octant_tells_directions(up: Seq<bool>, axis: int)
    requires
        up.len() == 3,
        0 <= axis < 3,
    ensures
        0 <= octant_of(up) < 8,
        super::wire::octant_up(octant_of(up), axis) == up[axis],
{
}

/// The plane through which a ray came into a cell bounds the cell on the side that the ray comes from.
pub proof fn lemma_frontier_bounds_cell(c: int, level: int, up: bool)
    requires
        0 <= level <= 3,
    ensures
        ({
            let e = cell_edge(level);
            let f = frontier(c, e, up);
            &&& f % e == 0
            &&& up ==> f <= c && (f - 1) / e < c / e && f / e == c / e
            &&& !up ==> f > c && f / e > c / e && (f - 1) / e == c / e
        }),
{
    assert(cell_edge(level) == 1 || cell_edge(level) == 4 || cell_edge(level) == 16 || cell_edge(level)
        == 64);
}

/// A walk settles on the coarsest level, from the given one down, at which its cell is not split
/// further, and there the cell's palette index is the voxel's.
pub proof fn lemma_settles_on_coarsest(t: ChunkTree, v: IVec3, level: int, k: int)
    requires
        t.wf(),
        in_chunk(v),
        0 <= level <= 3,
    ensures
        0 <= settled(t, v, level) <= level,
        settled(t, v, level) < k <= level ==> bit(node_at_level(t, v, k).mask, cell_here(v, k)),
        ({
            let l = settled(t, v, level);
            let split = bit(node_at_level(t, v, l).mask, cell_here(v, l));
            (l > 0 ==> !split) && (!split ==> voxel_here(t, v) == node_at_level(t, v, l).palette)
        }),
    decreases level,
{
    if level > 0 && bit(node_at_level(t, v, level).mask, cell_here(v, level)) {
        lemma_settles_on_coarsest(t, v, level - 1, k);
    } else if !bit(node_at_level(t, v, level).mask, cell_here(v, level)) {
        lemma_clear_bit(t.model(), 0, v.x as int, v.y as int, v.z as int, 3 - level);
    }
}

/// `w` is not behind `v` for a ray that goes up or down on each axis.
pub open spec fn not_behind(v: IVec3, w: IVec3, up: Seq<bool>) -> bool {
    &&& if up[0] {
        w.x >= v.x
    } else {
        w.x <= v.x
    }
    &&& if up[1] {
        w.y >= v.y
    } else {
        w.y <= v.y
    }
    &&& if up[2] {
        w.z >= v.z
    } else {
        w.z <= v.z
    }
}

/// A walk misses nothing. A look hits where the voxel is matter, and says which. Where it says that
/// nothing is left, no voxel of the chunk that the ray could still meet is matter. Where it says air,
/// none of those in the cell of the level that it leaves the walk at is.
pub proof fn lemma_look_misses_nothing(o: March, n: March, t: ChunkTree, r: Look, w: IVec3)
    requires
        t.wf(),
        o.wf(),
        looked(o, n, t, r),
        in_chunk(w),
        not_behind(o.v, w, o.up@),
    ensures
        r is Hit <==> voxel_here(t, o.v) != 0,
        r is Hit ==> r == Look::Hit(voxel_here(t, o.v)),
        r is Gone ==> voxel_here(t, w) == 0,
        r is Air ==> n.level <= 3 && (w.x as int / cell_edge(n.level as int) == o.v.x as int
            / cell_edge(n.level as int) && w.y as int / cell_edge(n.level as int) == o.v.y as int
            / cell_edge(n.level as int) && w.z as int / cell_edge(n.level as int) == o.v.z as int
            / cell_edge(n.level as int) ==> voxel_here(t, w) == 0),
{
    let v = o.v;
    let l = settled(t, v, o.level as int);
    lemma_settles_on_coarsest(t, v, o.level as int, 0);
    let skip = nothing_ahead(node_at_level(t, v, l), octant_of(o.up@), cell_here(v, l));
    if r is Gone {
        lemma_skip_is_safe(t, v, l, o.up@, w);
    }
    if r is Air {
        let e = cell_edge(n.level as int);
        if w.x as int / e == v.x as int / e && w.y as int / e == v.y as int / e && w.z as int / e == v.z as int / e {
            if skip {
                lemma_cell_edge(l);
                lemma_skip_is_safe(t, v, l, o.up@, w);
            } else {
                lemma_same_cell(v.x as int, w.x as int, l);
                lemma_same_cell(v.y as int, w.y as int, l);
                lemma_same_cell(v.z as int, w.z as int, l);
                lemma_same_node(
                    t.model(),
                    0,
                    v.x as int,
                    v.y as int,
                    v.z as int,
                    w.x as int,
                    w.y as int,
                    w.z as int,
                    3 - l,
                );
                if bit(node_at_level(t, v, l).mask, cell_here(v, l)) {
                    assert(l == 0 && w == v);
                } else {
                    lemma_clear_bit(t.model(), 0, w.x as int, w.y as int, w.z as int, 3 - l);
                }
            }
        }
    }
}

proof fn lemma_same_cell(a: int, b: int, l: int)
    requires
        0 <= l <= 3,
        0 <= a < 256,
        0 <= b < 256,
        a / cell_edge(l) == b / cell_edge(l),
    ensures
        a / (4 * cell_edge(l)) == b / (4 * cell_edge(l)),
        a / cell_edge(l) % 4 == b / cell_edge(l) % 4,
{
    let e = cell_edge(l);
    vstd::arithmetic::div_mod::lemma_div_denominator(a, e, 4);
    vstd::arithmetic::div_mod::lemma_div_denominator(b, e, 4);
    assert(e * 4 == 4 * e);
}

/// The plane behind a voxel that stands at the start of its cell is the cell's own.
proof fn lemma_plane(c: int, l: int, up: bool)
    requires
        0 <= l <= 3,
        up ==> c % cell_edge(l) == 0,
        !up ==> (c + 1) % cell_edge(l) == 0,
    ensures
        frontier(c, cell_edge(l), up) == (if up {
            c
        } else {
            c + 1
        }),
{
    let e = cell_edge(l);
    if up {
        vstd::arithmetic::div_mod::lemma_fundamental_div_mod(c, e);
        assert(e * (c / e) == c / e * e) by (nonlinear_arith);
    } else {
        let q = (c + 1) / e;
        vstd::arithmetic::div_mod::lemma_fundamental_div_mod(c + 1, e);
        assert(c == (q - 1) * e + (e - 1) && (q - 1) * e + e == c + 1) by (nonlinear_arith)
            requires
                c + 1 == e * q,
        ;
        vstd::arithmetic::div_mod::lemma_fundamental_div_mod_converse(c, e, q - 1, e - 1);
    }
}

/// A step enters the next cell along its axis, in the ray's direction, at the plane between the two,
/// and stays in the row of cells on the other axes.
pub proof fn lemma_step_enters_next_cell(o: March, axis: int, pf: IVec3, other: int)
    requires
        o.wf(),
        0 <= axis < 3,
        0 <= other < 3,
        other != axis,
    ensures
        ({
            let e = cell_edge(o.level as int);
            let n = next_voxel(o, axis, pf);
            &&& o.up[axis] ==> comp(n, axis) / e == comp(o.v, axis) / e + 1 && comp(n, axis) % e == 0
            &&& !o.up[axis] ==> comp(n, axis) / e == comp(o.v, axis) / e - 1 && (comp(n, axis) + 1) % e
                == 0
            &&& comp(n, other) / e == comp(o.v, other) / e
            &&& comp(pf, other) / e == comp(o.v, other) / e ==> comp(n, other) == comp(pf, other)
        }),
{
    let l = o.level as int;
    assert(cell_edge(l) == 1 || cell_edge(l) == 4 || cell_edge(l) == 16 || cell_edge(l) == 64);
    lemma_into_cell(pf, o.v, l);
}

/// A climb does not move a walk that stands at the plane it has come through: it stays there on the
/// axis, and in its row of cells on the others. The level it goes on at is the coarsest whose cells
/// start at that plane. It ends the walk only at the border of the chunk or above the highest level.
pub proof fn lemma_climb_stays(
    o: March,
    n: March,
    axis: int,
    crossed: bool,
    pf: IVec3,
    r: bool,
    other: int,
)
    requires
        o.level <= 3,
        -1 <= o.v.x <= 256,
        -1 <= o.v.y <= 256,
        -1 <= o.v.z <= 256,
        0 <= axis < 3,
        0 <= other < 3,
        other != axis,
        climbed(o, n, axis, crossed, pf, r),
    ensures
        ({
            let l = o.level + (if crossed {
                1int
            } else {
                0
            });
            let e = cell_edge(l);
            let plane = comp(o.v, axis) + (if o.up[axis] {
                0int
            } else {
                1
            });
            l <= 3 && plane % e == 0 ==> {
                &&& r <==> plane % 256 != 0
                &&& r ==> {
                    &&& comp(n.v, axis) == comp(o.v, axis)
                    &&& comp(n.v, other) / e == comp(o.v, other) / e
                    &&& l <= n.level <= 3
                    &&& plane % cell_edge(n.level as int) == 0
                    &&& n.level < 3 ==> plane % cell_edge(n.level + 1) != 0
                }
            }
        }),
        o.level == 3 && crossed ==> !r,
{
    let l = o.level + (if crossed {
        1int
    } else {
        0
    });
    if l <= 3 {
        let c = comp(o.v, axis);
        let plane = c + (if o.up[axis] {
            0int
        } else {
            1
        });
        if plane % cell_edge(l) == 0 {
            lemma_plane(c, l, o.up[axis]);
            lemma_into_cell(pf, o.v, l);
            lemma_with_comp(into_cell(pf, o.v, cell_edge(l)), axis, c as i32, other);
        }
    }
}

/// The box of some chunks holds them all, on each axis, and a smaller one would not.
pub proof fn lemma_box_is_tight<V>(items: Seq<(ChunkCoord, V)>, lo: IVec3, hi: IVec3, n: int, j: int)
    requires
        is_box(items, lo, hi, n),
        0 <= j < n <= items.len(),
    ensures
        lo.x <= items[j].0.0.x <= hi.x,
        lo.y <= items[j].0.0.y <= hi.y,
        lo.z <= items[j].0.0.z <= hi.z,
        exists|k: int| 0 <= k < n && (#[trigger] items[k]).0.0.x == lo.x,
        exists|k: int| 0 <= k < n && (#[trigger] items[k]).0.0.y == lo.y,
        exists|k: int| 0 <= k < n && (#[trigger] items[k]).0.0.z == lo.z,
        exists|k: int| 0 <= k < n && (#[trigger] items[k]).0.0.x == hi.x,
        exists|k: int| 0 <= k < n && (#[trigger] items[k]).0.0.y == hi.y,
        exists|k: int| 0 <= k < n && (#[trigger] items[k]).0.0.z == hi.z,
{
    let a = choose|k: int| 0 <= k < n && comp((#[trigger] items[k]).0.0, 0) == lo.x as int;
    assert(items[a].0.0.x == lo.x);
    let a = choose|k: int| 0 <= k < n && comp((#[trigger] items[k]).0.0, 1) == lo.y as int;
    assert(items[a].0.0.y == lo.y);
    let a = choose|k: int| 0 <= k < n && comp((#[trigger] items[k]).0.0, 2) == lo.z as int;
    assert(items[a].0.0.z == lo.z);
    let a = choose|k: int| 0 <= k < n && comp((#[trigger] items[k]).0.0, 0) == hi.x as int;
    assert(items[a].0.0.x == hi.x);
    let a = choose|k: int| 0 <= k < n && comp((#[trigger] items[k]).0.0, 1) == hi.y as int;
    assert(items[a].0.0.y == hi.y);
    let a = choose|k: int| 0 <= k < n && comp((#[trigger] items[k]).0.0, 2) == hi.z as int;
    assert(items[a].0.0.z == hi.z);
}

/// The reach table has a mask for each octant and entry cell, octant by octant: a ray that goes up on
/// some axes and down on the others, and enters at cell `(a, b, c)`, may cross cell `(x, y, z)` exactly
/// when that lies ahead of the entry, or at most one cell behind it, on all three axes.
pub proof fn lemma_reach_lut(
    t: Seq<u64>,
    up: Seq<bool>,
    a: int,
    b: int,
    c: int,
    x: int,
    y: int,
    z: int,
)
    requires
        is_reach_lut(t),
        up.len() == 3,
        0 <= a < 4 && 0 <= b < 4 && 0 <= c < 4,
        0 <= x < 4 && 0 <= y < 4 && 0 <= z < 4,
    ensures
        bit(t[64 * octant_of(up) + (a + 4 * b + 16 * c)], x + 4 * y + 16 * z) <==> {
            &&& (up[0] ==> x - a >= -1) && (!up[0] ==> a - x >= -1)
            &&& (up[1] ==> y - b >= -1) && (!up[1] ==> b - y >= -1)
            &&& (up[2] ==> z - c >= -1) && (!up[2] ==> c - z >= -1)
        },
{
    let (oct, entry, p) = (octant_of(up), a + 4 * b + 16 * c, x + 4 * y + 16 * z);
    super::wire::lemma_reach((up[0], up[1], up[2]), a, b, c, x, y, z);
    assert(bit(t[oct * 64 + entry], p) <==> march_reaches(oct, entry, p));
}

/// A walk starts in its chunk, at the voxel nearest to where it was to start, on each axis.
pub proof fn lemma_into_chunk(v: IVec3)
    ensures
        in_chunk(into_chunk(v)),
        0 <= v.x < 256 ==> into_chunk(v).x == v.x,
        0 <= v.y < 256 ==> into_chunk(v).y == v.y,
        0 <= v.z < 256 ==> into_chunk(v).z == v.z,
        v.x < 0 ==> into_chunk(v).x == 0,
        v.y < 0 ==> into_chunk(v).y == 0,
        v.z < 0 ==> into_chunk(v).z == 0,
        v.x > 255 ==> into_chunk(v).x == 255,
        v.y > 255 ==> into_chunk(v).y == 255,
        v.z > 255 ==> into_chunk(v).z == 255,
{
}

/// A voxel counted in the volume leads back to its chunk and to its place there.
pub proof fn lemma_voxel_leads_back(r: IVec3, c: IVec3, v: IVec3)
    requires
        in_chunk(v),
        is_voxel_of(r, c, v),
    ensures
        r.x as int / 256 == c.x && r.x as int % 256 == v.x,
        r.y as int / 256 == c.y && r.y as int % 256 == v.y,
        r.z as int / 256 == c.z && r.z as int % 256 == v.z,
{
}

} // verus!
